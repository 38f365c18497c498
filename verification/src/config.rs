//! Configuration values the replay core honours.
//!
//! The embedding program loads these from its configuration files; the
//! core only reads them: which devices exist, the checkpoint range that
//! selects the sampled portion of the workload, and the directory
//! layout of a tracing operation.

use vstd::prelude::*;

verus! {

/// One kind of event the tracer can be asked to record.
#[derive(Debug, Clone, Copy, PartialEq, Eq, Structural)]
pub enum TraceOption {
    PmemRead,
    PmemWrite,
    PmemFence,
    PmemFlush,
    NvmeRead,
    NvmeWrite,
    NvmeFlush,
    Checkpoint,
}

/// The tracer argument spelling of each option.
pub open spec fn spec_qemu_str(o: TraceOption) -> Seq<char> {
    match o {
        TraceOption::PmemRead => "pmem_read"@,
        TraceOption::PmemWrite => "pmem_write"@,
        TraceOption::PmemFence => "pmem_fence"@,
        TraceOption::PmemFlush => "pmem_flush"@,
        TraceOption::NvmeRead => "nvme_read"@,
        TraceOption::NvmeWrite => "nvme_write"@,
        TraceOption::NvmeFlush => "nvme_flush"@,
        TraceOption::Checkpoint => "checkpoint"@,
    }
}

/// The option a tracer argument spells, if any.
pub open spec fn spec_from_qemu(s: Seq<char>) -> Result<TraceOption, ()> {
    if s == "pmem_read"@ {
        Ok(TraceOption::PmemRead)
    } else if s == "pmem_write"@ {
        Ok(TraceOption::PmemWrite)
    } else if s == "pmem_fence"@ {
        Ok(TraceOption::PmemFence)
    } else if s == "pmem_flush"@ {
        Ok(TraceOption::PmemFlush)
    } else if s == "nvme_read"@ {
        Ok(TraceOption::NvmeRead)
    } else if s == "nvme_write"@ {
        Ok(TraceOption::NvmeWrite)
    } else if s == "nvme_flush"@ {
        Ok(TraceOption::NvmeFlush)
    } else if s == "checkpoint"@ {
        Ok(TraceOption::Checkpoint)
    } else {
        Err(())
    }
}

impl TraceOption {
    /// The spelling this option takes in a tracer argument string.
    pub fn to_qemu_str(&self) -> (r: &'static str)
        ensures
            r@ == spec_qemu_str(*self),
    {
        match self {
            TraceOption::PmemRead => "pmem_read",
            TraceOption::PmemWrite => "pmem_write",
            TraceOption::PmemFence => "pmem_fence",
            TraceOption::PmemFlush => "pmem_flush",
            TraceOption::NvmeRead => "nvme_read",
            TraceOption::NvmeWrite => "nvme_write",
            TraceOption::NvmeFlush => "nvme_flush",
            TraceOption::Checkpoint => "checkpoint",
        }
    }

    /// Parse a tracer argument spelling.
    pub fn from_qemu_str(s: &str) -> (r: Result<TraceOption, ()>)
        ensures
            r == spec_from_qemu(s@),
    {
        let t = s.to_owned();
        if t.eq(&String::from_str("pmem_read")) {
            Ok(TraceOption::PmemRead)
        } else if t.eq(&String::from_str("pmem_write")) {
            Ok(TraceOption::PmemWrite)
        } else if t.eq(&String::from_str("pmem_fence")) {
            Ok(TraceOption::PmemFence)
        } else if t.eq(&String::from_str("pmem_flush")) {
            Ok(TraceOption::PmemFlush)
        } else if t.eq(&String::from_str("nvme_read")) {
            Ok(TraceOption::NvmeRead)
        } else if t.eq(&String::from_str("nvme_write")) {
            Ok(TraceOption::NvmeWrite)
        } else if t.eq(&String::from_str("nvme_flush")) {
            Ok(TraceOption::NvmeFlush)
        } else if t.eq(&String::from_str("checkpoint")) {
            Ok(TraceOption::Checkpoint)
        } else {
            Err(())
        }
    }
}

/// The virtual-machine description the core reads: which devices exist,
/// and what the embedding program needs to boot and drive the machine.
pub struct VmConfig {
    pub fs_type: String,
    pub pmem_start: Option<u64>,
    pub pmem_len: Option<u64>,
    pub qemu_path: String,
    pub kernel_path: String,
    pub initrd_path: String,
    pub qemu_args: Vec<String>,
    pub trace_cmd_prefix: String,
    pub dump_cmd_prefix: String,
    pub recovery_cmd: String,
}

impl VmConfig {
    /// A PM device exists under `pmem` and `hybrid` filesystems.
    pub open spec fn spec_have_pmem(&self) -> bool {
        self.fs_type@ == "pmem"@ || self.fs_type@ == "hybrid"@
    }

    /// An NVMe device exists under `nvme` and `hybrid` filesystems.
    pub open spec fn spec_have_nvme(&self) -> bool {
        self.fs_type@ == "nvme"@ || self.fs_type@ == "hybrid"@
    }

    /// The filesystem type names one of the supported layouts.
    pub open spec fn fs_type_valid(&self) -> bool {
        self.fs_type@ == "pmem"@ || self.fs_type@ == "nvme"@ || self.fs_type@ == "hybrid"@
    }

    /// Whether the filesystem type names one of the supported layouts.
    pub fn check_fs_type(&self) -> (r: bool)
        ensures
            r == self.fs_type_valid(),
    {
        let p = self.fs_type.eq(&String::from_str("pmem"));
        let n = self.fs_type.eq(&String::from_str("nvme"));
        let h = self.fs_type.eq(&String::from_str("hybrid"));
        p || n || h
    }

    /// Which devices the workload uses: `(pmem, nvme)`.
    pub fn have_pmem_nvme(&self) -> (r: (bool, bool))
        requires
            self.fs_type_valid(),
        ensures
            r.0 == self.spec_have_pmem(),
            r.1 == self.spec_have_nvme(),
    {
        let p = self.fs_type.eq(&String::from_str("pmem"));
        let n = self.fs_type.eq(&String::from_str("nvme"));
        let h = self.fs_type.eq(&String::from_str("hybrid"));
        (p || h, n || h)
    }
}

/// The test description the core reads: the checkpoint range selecting
/// the sampled portion of the workload.
pub struct TestConfig {
    pub trace_cmd_suffix: String,
    pub checkpoint_range: (u8, u8),
    pub dump_cmd_suffix: String,
}

/// What a single tracing operation is for.
#[derive(Debug)]
pub enum TraceType {
    /// Execute the test case, tracing writes, fences, flushes and
    /// checkpoints.
    Analyse,
    /// Trace the recovery run after success.
    PostSuccess,
    /// Boot a crash image and verify integrity.
    PostFailure { pmem_hash: Option<String>, nvme_hash: Option<String> },
}

/// The directory-name suffix of a tracing operation.
pub open spec fn spec_trace_prefix(t: &TraceType) -> Seq<char> {
    match t {
        TraceType::Analyse => "analyse"@,
        TraceType::PostSuccess => "post_success"@,
        TraceType::PostFailure { pmem_hash, nvme_hash } => "post"@ + (match pmem_hash {
            Some(h) => "_"@ + h@,
            None => Seq::<char>::empty(),
        }) + (match nvme_hash {
            Some(h) => "_"@ + h@,
            None => Seq::<char>::empty(),
        }),
    }
}

/// The directory layout of one tracing operation.
pub struct TraceConfig {
    pub trace_type: TraceType,
    dir: String,
}

impl TraceConfig {
    /// The directory every file of the operation lives under.
    pub closed spec fn spec_dir(&self) -> Seq<char> {
        self.dir@
    }

    /// What the operation is for.
    pub closed spec fn spec_trace_type(&self) -> TraceType {
        self.trace_type
    }

    /// Lay out a tracing operation under the work directory, in a
    /// subdirectory named for what the operation is for.
    pub fn new(work_dir: &String, trace_type: TraceType) -> (r: TraceConfig)
        ensures
            r.spec_trace_type() == trace_type,
            r.spec_dir() == work_dir@ + "/"@ + spec_trace_prefix(&trace_type),
    {
        let prefix: String = match &trace_type {
            TraceType::Analyse => String::from_str("analyse"),
            TraceType::PostSuccess => String::from_str("post_success"),
            TraceType::PostFailure { pmem_hash, nvme_hash } => {
                let mut s = String::from_str("post");
                match pmem_hash {
                    Some(h) => {
                        s.append("_");
                        s.append(h.as_str());
                    },
                    None => {},
                }
                match nvme_hash {
                    Some(h) => {
                        s.append("_");
                        s.append(h.as_str());
                    },
                    None => {},
                }
                s
            },
        };
        let dir = work_dir.clone().concat("/").concat(prefix.as_str());
        TraceConfig { trace_type, dir }
    }

    /// The operation's directory.
    pub fn trace_dir(&self) -> (r: String)
        ensures
            r@ == self.spec_dir(),
    {
        self.dir.clone()
    }

    /// The control pipe's path.
    pub fn pipe_path(&self) -> (r: String)
        ensures
            r@ == self.spec_dir() + "/pipe"@,
    {
        self.dir.clone().concat("/pipe")
    }

    /// The recorded trace's path.
    pub fn trace_path(&self) -> (r: String)
        ensures
            r@ == self.spec_dir() + "/trace.bin"@,
    {
        self.dir.clone().concat("/trace.bin")
    }

    /// The PM image's path.
    pub fn pmem_image_path(&self) -> (r: String)
        ensures
            r@ == self.spec_dir() + "/pmem.raw"@,
    {
        self.dir.clone().concat("/pmem.raw")
    }

    /// The NVMe image's path.
    pub fn nvme_image_path(&self) -> (r: String)
        ensures
            r@ == self.spec_dir() + "/nvme.raw"@,
    {
        self.dir.clone().concat("/nvme.raw")
    }

    /// The serial log's path.
    pub fn log_path(&self) -> (r: String)
        ensures
            r@ == self.spec_dir() + "/log"@,
    {
        self.dir.clone().concat("/log")
    }

    /// The I/O log's path.
    pub fn io_log_path(&self) -> (r: String)
        ensures
            r@ == self.spec_dir() + "/io_log"@,
    {
        self.dir.clone().concat("/io_log")
    }
}

} // verus!
