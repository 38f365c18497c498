use permanent_cig::config::{TraceConfig, TraceOption, TraceType, VmConfig};
use permanent_cig::rng::{rng_usize, rng_with_seed};

fn vm(fs_type: &str) -> VmConfig {
    VmConfig {
        fs_type: fs_type.to_string(),
        pmem_start: Some(0x1000_0000),
        pmem_len: Some(0x1000_0000),
        qemu_path: String::new(),
        kernel_path: String::new(),
        initrd_path: String::new(),
        qemu_args: Vec::new(),
        trace_cmd_prefix: String::new(),
        dump_cmd_prefix: String::new(),
        recovery_cmd: String::new(),
    }
}

#[test]
fn fs_type_selects_devices() {
    assert_eq!(vm("pmem").have_pmem_nvme(), (true, false));
    assert_eq!(vm("nvme").have_pmem_nvme(), (false, true));
    assert_eq!(vm("hybrid").have_pmem_nvme(), (true, true));
    assert!(!vm("ext4").check_fs_type());
    assert!(vm("pmem").check_fs_type());
}

#[test]
fn trace_option_spellings_round_trip() {
    let options = [
        TraceOption::PmemRead,
        TraceOption::PmemWrite,
        TraceOption::PmemFence,
        TraceOption::PmemFlush,
        TraceOption::NvmeRead,
        TraceOption::NvmeWrite,
        TraceOption::NvmeFlush,
        TraceOption::Checkpoint,
    ];
    for o in options {
        assert_eq!(TraceOption::from_qemu_str(o.to_qemu_str()), Ok(o));
    }
    assert_eq!(TraceOption::to_qemu_str(&TraceOption::PmemWrite), "pmem_write");
    assert_eq!(TraceOption::from_qemu_str("bogus"), Err(()));
}

#[test]
fn trace_config_lays_out_analyse_directory() {
    let tc = TraceConfig::new(&String::from("/work"), TraceType::Analyse);
    assert_eq!(tc.trace_dir(), "/work/analyse");
    assert_eq!(tc.pipe_path(), "/work/analyse/pipe");
    assert_eq!(tc.trace_path(), "/work/analyse/trace.bin");
    assert_eq!(tc.pmem_image_path(), "/work/analyse/pmem.raw");
    assert_eq!(tc.nvme_image_path(), "/work/analyse/nvme.raw");
    assert_eq!(tc.log_path(), "/work/analyse/log");
    assert_eq!(tc.io_log_path(), "/work/analyse/io_log");
}

#[test]
fn trace_config_names_post_failure_by_hashes() {
    let tc = TraceConfig::new(
        &String::from("/work"),
        TraceType::PostFailure {
            pmem_hash: Some(String::from("aa")),
            nvme_hash: Some(String::from("bb")),
        },
    );
    assert_eq!(tc.trace_dir(), "/work/post_aa_bb");
    let tc2 = TraceConfig::new(
        &String::from("/work"),
        TraceType::PostFailure { pmem_hash: None, nvme_hash: Some(String::from("cc")) },
    );
    assert_eq!(tc2.trace_dir(), "/work/post_cc");
    let tc3 = TraceConfig::new(&String::from("/work"), TraceType::PostSuccess);
    assert_eq!(tc3.trace_dir(), "/work/post_success");
}

#[test]
fn seeded_rng_draws_in_range() {
    let mut rng = rng_with_seed(99);
    for _ in 0..100 {
        let v = rng_usize(&mut rng, 3, 9);
        assert!((3..9).contains(&v));
    }
}

#[test]
fn seeded_rng_is_reproducible() {
    let mut a = rng_with_seed(1234);
    let mut b = rng_with_seed(1234);
    for _ in 0..20 {
        assert_eq!(rng_usize(&mut a, 0, 1000), rng_usize(&mut b, 0, 1000));
    }
}
