use permanent_cig::config::{TestConfig, VmConfig};
use permanent_cig::driver::CrashImageGenerator;
use permanent_cig::trace::{NvmeEvent, PmemEvent, TraceEntry};
use permanent_cig::CigError;

fn vm_config(fs_type: &str) -> VmConfig {
    VmConfig {
        fs_type: fs_type.to_string(),
        pmem_start: None,
        pmem_len: None,
        qemu_path: String::new(),
        kernel_path: String::new(),
        initrd_path: String::new(),
        qemu_args: Vec::new(),
        trace_cmd_prefix: String::new(),
        dump_cmd_prefix: String::new(),
        recovery_cmd: String::new(),
    }
}

fn test_config(lo: u8, hi: u8) -> TestConfig {
    TestConfig {
        trace_cmd_suffix: String::new(),
        checkpoint_range: (lo, hi),
        dump_cmd_suffix: String::new(),
    }
}

fn pmem_gen(lo: u8, hi: u8, base: Vec<u8>) -> CrashImageGenerator {
    let mut gen = CrashImageGenerator::new(
        &String::from("wd"),
        &vm_config("pmem"),
        &test_config(lo, hi),
        base,
        Vec::new(),
    );
    gen.set_rng_seed(42);
    gen
}

fn checkpoint(id: u64, value: u8) -> TraceEntry {
    TraceEntry::Checkpoint { id, value }
}

fn digests_at(gen: &CrashImageGenerator, id: u64) -> Vec<String> {
    let g = gen.pmem_generated().unwrap();
    let entry = g.iter().find(|p| p.0 == id).expect("no record at this id");
    let mut v: Vec<String> = entry.1.as_slice().iter().map(|h| h.to_hex()).collect();
    v.sort();
    v
}

#[test]
fn duplicate_checkpoint_value_is_fatal() {
    let mut gen = pmem_gen(1, 1, vec![0u8; 64]);
    assert!(gen.handle_entry(checkpoint(0, 255)).is_ok());
    assert!(gen.handle_entry(checkpoint(1, 0)).is_ok());
    assert!(gen.handle_entry(checkpoint(2, 1)).is_ok());
    assert!(matches!(
        gen.handle_entry(checkpoint(3, 1)),
        Err(CigError::DuplicateCheckpoint)
    ));
}

#[test]
fn non_contiguous_checkpoint_is_fatal() {
    let mut gen = pmem_gen(1, 3, vec![0u8; 64]);
    assert!(gen.handle_entry(checkpoint(0, 255)).is_ok());
    assert!(gen.handle_entry(checkpoint(1, 0)).is_ok());
    assert!(matches!(
        gen.handle_entry(checkpoint(2, 2)),
        Err(CigError::NonContiguousCheckpoint)
    ));
}

#[test]
fn device_event_before_init_is_fatal() {
    let mut gen = pmem_gen(1, 1, vec![0u8; 64]);
    let write = TraceEntry::Pmem {
        id: 0,
        event: PmemEvent::Write {
            address: 0,
            size: 1,
            content: vec![0x01],
            non_temporal: false,
        },
    };
    assert!(matches!(
        gen.handle_entry(write),
        Err(CigError::EventBeforeInit)
    ));
}

#[test]
fn wbinvd_before_init_is_ignored_and_after_init_fatal() {
    let mut gen = pmem_gen(1, 1, vec![0u8; 64]);
    let wbinvd = TraceEntry::Pmem { id: 0, event: PmemEvent::Wbinvd };
    assert!(gen.handle_entry(wbinvd).is_ok());
    assert!(gen.handle_entry(checkpoint(1, 255)).is_ok());
    let wbinvd2 = TraceEntry::Pmem { id: 2, event: PmemEvent::Wbinvd };
    assert!(matches!(
        gen.handle_entry(wbinvd2),
        Err(CigError::WbinvdAfterInit)
    ));
}

#[test]
fn store_of_sixteen_bytes_is_rejected() {
    let mut gen = pmem_gen(1, 1, vec![0u8; 64]);
    assert!(gen.handle_entry(checkpoint(0, 255)).is_ok());
    let write = TraceEntry::Pmem {
        id: 1,
        event: PmemEvent::Write {
            address: 0,
            size: 16,
            content: vec![0u8; 16],
            non_temporal: false,
        },
    };
    assert!(matches!(
        gen.handle_entry(write),
        Err(CigError::UnsupportedStoreSize)
    ));
}

#[test]
fn unaligned_nvme_access_is_rejected() {
    let mut gen = CrashImageGenerator::new(
        &String::from("wd"),
        &vm_config("nvme"),
        &test_config(1, 1),
        Vec::new(),
        vec![0u8; 1024],
    );
    assert!(gen.handle_entry(checkpoint(0, 255)).is_ok());
    let unaligned = TraceEntry::Nvme {
        id: 1,
        event: NvmeEvent::Write { offset: 100, length: 512, data: vec![0u8; 512] },
    };
    assert!(matches!(
        gen.handle_entry(unaligned),
        Err(CigError::UnalignedNvmeAccess)
    ));
    let short = TraceEntry::Nvme {
        id: 2,
        event: NvmeEvent::Write { offset: 0, length: 100, data: vec![0u8; 100] },
    };
    assert!(matches!(
        gen.handle_entry(short),
        Err(CigError::UnalignedNvmeAccess)
    ));
}

#[test]
fn missing_final_checkpoint_is_fatal() {
    let mut gen = pmem_gen(1, 3, vec![0u8; 64]);
    assert!(gen.handle_entry(checkpoint(0, 255)).is_ok());
    assert!(gen.handle_entry(checkpoint(1, 0)).is_ok());
    assert!(gen.handle_entry(checkpoint(2, 1)).is_ok());
    assert!(matches!(
        gen.finish(),
        Err(CigError::MissingFinalCheckpoint)
    ));
}

#[test]
fn clean_pm_run_produces_expected_index() {
    let mut gen = pmem_gen(1, 2, vec![0u8; 64]);
    assert!(gen.handle_entry(checkpoint(0, 255)).is_ok());
    assert!(gen.handle_entry(checkpoint(1, 0)).is_ok());
    assert!(gen.handle_entry(checkpoint(2, 1)).is_ok());
    let write = TraceEntry::Pmem {
        id: 3,
        event: PmemEvent::Write {
            address: 0,
            size: 1,
            content: vec![0x01],
            non_temporal: false,
        },
    };
    assert!(gen.handle_entry(write).is_ok());
    let clwb = TraceEntry::Pmem { id: 4, event: PmemEvent::Clwb { address: 0 } };
    assert!(gen.handle_entry(clwb).is_ok());
    let fence = TraceEntry::Pmem { id: 5, event: PmemEvent::Fence };
    assert!(gen.handle_entry(fence).is_ok());
    assert!(gen.handle_entry(checkpoint(6, 2)).is_ok());
    assert!(gen.finish().is_ok());

    let base = vec![0u8; 64];
    let mut written = vec![0u8; 64];
    written[0] = 0x01;
    let h0 = blake3::hash(&base).to_hex().as_str().to_string();
    let h1 = blake3::hash(&written).to_hex().as_str().to_string();

    // the fence at position 5 samples: nothing persisted, everything
    // persisted, and the single partial image which coincides with the
    // everything image
    let mut expected5 = vec![h0.clone(), h1.clone()];
    expected5.sort();
    assert_eq!(digests_at(&gen, 5), expected5);

    // the final checkpoint samples the now-quiescent device: only the
    // written image remains reachable
    assert_eq!(digests_at(&gen, 6), vec![h1.clone()]);

    assert_eq!(gen.checkpoint_ids(), &vec![1, 2, 6]);

    // the pool queued exactly the two distinct images
    let queued = gen.take_fresh_images();
    assert_eq!(queued.len(), 2);
    assert_eq!(queued[0].1, base);
    assert_eq!(queued[1].1, written);
}

#[test]
fn reuse_between_quiet_sampling_points() {
    let mut gen = pmem_gen(0, 3, vec![0u8; 64]);
    assert!(gen.handle_entry(checkpoint(0, 255)).is_ok());
    assert!(gen.handle_entry(checkpoint(1, 0)).is_ok());
    let write = TraceEntry::Pmem {
        id: 2,
        event: PmemEvent::Write {
            address: 8,
            size: 1,
            content: vec![0x09],
            non_temporal: false,
        },
    };
    assert!(gen.handle_entry(write).is_ok());
    // two consecutive checkpoints with no intervening device event:
    // the second reuses the first family unchanged
    assert!(gen.handle_entry(checkpoint(3, 1)).is_ok());
    assert!(gen.handle_entry(checkpoint(4, 2)).is_ok());
    assert_eq!(digests_at(&gen, 3), digests_at(&gen, 4));
}

#[test]
fn nvme_flush_samples_reachable_images() {
    let mut gen = CrashImageGenerator::new(
        &String::from("wd"),
        &vm_config("nvme"),
        &test_config(1, 2),
        Vec::new(),
        vec![0u8; 1024],
    );
    gen.set_rng_seed(5);
    assert!(gen.handle_entry(checkpoint(0, 255)).is_ok());
    assert!(gen.handle_entry(checkpoint(1, 0)).is_ok());
    assert!(gen.handle_entry(checkpoint(2, 1)).is_ok());
    let w1 = TraceEntry::Nvme {
        id: 3,
        event: NvmeEvent::Write { offset: 0, length: 512, data: vec![0xffu8; 512] },
    };
    let w2 = TraceEntry::Nvme {
        id: 4,
        event: NvmeEvent::Write { offset: 512, length: 512, data: vec![0x77u8; 512] },
    };
    assert!(gen.handle_entry(w1).is_ok());
    assert!(gen.handle_entry(w2).is_ok());
    let flush = TraceEntry::Nvme { id: 5, event: NvmeEvent::Flush };
    assert!(gen.handle_entry(flush).is_ok());
    assert!(gen.handle_entry(checkpoint(6, 2)).is_ok());
    assert!(gen.finish().is_ok());

    let g = gen.nvme_generated().unwrap();
    let at5 = g.iter().find(|p| p.0 == 5).expect("no family at the flush");
    let digests: Vec<String> = at5.1.as_slice().iter().map(|h| h.to_hex()).collect();
    assert!(digests.len() <= 27);

    let base = vec![0u8; 1024];
    let mut b0 = vec![0xffu8; 512];
    b0.extend(vec![0u8; 512]);
    let mut b1 = vec![0u8; 512];
    b1.extend(vec![0x77u8; 512]);
    let mut both = vec![0xffu8; 512];
    both.extend(vec![0x77u8; 512]);
    let candidates: Vec<String> = [&base, &b0, &b1, &both]
        .iter()
        .map(|img| blake3::hash(img).to_hex().as_str().to_string())
        .collect();
    // nothing and everything persisted must be present; every member is
    // a reachable state
    assert!(digests.contains(&candidates[0]));
    assert!(digests.contains(&candidates[3]));
    for d in &digests {
        assert!(candidates.contains(d));
    }
}

#[test]
fn event_for_absent_device_is_fatal() {
    // a PM-only configuration receives an NVMe event
    let mut gen = pmem_gen(1, 1, vec![0u8; 64]);
    assert!(gen.handle_entry(checkpoint(0, 255)).is_ok());
    let flush = TraceEntry::Nvme { id: 1, event: NvmeEvent::Flush };
    assert!(matches!(gen.handle_entry(flush), Err(CigError::DeviceAbsent)));
}

#[test]
fn store_past_device_end_is_fatal() {
    let mut gen = pmem_gen(1, 1, vec![0u8; 64]);
    assert!(gen.handle_entry(checkpoint(0, 255)).is_ok());
    let write = TraceEntry::Pmem {
        id: 1,
        event: PmemEvent::Write {
            address: 63,
            size: 2,
            content: vec![0x01, 0x02],
            non_temporal: false,
        },
    };
    assert!(matches!(
        gen.handle_entry(write),
        Err(CigError::OutOfBoundsAccess)
    ));
}

#[test]
fn read_events_are_ignored() {
    let mut gen = pmem_gen(1, 1, vec![0u8; 64]);
    // reads are legal even before the init sentinel
    let read = TraceEntry::Pmem {
        id: 0,
        event: PmemEvent::Read { address: 0, size: 8, content: vec![0u8; 8] },
    };
    assert!(gen.handle_entry(read).is_ok());
}

#[test]
fn remove_data_strips_nvme_write_payload() {
    let mut entry = TraceEntry::Nvme {
        id: 9,
        event: NvmeEvent::Write { offset: 512, length: 512, data: vec![1u8; 512] },
    };
    permanent_cig::trace::remove_data(&mut entry);
    match entry {
        TraceEntry::Nvme { id, event: NvmeEvent::Write { offset, length, data } } => {
            assert_eq!(id, 9);
            assert_eq!(offset, 512);
            assert_eq!(length, 512);
            assert!(data.is_empty());
        }
        _ => panic!("entry changed shape"),
    }
    let mut other = TraceEntry::Checkpoint { id: 1, value: 3 };
    permanent_cig::trace::remove_data(&mut other);
    assert!(matches!(other, TraceEntry::Checkpoint { id: 1, value: 3 }));
}

#[test]
fn fence_after_final_checkpoint_value_still_samples() {
    // the sampling range is inclusive on both ends: a fence whose most
    // recent checkpoint value equals the upper bound is sampled
    let mut gen = pmem_gen(0, 0, vec![0u8; 64]);
    assert!(gen.handle_entry(checkpoint(0, 255)).is_ok());
    assert!(gen.handle_entry(checkpoint(1, 0)).is_ok());
    let write = TraceEntry::Pmem {
        id: 2,
        event: PmemEvent::Write {
            address: 0,
            size: 1,
            content: vec![0x2a],
            non_temporal: false,
        },
    };
    assert!(gen.handle_entry(write).is_ok());
    let clwb = TraceEntry::Pmem { id: 3, event: PmemEvent::Clwb { address: 0 } };
    assert!(gen.handle_entry(clwb).is_ok());
    let fence = TraceEntry::Pmem { id: 4, event: PmemEvent::Fence };
    assert!(gen.handle_entry(fence).is_ok());
    let g = gen.pmem_generated().unwrap();
    assert!(g.iter().any(|p| p.0 == 4));
}

#[test]
fn hybrid_run_keeps_both_indices() {
    let mut gen = CrashImageGenerator::new(
        &String::from("wd"),
        &vm_config("hybrid"),
        &test_config(0, 1),
        vec![0u8; 64],
        vec![0u8; 512],
    );
    gen.set_rng_seed(1);
    assert!(gen.handle_entry(checkpoint(0, 255)).is_ok());
    assert!(gen.handle_entry(checkpoint(1, 0)).is_ok());
    assert!(gen.handle_entry(checkpoint(2, 1)).is_ok());
    assert!(gen.finish().is_ok());
    assert!(gen.pmem_generated().is_some());
    assert!(gen.nvme_generated().is_some());
    assert_eq!(gen.pmem_generated().unwrap().len(), 2);
    assert_eq!(gen.nvme_generated().unwrap().len(), 2);
}
