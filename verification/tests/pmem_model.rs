use permanent_cig::image::ImagePool;
use permanent_cig::pmem::X86PersistentMemory;
use permanent_cig::rng::rng_with_seed;

#[test]
fn write_within_eight_bytes_stays_whole() {
    let mut pm = X86PersistentMemory::new(vec![0u8; 64]);
    pm.write(0, &[0xaa, 0xbb, 0xcc, 0xdd], false);
    assert_eq!(pm.unpersisted_content.len(), 1);
    let writes = pm.unpersisted_content[0].1.all_writes();
    assert_eq!(writes.len(), 1);
    assert_eq!(writes[0].address, 0);
    assert_eq!(writes[0].data, vec![0xaa, 0xbb, 0xcc, 0xdd]);
}

#[test]
fn write_crossing_eight_byte_boundary_is_split() {
    let mut pm = X86PersistentMemory::new(vec![0u8; 64]);
    pm.write(6, &[0x01, 0x02, 0x03, 0x04], false);
    let writes = pm.unpersisted_content[0].1.all_writes();
    assert_eq!(writes.len(), 2);
    assert_eq!(writes[0].address, 6);
    assert_eq!(writes[0].data, vec![0x01, 0x02]);
    assert_eq!(writes[1].address, 8);
    assert_eq!(writes[1].data, vec![0x03, 0x04]);
}

#[test]
fn clwb_and_fence_make_store_durable() {
    let mut pm = X86PersistentMemory::new(vec![0u8; 64]);
    pm.write(3, &[0x7f], false);
    assert!(pm.pending_lines.is_empty());
    pm.clwb(3, None);
    assert_eq!(pm.pending_lines, vec![0]);
    pm.fence();
    assert!(pm.pending_lines.is_empty());
    assert!(pm.unpersisted_content.is_empty());
    let mut expected = vec![0u8; 64];
    expected[3] = 0x7f;
    assert_eq!(pm.persisted_content, expected);
}

#[test]
fn fence_without_clwb_keeps_store_buffered() {
    let mut pm = X86PersistentMemory::new(vec![0u8; 64]);
    pm.write(0, &[0x11], false);
    pm.fence();
    assert_eq!(pm.persisted_content, vec![0u8; 64]);
    assert_eq!(pm.unpersisted_content.len(), 1);
}

#[test]
fn partial_clwb_limit_flushes_prefix_only() {
    let mut pm = X86PersistentMemory::new(vec![0u8; 64]);
    pm.write(0, &[0x01], false);
    pm.write(0, &[0x02], false);
    pm.write(0, &[0x03], false);
    pm.clwb(0, Some(2));
    pm.fence();
    // the first two stores become durable, the third stays buffered
    let mut expected = vec![0u8; 64];
    expected[0] = 0x02;
    assert_eq!(pm.persisted_content, expected);
    assert_eq!(pm.unpersisted_content.len(), 1);
    assert_eq!(pm.unpersisted_content[0].1.all_writes().len(), 1);
    assert_eq!(pm.unpersisted_content[0].1.all_writes()[0].data, vec![0x03]);
}

#[test]
fn non_temporal_store_marks_line_pending() {
    let mut pm = X86PersistentMemory::new(vec![0u8; 64]);
    pm.write(8, &[0x42], true);
    assert_eq!(pm.pending_lines, vec![0]);
    pm.fence();
    let mut expected = vec![0u8; 64];
    expected[8] = 0x42;
    assert_eq!(pm.persisted_content, expected);
}

#[test]
fn persist_unpersisted_drains_everything() {
    let mut pm = X86PersistentMemory::new(vec![0u8; 192]);
    pm.write(0, &[0x01], false);
    pm.write(64, &[0x02, 0x03], false);
    pm.write(130, &[0x04], false);
    pm.clwb(0, None);
    pm.persist_unpersisted();
    assert!(pm.unpersisted_content.is_empty());
    assert!(pm.pending_lines.is_empty());
    let mut expected = vec![0u8; 192];
    expected[0] = 0x01;
    expected[64] = 0x02;
    expected[65] = 0x03;
    expected[130] = 0x04;
    assert_eq!(pm.persisted_content, expected);
}

#[test]
fn write_clwb_fence_twice_gives_same_image() {
    let mut pm = X86PersistentMemory::new(vec![0u8; 64]);
    pm.write(0, &[0xaa], false);
    pm.clwb(0, None);
    pm.fence();
    let once = pm.persisted_content.clone();
    pm.write(0, &[0xaa], false);
    pm.clwb(0, None);
    pm.fence();
    assert_eq!(pm.persisted_content, once);
}

#[test]
fn pm_nothing_and_everything_images() {
    let mut pm = X86PersistentMemory::new(vec![0u8; 64]);
    pm.write(1, &[0x55], false);
    let mut pool = ImagePool::new(&String::from("wd"));
    let nothing = pm.generate_nothing_persisted_image(&mut pool).unwrap();
    let everything = pm.generate_everything_persisted_image(&mut pool).unwrap();
    let base = vec![0u8; 64];
    let mut all = vec![0u8; 64];
    all[1] = 0x55;
    assert_eq!(nothing.to_hex(), blake3::hash(&base).to_hex().as_str());
    assert_eq!(everything.to_hex(), blake3::hash(&all).to_hex().as_str());
}

#[test]
fn pm_random_images_are_valid_partial_images() {
    let mut pm = X86PersistentMemory::new(vec![0u8; 128]);
    pm.write(0, &[0x01], false);
    pm.write(2, &[0x02], false);
    pm.write(64, &[0x03], false);
    let mut pool = ImagePool::new(&String::from("wd"));
    let mut rng = rng_with_seed(7);
    let hashes = pm.generate_random_images(&mut pool, &mut rng).unwrap();
    assert!(hashes.len() >= 1);
    // every digest must be one of the byte images reachable by applying
    // per-line prefixes cumulatively
    let base = vec![0u8; 128];
    let mut candidates: Vec<String> = Vec::new();
    // line 0 prefixes: [0x01 at 0], then [0x01 at 0, 0x02 at 2]; line 1: [0x03 at 64]
    let mut img_a = base.clone();
    img_a[0] = 0x01;
    let mut img_b = img_a.clone();
    img_b[2] = 0x02;
    let mut img_c = base.clone();
    img_c[64] = 0x03;
    let mut img_ac = img_a.clone();
    img_ac[64] = 0x03;
    let mut img_bc = img_b.clone();
    img_bc[64] = 0x03;
    let mut img_ca = img_c.clone();
    img_ca[0] = 0x01;
    let mut img_cb = img_ca.clone();
    img_cb[2] = 0x02;
    for img in [img_a, img_b, img_c, img_ac, img_bc, img_ca, img_cb] {
        candidates.push(blake3::hash(&img).to_hex().as_str().to_string());
    }
    for h in hashes.as_slice() {
        assert!(candidates.contains(&h.to_hex()));
    }
}
