use permanent_cig::image::ImagePool;
use permanent_cig::nvme::NvmeDevice;
use permanent_cig::rng::rng_with_seed;

#[test]
fn nvme_write_splits_into_blocks() {
    let mut dev = NvmeDevice::new(vec![0u8; 2048]);
    dev.write(512, vec![0x5au8; 1024]);
    assert_eq!(dev.unpersisted_content.len(), 2);
    assert_eq!(dev.unpersisted_content[0].address, 512);
    assert_eq!(dev.unpersisted_content[0].data.len(), 512);
    assert_eq!(dev.unpersisted_content[1].address, 1024);
}

#[test]
fn nvme_flush_applies_all_buffered_stores() {
    let mut dev = NvmeDevice::new(vec![0u8; 1024]);
    dev.write(0, vec![0x11u8; 512]);
    dev.write(0, vec![0x22u8; 512]);
    dev.write(512, vec![0x33u8; 512]);
    dev.flush();
    assert!(dev.unpersisted_content.is_empty());
    // the last writer of block 0 wins
    let mut expected = vec![0x22u8; 512];
    expected.extend(vec![0x33u8; 512]);
    assert_eq!(dev.persisted_content, expected);
}

#[test]
fn nvme_nothing_and_everything_images() {
    let mut dev = NvmeDevice::new(vec![0u8; 1024]);
    dev.write(0, vec![0xffu8; 512]);
    let mut pool = ImagePool::new(&String::from("wd"));
    let nothing = dev.generate_nothing_persisted_image(&mut pool).unwrap();
    let everything = dev.generate_everything_persisted_image(&mut pool).unwrap();
    let base = vec![0u8; 1024];
    let mut all = vec![0xffu8; 512];
    all.extend(vec![0u8; 512]);
    assert_eq!(nothing.to_hex(), blake3::hash(&base).to_hex().as_str());
    assert_eq!(everything.to_hex(), blake3::hash(&all).to_hex().as_str());
}

#[test]
fn nvme_random_images_are_reachable_states() {
    let mut dev = NvmeDevice::new(vec![0u8; 1024]);
    dev.write(0, vec![0xffu8; 512]);
    dev.write(512, vec![0x77u8; 512]);
    let mut pool = ImagePool::new(&String::from("wd"));
    let mut rng = rng_with_seed(11);
    let hashes = dev.generate_random_images(&mut pool, &mut rng).unwrap();
    assert!(hashes.len() >= 1);
    assert!(hashes.len() <= 25);
    // the reachable images: base, block 0 only, block 1 only, both
    let base = vec![0u8; 1024];
    let mut b0 = vec![0xffu8; 512];
    b0.extend(vec![0u8; 512]);
    let mut b1 = vec![0u8; 512];
    b1.extend(vec![0x77u8; 512]);
    let mut both = vec![0xffu8; 512];
    both.extend(vec![0x77u8; 512]);
    let candidates: Vec<String> = [base, b0, b1, both]
        .iter()
        .map(|img| blake3::hash(img).to_hex().as_str().to_string())
        .collect();
    for h in hashes.as_slice() {
        assert!(candidates.contains(&h.to_hex()));
    }
}
