use permanent_cig::image::{hex_string, CrashHash, ImagePool};
use permanent_cig::CigError;

fn work_dir() -> String {
    String::from("wd")
}

#[test]
fn hex_of_known_bytes() {
    assert_eq!(hex_string(&[0x00u8, 0xff, 0x10, 0xab]), "00ff10ab");
    assert_eq!(hex_string(&[]), "");
}

#[test]
fn crash_hash_round_trip() {
    let bytes = [7u8; 32];
    let h = CrashHash::from_bytes(bytes);
    assert_eq!(h.as_bytes(), &bytes);
    assert_eq!(h.to_hex(), "07".repeat(32));
}

#[test]
fn pool_hash_matches_reference_blake3() {
    // the digest must agree with an independent BLAKE3 computation
    let mut pool = ImagePool::new(&work_dir());
    let data = vec![0u8; 64];
    let (fresh, hash) = pool.persist(&data).unwrap();
    assert!(fresh);
    assert_eq!(hash.to_hex(), blake3::hash(&data).to_hex().as_str());
}

#[test]
fn pool_dedups_repeated_image() {
    let mut pool = ImagePool::new(&work_dir());
    let data = vec![3u8; 100];
    let (fresh1, h1) = pool.persist(&data).unwrap();
    let (fresh2, h2) = pool.persist(&data).unwrap();
    assert!(fresh1);
    assert!(!fresh2);
    assert_eq!(h1.to_hex(), h2.to_hex());
}

#[test]
fn pool_counts_offered_bytes_once() {
    let mut pool = ImagePool::with_limit(&work_dir(), 64);
    let data = vec![9u8; 64];
    // the same image offered repeatedly never grows the byte total
    assert!(pool.persist(&data).is_ok());
    assert!(pool.persist(&data).is_ok());
    assert!(pool.persist(&data).is_ok());
}

#[test]
fn pool_limit_exceeded_is_fatal() {
    let mut pool = ImagePool::with_limit(&work_dir(), 64);
    let first = vec![1u8; 64];
    let second = vec![2u8; 64];
    assert!(pool.persist(&first).is_ok());
    assert!(matches!(pool.persist(&second), Err(CigError::PoolLimitExceeded)));
}

#[test]
fn pool_queues_fresh_images() {
    let mut pool = ImagePool::new(&work_dir());
    let a = vec![1u8; 8];
    let b = vec![2u8; 8];
    pool.persist(&a).unwrap();
    pool.persist(&b).unwrap();
    pool.persist(&a).unwrap();
    let queued = pool.take_fresh_images();
    assert_eq!(queued.len(), 2);
    assert_eq!(queued[0].1, a);
    assert_eq!(queued[1].1, b);
    assert_eq!(queued[0].0.to_hex(), blake3::hash(&a).to_hex().as_str());
    assert!(pool.take_fresh_images().is_empty());
}

#[test]
fn pool_remembers_directory() {
    let pool = ImagePool::new(&String::from("/tmp/run"));
    assert_eq!(pool.crash_dir(), "/tmp/run/crash_images");
}
