use lionfs::fs::compression::{CompressionAlgorithm, CompressionManager, Deflate, Lz4, Zstd};
use lionfs::fs::dedupe::DeduplicationManager;
use lionfs::security::acl::{AclManager, ACL_FLAG_APPEND_ONLY, ACL_FLAG_IMMUTABLE, ACL_FLAG_SECURE_DELETE};
use lionfs::security::encryption::{Aes256Gcm, ChaCha20Poly1305, EncryptionAlgorithm, EncryptionManager};
use lionfs::security::keys::KeyManager;

#[test]
fn test_compression_algorithms() {
    assert!(CompressionManager::get_algorithm(1).is_some());
    assert!(CompressionManager::get_algorithm(2).is_some());
    assert!(CompressionManager::get_algorithm(3).is_some());
    assert!(CompressionManager::get_algorithm(99).is_none());

    let data = b"Hello LionFS! This is a test of the compression system. Repeating data repeating data repeating data.";
    let (algo_id, compressed) = CompressionManager::adaptive_compress(data).unwrap();

    // Right now our mock doesn't actually compress, so it returns 0 (uncompressed flag)
    // because compressed.len() >= data.len()
    assert_eq!(algo_id, 0);
    assert_eq!(compressed, data);
}

#[test]
fn test_deduplication_hashing() {
    let data = b"Test block data";
    let hash1 = DeduplicationManager::hash_block(data);
    let hash2 = DeduplicationManager::hash_block(data);
    assert_eq!(hash1, hash2);

    let data2 = b"Different test block data";
    let hash3 = DeduplicationManager::hash_block(data2);
    assert_ne!(hash1, hash3);
}

#[test]
fn test_encryption_algorithms() {
    assert!(EncryptionManager::get_algorithm(1).is_some());
    assert!(EncryptionManager::get_algorithm(2).is_some());
    assert!(EncryptionManager::get_algorithm(99).is_none());

    let key = [0u8; 32];
    let iv = [0u8; 12];
    let data = b"Secret data";

    let algo = EncryptionManager::get_algorithm(1).unwrap();
    let encrypted = algo.encrypt(&key, data, &iv).unwrap();
    let decrypted = algo.decrypt(&key, &encrypted, &iv).unwrap();

    assert_eq!(data, decrypted.as_slice());
}

#[test]
fn test_acl_flags() {
    let flags = ACL_FLAG_IMMUTABLE | ACL_FLAG_SECURE_DELETE;
    assert!(AclManager::is_immutable(flags));
    assert!(!AclManager::is_append_only(flags));
    assert!(AclManager::requires_secure_delete(flags));
}

#[test]
fn algorithm_ids() {
    assert_eq!(Lz4.id(), 1);
    assert_eq!(Zstd.id(), 2);
    assert_eq!(Deflate.id(), 3);
    assert_eq!(Aes256Gcm.id(), 1);
    assert_eq!(ChaCha20Poly1305.id(), 2);
    assert_eq!(EncryptionManager::get_algorithm(2).unwrap().id(), 2);
}

#[test]
fn compression_round_trip() {
    let data = [5u8, 6, 7];
    let c = Zstd.compress(&data).unwrap();
    assert_eq!(Zstd.decompress(&c, 3).unwrap(), vec![5, 6, 7]);
    assert_eq!(CompressionManager::adaptive_compress(&[]).unwrap(), (0, vec![]));
}

#[test]
fn dedupe_hash_folds_by_xor() {
    let mut data = [0u8; 33];
    data[0] = 0x0F;
    data[32] = 0xF0;
    data[5] = 7;
    let h = DeduplicationManager::hash_block(&data);
    assert_eq!(h[0], 0xFF);
    assert_eq!(h[5], 7);
    assert_eq!(h[6], 0);
    assert_eq!(DeduplicationManager::hash_block(&[]), [0u8; 32]);
}

#[test]
fn acl_append_only_and_no_key() {
    assert!(AclManager::is_append_only(ACL_FLAG_APPEND_ONLY));
    assert!(!AclManager::is_immutable(0));
    assert_eq!(KeyManager::new().get_key(3), None);
}

#[test]
fn algorithms_report_the_id_they_were_asked_for() {
    for id in 1u8..=3 {
        assert_eq!(CompressionManager::get_algorithm(id).unwrap().id(), id);
    }
    for id in 1u8..=2 {
        assert_eq!(EncryptionManager::get_algorithm(id).unwrap().id(), id);
    }
}
