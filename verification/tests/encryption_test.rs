use oifs::disk::{CompressionMode, DiskManager, DiskManagerError};

const SIZE: u64 = 10 * 1024 * 1024;

#[test]
fn test_create_encrypted_filesystem() {
    let password = "test_password_123";
    let dm = DiskManager::create_encrypted(SIZE, password).unwrap();

    // Verify superblock has encryption enabled
    let sb = dm.superblock();
    assert!(sb.encrypted, "Superblock should have encrypted flag set");
    assert_ne!(sb.encryption_salt, [0u8; 16], "Salt should be non-zero");
    assert_eq!(sb.encryption_version, 1, "Encryption version should be 1");
}

#[test]
fn test_encrypted_write_read_roundtrip() {
    let password = "secure_password";
    let mut dm = DiskManager::create_encrypted(SIZE, password).unwrap();

    let root_inode = dm.superblock().root_inode;
    let file_inode = dm.create_file(root_inode, "secret.txt").unwrap();

    let plaintext = b"This is secret data that should be encrypted!";
    dm.write_data(file_inode, 0, plaintext, CompressionMode::Never).unwrap();

    let decrypted = dm.read_data(file_inode).unwrap();
    assert_eq!(decrypted, plaintext, "Decrypted data should match original");

    let inode = dm.read_inode(file_inode).unwrap();
    assert!(inode.encrypted, "Inode should be marked as encrypted");
    assert_ne!(inode.encryption_nonce, [0u8; 24], "Nonce should be non-zero");
}

#[test]
fn test_wrong_password_fails() {
    let correct_password = "correct_password";
    let wrong_password = "wrong_password";

    let image = {
        let mut dm = DiskManager::create_encrypted(SIZE, correct_password).unwrap();
        let root_inode = dm.superblock().root_inode;
        let file_inode = dm.create_file(root_inode, "file.txt").unwrap();
        dm.write_data(file_inode, 0, b"secret", CompressionMode::Never).unwrap();
        dm.image().clone()
    };

    // Opening with the wrong password succeeds
    let dm = DiskManager::from_image(image, Some(wrong_password)).unwrap();

    // But reading fails with a decryption error
    let root_inode = dm.superblock().root_inode;
    let file_inode = dm.lookup(root_inode, "file.txt").unwrap();
    let read_result = dm.read_data(file_inode);
    assert!(read_result.is_err(), "Reading with wrong password should fail");
    match read_result {
        Err(DiskManagerError::DecryptionFailed) => {}
        _ => panic!("Expected DecryptionFailed error, got: {:?}", read_result),
    }
}

#[test]
fn test_encryption_with_compression() {
    let password = "compress_and_encrypt";
    let mut dm = DiskManager::create_encrypted(SIZE, password).unwrap();
    let root_inode = dm.superblock().root_inode;
    let file_inode = dm.create_file(root_inode, "compressible.txt").unwrap();

    let plaintext = vec![b'A'; 10 * 1024];
    dm.write_data(file_inode, 0, &plaintext, CompressionMode::Always).unwrap();

    let inode = dm.read_inode(file_inode).unwrap();
    assert!(inode.encrypted, "File should be encrypted");
    assert!(inode.compressed_size > 0, "File should be compressed");
    assert_eq!(inode.size, plaintext.len() as u64, "Logical size should match original");

    let decrypted = dm.read_data(file_inode).unwrap();
    assert_eq!(decrypted, plaintext, "Decrypted+decompressed data should match original");
}

#[test]
fn test_multiple_files_unique_nonces() {
    let password = "multi_file_test";
    let mut dm = DiskManager::create_encrypted(SIZE, password).unwrap();
    let root_inode = dm.superblock().root_inode;

    let mut nonces = Vec::new();
    for i in 0..5 {
        let filename = format!("file{}.txt", i);
        let file_inode = dm.create_file(root_inode, &filename).unwrap();
        dm.write_data(file_inode, 0, b"data", CompressionMode::Never).unwrap();
        let inode = dm.read_inode(file_inode).unwrap();
        nonces.push(inode.encryption_nonce);
    }

    for i in 0..nonces.len() {
        for j in (i + 1)..nonces.len() {
            assert_ne!(nonces[i], nonces[j], "Nonces should be unique for different files");
        }
    }
}

#[test]
fn test_cannot_open_encrypted_without_password() {
    let password = "required_password";
    let image = DiskManager::create_encrypted(SIZE, password).unwrap().image().clone();

    let result = DiskManager::from_image(image, None);
    assert!(result.is_err(), "Opening encrypted filesystem without password should fail");
    match result {
        Err(DiskManagerError::PasswordRequired) => {}
        _ => panic!("Expected PasswordRequired error"),
    }
}

#[test]
fn test_data_is_actually_encrypted_on_disk() {
    let password = "encryption_test";
    let plaintext = b"VERY_DISTINCTIVE_SECRET_TEXT_THAT_SHOULD_NOT_APPEAR_IN_RAW_DISK";

    let raw_disk = {
        let mut dm = DiskManager::create_encrypted(SIZE, password).unwrap();
        let root_inode = dm.superblock().root_inode;
        let file_inode = dm.create_file(root_inode, "secret.txt").unwrap();
        dm.write_data(file_inode, 0, plaintext, CompressionMode::Never).unwrap();
        dm.image().clone()
    };

    let plaintext_str = String::from_utf8_lossy(plaintext);
    let raw_disk_str = String::from_utf8_lossy(&raw_disk);
    assert!(
        !raw_disk_str.contains(plaintext_str.as_ref()),
        "Plaintext should not be visible in raw disk image - data is not encrypted!"
    );

    let dm = DiskManager::from_image(raw_disk, Some(password)).unwrap();
    let root_inode = dm.superblock().root_inode;
    let file_inode = dm.lookup(root_inode, "secret.txt").unwrap();
    let decrypted = dm.read_data(file_inode).unwrap();
    assert_eq!(decrypted, plaintext, "Should be able to decrypt with correct password");
}

#[test]
fn test_unencrypted_filesystem_still_works() {
    let mut dm = DiskManager::format(SIZE).unwrap();

    let sb = dm.superblock();
    assert!(!sb.encrypted, "Superblock should not have encrypted flag");

    let root_inode = sb.root_inode;
    let file_inode = dm.create_file(root_inode, "normal.txt").unwrap();
    let data = b"Normal unencrypted data";
    dm.write_data(file_inode, 0, data, CompressionMode::Never).unwrap();

    let read_data = dm.read_data(file_inode).unwrap();
    assert_eq!(read_data, data);

    let inode = dm.read_inode(file_inode).unwrap();
    assert!(!inode.encrypted, "Inode should not be encrypted");
}

#[test]
fn encrypted_files_are_written_whole() {
    let mut dm = DiskManager::create_encrypted(SIZE, "pw").unwrap();
    let f = dm.create_file(0, "f").unwrap();
    assert_eq!(
        dm.write_data(f, 5, b"x", CompressionMode::Never),
        Err(DiskManagerError::Io(oifs::disk::FsFault::EncryptedAppend))
    );
}

#[test]
fn encrypted_salt_is_used_for_the_key() {
    let salt = [5u8; 16];
    let dm = DiskManager::create_encrypted_with_salt(SIZE, "pw", salt).unwrap();
    assert_eq!(dm.superblock().encryption_salt, salt);
    let again = DiskManager::from_image(dm.image().clone(), Some("pw")).unwrap();
    assert_eq!(again.superblock().encryption_salt, salt);
}
