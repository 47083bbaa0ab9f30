use bucket_storage::errors::AppError;
use bucket_storage::files::{
    content_type, save_multipart, split_file_name, upload_with_key, MultipartFile, Storage,
    StoreFile,
};

const BUCKET_A: u128 = 10;
const BUCKET_B: u128 = 20;

fn upload_one(storage: &mut Storage, bucket: u128, name: &str, bytes: &[u8]) -> u128 {
    let parts = vec![MultipartFile {
        file_name: Some(name.to_string()),
        bytes: bytes.to_vec(),
    }];
    let ids = save_multipart(storage, parts, bucket);
    assert_eq!(ids.len(), 1);
    ids[0]
}

#[test]
fn identical_bytes_deduplicate() {
    let mut storage = Storage::new();
    let f1 = upload_one(&mut storage, BUCKET_A, "greeting.txt", b"hello");
    let f2 = upload_one(&mut storage, BUCKET_B, "hi.txt", b"hello");
    assert_eq!(f1, f2);
    assert_eq!(storage.files.len(), 1);
    assert_eq!(storage.disk.len(), 1);
    assert_eq!(storage.bucket_files.len(), 2);
}

#[test]
fn distinct_bytes_get_distinct_blobs() {
    let mut storage = Storage::new();
    let f1 = upload_one(&mut storage, BUCKET_A, "a.txt", b"first content");
    let f2 = upload_one(&mut storage, BUCKET_A, "b.txt", b"second content");
    assert_ne!(f1, f2);
    assert_eq!(storage.files.len(), 2);
    assert_eq!(storage.disk.len(), 2);
}

#[test]
fn shared_blob_survives_first_unbind() {
    let mut storage = Storage::new();
    let f1 = upload_one(&mut storage, BUCKET_A, "greeting.txt", b"hello");
    let f2 = upload_one(&mut storage, BUCKET_B, "hi.txt", b"hello");
    assert_eq!(f1, f2);

    storage.delete(BUCKET_A, f1).unwrap();
    let still_there = storage.download(BUCKET_B, f2).unwrap();
    assert_eq!(still_there.bytes, b"hello".to_vec());
    assert_eq!(storage.disk.len(), 1);

    storage.delete(BUCKET_B, f2).unwrap();
    let gone_a = storage.download(BUCKET_A, f1).unwrap_err();
    let gone_b = storage.download(BUCKET_B, f2).unwrap_err();
    assert_eq!(gone_a, AppError::BindingNotFound);
    assert_eq!(gone_b, AppError::BindingNotFound);
    assert_eq!(gone_b.status(), 204);
    assert_eq!(storage.files.len(), 0);
    assert_eq!(storage.disk.len(), 0);
}

#[test]
fn delete_without_binding_is_a_client_error() {
    let mut storage = Storage::new();
    let f1 = upload_one(&mut storage, BUCKET_A, "a.txt", b"data");
    let err = storage.delete(BUCKET_B, f1).unwrap_err();
    assert_eq!(err, AppError::DeleteBindingNotFound);
    assert!(err.expected());
    assert_eq!(err.status(), 400);
    // the blob itself is untouched
    assert!(storage.download(BUCKET_A, f1).is_ok());
}

#[test]
fn download_without_binding_is_no_content() {
    let mut storage = Storage::new();
    let f1 = upload_one(&mut storage, BUCKET_A, "a.txt", b"data");
    let err = storage.download(BUCKET_B, f1).unwrap_err();
    assert_eq!(err, AppError::BindingNotFound);
    assert_eq!(err.status(), 204);
}

#[test]
fn download_returns_bytes_and_extension() {
    let mut storage = Storage::new();
    let f1 = upload_one(&mut storage, BUCKET_A, "picture.png", b"not really a png");
    let d = storage.download(BUCKET_A, f1).unwrap();
    assert_eq!(d.bytes, b"not really a png".to_vec());
    assert_eq!(d.extension, Some("png".to_string()));
    assert_eq!(content_type(&d.extension), Some("image/png"));
}

#[test]
fn multipart_skips_unnamed_parts() {
    let mut storage = Storage::new();
    let parts = vec![
        MultipartFile { file_name: None, bytes: b"ignored".to_vec() },
        MultipartFile { file_name: Some("kept.bin".to_string()), bytes: b"kept".to_vec() },
    ];
    let ids = save_multipart(&mut storage, parts, BUCKET_A);
    assert_eq!(ids.len(), 1);
    assert_eq!(storage.files.len(), 1);
}

#[test]
fn upload_token_round_trip() {
    let mut storage = Storage::new();
    let token = storage.upload_url(BUCKET_A);
    let parts = vec![MultipartFile {
        file_name: Some("via_token.txt".to_string()),
        bytes: b"capability".to_vec(),
    }];
    let ids = upload_with_key(&mut storage, token, parts).unwrap();
    assert_eq!(ids.len(), 1);
    assert!(storage.download(BUCKET_A, ids[0]).is_ok());
    // the token is not consumed by use
    assert_eq!(storage.redeem(token), Some(BUCKET_A));
}

#[test]
fn unknown_upload_token_is_rejected() {
    let mut storage = Storage::new();
    let parts = vec![MultipartFile {
        file_name: Some("x.txt".to_string()),
        bytes: b"x".to_vec(),
    }];
    let err = upload_with_key(&mut storage, 999, parts).unwrap_err();
    assert_eq!(err, AppError::InvalidToken);
    assert!(err.expected());
    assert_eq!(storage.files.len(), 0);
}

#[test]
fn file_names_split_at_the_last_dot() {
    assert_eq!(split_file_name("photo.png"), ("photo".to_string(), Some("png".to_string())));
    assert_eq!(
        split_file_name("archive.tar.gz"),
        ("archive.tar".to_string(), Some("gz".to_string()))
    );
    assert_eq!(split_file_name("noext"), ("noext".to_string(), None));
}

#[test]
fn content_types_cover_the_two_image_kinds() {
    assert_eq!(content_type(&Some("png".to_string())), Some("image/png"));
    assert_eq!(content_type(&Some("jpg".to_string())), Some("image/jpg"));
    assert_eq!(content_type(&Some("gif".to_string())), None);
    assert_eq!(content_type(&None), None);
}

#[test]
fn blob_paths_are_deterministic() {
    let file = StoreFile::new(0x1a, Some("png".to_string()));
    assert_eq!(file.path(), "0000000000000000000000000000001a.png");
    let bare = StoreFile::new(0, None);
    assert_eq!(bare.path(), "00000000000000000000000000000000");
    let store = bucket_storage::files::Store::new();
    assert_eq!(store.path(file.path()), "./store/0000000000000000000000000000001a.png");
}

#[test]
fn checksum_is_the_exact_digest() {
    assert_eq!(
        bucket_storage::checksum::get_cheksum(b"abc"),
        "a9993e364706816aba3e25717850c26c9cd0d89d"
    );
    assert_eq!(
        bucket_storage::checksum::get_cheksum(b""),
        "da39a3ee5e6b4b0d3255bfef95601890afd80709"
    );
}
