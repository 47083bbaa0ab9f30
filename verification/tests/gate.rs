use base64::Engine;
use bucket_storage::auth::{decode, get_auth_parts, issue_key, verify_credentials, Claims};
use bucket_storage::errors::AppError;
use bucket_storage::files::Storage;
use bucket_storage::Environment;

fn basic_header(key_id: u128, secret: &str) -> String {
    let pair = format!("{}:{}", uuid::Uuid::from_u128(key_id), secret);
    format!("Basic {}", base64::engine::general_purpose::STANDARD.encode(pair))
}

#[test]
fn issued_key_verifies() {
    let mut storage = Storage::new();
    let parts = issue_key(&mut storage).unwrap();
    let header = basic_header(parts.key_id, &parts.key);
    let claims = Claims::from_request_parts(&storage, Some(&header)).unwrap();
    assert_eq!(claims.key_id, parts.key_id);
    assert_eq!(storage.keys.len(), 1);
    assert_eq!(claims.bucket_id, storage.keys[0].bucket_id);
}

#[test]
fn altered_secret_is_a_client_error() {
    let mut storage = Storage::new();
    let parts = issue_key(&mut storage).unwrap();
    let mut altered = parts.key.clone();
    let last = altered.pop().unwrap();
    altered.push(if last == '0' { '1' } else { '0' });
    let header = basic_header(parts.key_id, &altered);
    let err = Claims::from_request_parts(&storage, Some(&header)).unwrap_err();
    assert_eq!(err, AppError::WrongSecret);
    assert!(err.expected());
    assert_eq!(err.status(), 400);
}

#[test]
fn unknown_key_id_is_a_client_error() {
    let mut storage = Storage::new();
    issue_key(&mut storage).unwrap();
    let header = basic_header(0xdead_beef, "whatever");
    let err = Claims::from_request_parts(&storage, Some(&header)).unwrap_err();
    assert_eq!(err, AppError::UnknownKey);
    assert!(err.expected());
}

#[test]
fn missing_header_is_rejected() {
    let storage = Storage::new();
    let err = Claims::from_request_parts(&storage, None).unwrap_err();
    assert_eq!(err, AppError::MissingHeader);
}

#[test]
fn non_basic_scheme_is_rejected() {
    let err = get_auth_parts(Some("Bearer abcdef")).unwrap_err();
    assert_eq!(err, AppError::UnsupportedScheme);
    let err = get_auth_parts(Some("NoSpaceAtAll")).unwrap_err();
    assert_eq!(err, AppError::UnsupportedScheme);
    // the scheme label is case-sensitive
    let err = get_auth_parts(Some("basic abcdef")).unwrap_err();
    assert_eq!(err, AppError::UnsupportedScheme);
}

#[test]
fn bad_base64_is_malformed() {
    let err = decode("!!! not base64 !!!").unwrap_err();
    assert_eq!(err, AppError::MalformedEncoding);
}

#[test]
fn bad_utf8_is_malformed() {
    let payload = base64::engine::general_purpose::STANDARD.encode([0xffu8, 0xfe, 0xfd]);
    let err = decode(&payload).unwrap_err();
    assert_eq!(err, AppError::MalformedEncoding);
}

#[test]
fn missing_delimiter_is_rejected() {
    let payload = base64::engine::general_purpose::STANDARD.encode("no delimiter here");
    let err = decode(&payload).unwrap_err();
    assert_eq!(err, AppError::MissingDelimiter);
}

#[test]
fn non_uuid_key_id_is_rejected() {
    let payload = base64::engine::general_purpose::STANDARD.encode("not-a-uuid:secret");
    let err = decode(&payload).unwrap_err();
    assert_eq!(err, AppError::InvalidIdentifier);
}

#[test]
fn decode_extracts_id_and_secret() {
    let id = uuid::Uuid::from_u128(42);
    let payload = base64::engine::general_purpose::STANDARD.encode(format!("{id}:s3cr:et"));
    let credentials = decode(&payload).unwrap();
    assert_eq!(credentials.key_id, 42);
    // the secret is everything after the first delimiter
    assert_eq!(credentials.key, "s3cr:et");
}

#[test]
fn credentials_resolve_to_the_issued_bucket() {
    let mut storage = Storage::new();
    let parts = issue_key(&mut storage).unwrap();
    let credentials =
        bucket_storage::auth::Credentials::new(parts.key_id, parts.key.clone());
    let bucket = verify_credentials(&storage, &credentials).unwrap();
    assert_eq!(bucket, storage.keys[0].bucket_id);
    // each issuance creates the bucket and its key together
    assert_eq!(storage.buckets.len(), 1);
    assert_eq!(storage.buckets[0].id, storage.keys[0].bucket_id);
}

#[test]
fn environment_names_parse_case_insensitively() {
    assert!(matches!(
        Environment::try_from("DEV".to_string()),
        Ok(Environment::Development)
    ));
    assert!(matches!(
        Environment::try_from("Development".to_string()),
        Ok(Environment::Development)
    ));
    assert!(matches!(
        Environment::try_from("production".to_string()),
        Ok(Environment::Production)
    ));
    assert!(matches!(
        Environment::try_from("PROD".to_string()),
        Ok(Environment::Production)
    ));
    let err = Environment::try_from("staging".to_string()).unwrap_err();
    assert_eq!(
        err,
        "staging is not supported environment. Use either `local` or `production`"
    );
}

#[test]
fn error_taxonomy_statuses() {
    assert_eq!(AppError::BindingNotFound.status(), 204);
    assert_eq!(AppError::DeleteBindingNotFound.status(), 400);
    assert!(AppError::DeleteBindingNotFound.expected());
    assert_eq!(AppError::UnknownKey.status(), 400);
    assert_eq!(AppError::RepositoryError.status(), 500);
    assert!(!AppError::FilesystemError.expected());
    assert!(!AppError::HashingError.expected());
    assert!(AppError::MissingDelimiter.expected());
}
