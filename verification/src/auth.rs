//! The access gate: key issuance, and the resolution of an authentication
//! header to a bucket identity.
//!
//! A request carries `Basic` credentials: a base64 payload that decodes to
//! `<key_id>:<secret>`. The key identifier looks up a stored salted hash of
//! the issued secret, and the secret is checked against it. Every failure on
//! that path is a client error; only a corrupt stored hash or a failure of
//! the hashing primitive is an internal one.
use vstd::prelude::*;

use argon2::password_hash;
use argon2::password_hash::SaltString;
use argon2::{Argon2, PasswordHash, PasswordHasher, PasswordVerifier};
use base64::Engine;
use rand::thread_rng;

use crate::errors::AppError;
use crate::files::{BucketModel, BucketRow, KeyModel, KeyRow, Storage, StorageModel};
use crate::text::{find_first_char, first_char_index, has_char};

verus! {

/// Whether a stored hash string is a well-formed PHC string, the way the
/// hashing primitive's parser accepts it. A pure function of the string.
pub uninterp spec fn phc_parses(hash: Seq<char>) -> bool;

/// What checking a secret against a stored, well-formed hash concludes:
/// `Some(true)` a match, `Some(false)` a mismatch, `None` no conclusion (an
/// internal failure of the primitive). A pure function of the two strings.
pub uninterp spec fn verify_outcome(secret: Seq<char>, hash: Seq<char>) -> Option<bool>;

/// What [`ArgonHash::verify`] answers: a corrupt stored hash or an
/// inconclusive check is the internal hashing error; otherwise the
/// conclusion itself.
pub open spec fn spec_verify(secret: Seq<char>, hash: Seq<char>) -> Result<bool, AppError> {
    if !phc_parses(hash) {
        Err(AppError::HashingError)
    } else {
        match verify_outcome(secret, hash) {
            Some(b) => Ok(b),
            None => Err(AppError::HashingError),
        }
    }
}

/// The credential store: it hashes secrets with a salted, slow hash, and
/// checks presented secrets against stored hashes.
pub struct ArgonHash;

impl ArgonHash {
    /// Relies on argon2's `Argon2::hash_password` over a fresh random salt,
    /// and on the round trip the password-hash crate documents: the produced
    /// PHC string parses back (`PasswordHash::new` accepts its own
    /// serialization) and `verify_password` recomputes the same output for
    /// the same secret. Nothing else is assumed of the salted,
    /// nondeterministic result.
    #[verifier::external_body]
    pub fn hash(input: &str) -> (r: Result<String, AppError>)
        ensures
            r matches Ok(h) ==> phc_parses(h@) && verify_outcome(input@, h@) == Some(true),
            r matches Err(e) ==> e == AppError::HashingError,
    {
        let salt = SaltString::generate(&mut thread_rng());
        match Argon2::default().hash_password(input.as_bytes(), &salt) {
            Ok(h) => Ok(h.to_string()),
            Err(_) => Err(AppError::HashingError),
        }
    }

    /// Relies on argon2's `PasswordHash::new` (the parse that
    /// [`phc_parses`] names) and `Argon2::verify_password` (the
    /// deterministic check that [`verify_outcome`] names): a mismatch is
    /// reported as `false`, distinct from the internal error a corrupt hash
    /// or an inconclusive check raises.
    #[verifier::external_body]
    pub fn verify(input: &str, hash: &str) -> (r: Result<bool, AppError>)
        ensures
            r == spec_verify(input@, hash@),
    {
        let parsed = match PasswordHash::new(hash) {
            Ok(p) => p,
            Err(_) => {
                return Err(AppError::HashingError);
            },
        };
        match Argon2::default().verify_password(input.as_bytes(), &parsed) {
            Ok(()) => Ok(true),
            Err(password_hash::Error::Password) => Ok(false),
            Err(_) => Err(AppError::HashingError),
        }
    }
}

/// Law: a hash produced for a secret verifies against that secret — what
/// [`ArgonHash::hash`] guarantees of its result is exactly what makes
/// [`ArgonHash::verify`] answer `true` for the same secret.
pub proof fn lemma_hash_verifies(secret: Seq<char>, hash: Seq<char>)
    requires
        phc_parses(hash),
        verify_outcome(secret, hash) == Some(true),
    ensures
        spec_verify(secret, hash) == Ok::<bool, AppError>(true),
{
}

/// What base64 decoding concludes for a text: the decoded bytes, or nothing
/// when the text is not valid standard base64. A pure function of the text.
pub uninterp spec fn b64_decoded(s: Seq<char>) -> Option<Seq<u8>>;

/// Relies on base64's `STANDARD.decode`: decoding is a pure function of the
/// input text.
#[verifier::external_body]
fn base64_decode(input: &str) -> (r: Option<Vec<u8>>)
    ensures
        match r {
            Some(v) => b64_decoded(input@) == Some(v@),
            None => b64_decoded(input@) is None,
        },
{
    base64::engine::general_purpose::STANDARD.decode(input).ok()
}

/// What UTF-8 decoding concludes for a byte sequence: its text, or nothing
/// when the bytes are not valid UTF-8. A pure function of the bytes.
pub uninterp spec fn utf8_decoded(bytes: Seq<u8>) -> Option<Seq<char>>;

/// Relies on std's `String::from_utf8`: UTF-8 decoding is a pure function of
/// the bytes.
#[verifier::external_body]
fn utf8_to_string(bytes: Vec<u8>) -> (r: Option<String>)
    ensures
        match r {
            Some(s) => utf8_decoded(bytes@) == Some(s@),
            None => utf8_decoded(bytes@) is None,
        },
{
    String::from_utf8(bytes).ok()
}

/// What parsing a 128-bit identifier concludes for a text: its value, or
/// nothing when the text is not a well-formed identifier. A pure function of
/// the text.
pub uninterp spec fn uuid_parsed(s: Seq<char>) -> Option<u128>;

/// Relies on uuid's `Uuid::parse_str` (parsing is a pure function of the
/// text) and `Uuid::as_u128` (a plain reading of the parsed value).
#[verifier::external_body]
fn parse_uuid(s: &str) -> (r: Option<u128>)
    ensures
        r == uuid_parsed(s@),
{
    match uuid::Uuid::parse_str(s) {
        Ok(u) => Some(u.as_u128()),
        Err(_) => None,
    }
}

/// Relies on uuid's `Uuid::new_v4` and its hyphenated rendering: a fresh
/// random secret. Nothing is assumed of its value.
#[verifier::external_body]
fn generate_secret() -> (r: String) {
    uuid::Uuid::new_v4().to_string()
}

/// A presented credential: the key identifier and the claimed secret.
#[derive(Debug)]
pub struct Credentials {
    pub key_id: u128,
    pub key: String,
}

impl Credentials {
    /// Wraps a key identifier and a claimed secret.
    pub fn new(id: u128, key: String) -> (r: Credentials)
        ensures
            r.key_id == id,
            r.key@ == key@,
    {
        Self { key_id: id, key }
    }

    /// The claimed secret, as mathematics.
    pub open spec fn spec_key(&self) -> Seq<char> {
        self.key@
    }
}

/// What decoding a credential payload concludes: the key identifier and the
/// secret, or the exact client error — bad base64 and bad UTF-8 are
/// malformed encodings, a payload without `:` misses the delimiter, and a
/// left part that is no 128-bit identifier is an invalid identifier.
pub open spec fn spec_decode(input: Seq<char>) -> Result<(u128, Seq<char>), AppError> {
    match b64_decoded(input) {
        None => Err(AppError::MalformedEncoding),
        Some(bytes) => match utf8_decoded(bytes) {
            None => Err(AppError::MalformedEncoding),
            Some(text) => if !has_char(text, ':') {
                Err(AppError::MissingDelimiter)
            } else {
                let i = first_char_index(text, ':');
                match uuid_parsed(text.subrange(0, i)) {
                    None => Err(AppError::InvalidIdentifier),
                    Some(id) => Ok((id, text.subrange(i + 1, text.len() as int))),
                }
            },
        },
    }
}

/// Decodes a base64 credential payload into the key identifier and secret.
pub fn decode(input: &str) -> (r: Result<Credentials, AppError>)
    ensures
        match spec_decode(input@) {
            Ok(p) => r matches Ok(c) && c.key_id == p.0 && c.spec_key() == p.1,
            Err(e) => r matches Err(a) && a == e,
        },
{
    let bytes = match base64_decode(input) {
        Some(b) => b,
        None => {
            return Err(AppError::MalformedEncoding);
        },
    };
    let text = match utf8_to_string(bytes) {
        Some(t) => t,
        None => {
            return Err(AppError::MalformedEncoding);
        },
    };
    let colon = match find_first_char(text.as_str(), ':') {
        Some(i) => i,
        None => {
            return Err(AppError::MissingDelimiter);
        },
    };
    let n = text.as_str().unicode_len();
    let id_part = text.as_str().substring_char(0, colon);
    let id = match parse_uuid(id_part) {
        Some(id) => id,
        None => {
            return Err(AppError::InvalidIdentifier);
        },
    };
    let key_part = text.as_str().substring_char(colon + 1, n).to_owned();
    Ok(Credentials::new(id, key_part))
}

/// What reading an authentication header concludes: the decoded credential,
/// or the exact client error — no header misses the header, and anything but
/// a two-part `Basic` scheme is an unsupported scheme.
pub open spec fn spec_get_auth_parts(header: Option<Seq<char>>) -> Result<
    (u128, Seq<char>),
    AppError,
> {
    match header {
        None => Err(AppError::MissingHeader),
        Some(h) => if !has_char(h, ' ') {
            Err(AppError::UnsupportedScheme)
        } else {
            let i = first_char_index(h, ' ');
            if h.subrange(0, i) == "Basic"@ {
                spec_decode(h.subrange(i + 1, h.len() as int))
            } else {
                Err(AppError::UnsupportedScheme)
            }
        },
    }
}

/// Reads an authentication header into a presented credential.
pub fn get_auth_parts(header: Option<&str>) -> (r: Result<Credentials, AppError>)
    ensures
        match spec_get_auth_parts(header.deep_view()) {
            Ok(p) => r matches Ok(c) && c.key_id == p.0 && c.spec_key() == p.1,
            Err(e) => r matches Err(a) && a == e,
        },
{
    let h = match header {
        Some(h) => h,
        None => {
            return Err(AppError::MissingHeader);
        },
    };
    let space = match find_first_char(h, ' ') {
        Some(i) => i,
        None => {
            return Err(AppError::UnsupportedScheme);
        },
    };
    let n = h.unicode_len();
    let scheme = h.substring_char(0, space).to_owned();
    if scheme == String::from_str("Basic") {
        let contents = h.substring_char(space + 1, n);
        decode(contents)
    } else {
        Err(AppError::UnsupportedScheme)
    }
}

/// Whether some key row carries this identifier.
pub open spec fn exists_key(keys: Seq<KeyModel>, id: u128) -> bool {
    exists|i: int| 0 <= i < keys.len() && keys[i].id == id
}

/// The index of the key row carrying this identifier (unique in a
/// well-formed store).
pub open spec fn key_index(keys: Seq<KeyModel>, id: u128) -> int {
    choose|i: int| 0 <= i < keys.len() && keys[i].id == id
}

/// In a store with unique key identifiers, a row carrying the identifier
/// pins down [`key_index`].
pub proof fn lemma_key_index_is(m: StorageModel, id: u128, i: int)
    requires
        m.unique_key_ids(),
        0 <= i < m.keys.len(),
        m.keys[i].id == id,
    ensures
        exists_key(m.keys, id),
        key_index(m.keys, id) == i,
{
    assert(exists_key(m.keys, id));
    let j = key_index(m.keys, id);
    if i < j {
        assert(m.keys[i].id != m.keys[j].id);
    } else if j < i {
        assert(m.keys[j].id != m.keys[i].id);
    }
}

/// What resolving a presented credential concludes: the key row's bucket
/// when the stored hash accepts the secret; an unknown key or a wrong secret
/// as the exact client error; a corrupt stored hash or an inconclusive check
/// as the internal hashing error.
pub open spec fn spec_verify_credentials(m: StorageModel, key_id: u128, secret: Seq<char>) -> Result<
    u128,
    AppError,
> {
    if !exists_key(m.keys, key_id) {
        Err(AppError::UnknownKey)
    } else {
        let k = m.keys[key_index(m.keys, key_id)];
        match spec_verify(secret, k.key) {
            Ok(b) => if b {
                Ok(k.bucket_id)
            } else {
                Err(AppError::WrongSecret)
            },
            Err(e) => Err(e),
        }
    }
}

/// Resolves a presented credential to the bucket it grants access to.
pub fn verify_credentials(storage: &Storage, credentials: &Credentials) -> (r: Result<
    u128,
    AppError,
>)
    requires
        storage@.wf(),
    ensures
        r == spec_verify_credentials(storage@, credentials.key_id, credentials.spec_key()),
{
    let n = storage.keys.len();
    let mut i: usize = 0;
    while i < n
        invariant
            i <= n,
            n == storage.keys.len(),
            storage@.wf(),
            forall|k: int| 0 <= k < i ==> (#[trigger] storage@.keys[k]).id != credentials.key_id,
        decreases n - i,
    {
        let row = &storage.keys[i];
        if row.id == credentials.key_id {
            proof {
                lemma_key_index_is(storage@, credentials.key_id, i as int);
            }
            let checked = ArgonHash::verify(credentials.key.as_str(), row.key.as_str());
            return match checked {
                Ok(true) => Ok(row.bucket_id),
                Ok(false) => Err(AppError::WrongSecret),
                Err(e) => Err(e),
            };
        }
        i += 1;
    }
    proof {
        assert(!exists_key(storage@.keys, credentials.key_id));
    }
    Err(AppError::UnknownKey)
}

/// A resolved request identity: the presented key and the bucket it grants
/// access to.
#[derive(Clone, Copy, Debug, PartialEq, Eq, Structural)]
pub struct Claims {
    pub key_id: u128,
    pub bucket_id: u128,
}

/// What resolving a whole request concludes: its header read into a
/// credential, the credential resolved to a bucket, and every failure the
/// exact error of the step that failed.
pub open spec fn spec_authenticate(m: StorageModel, header: Option<Seq<char>>) -> Result<
    Claims,
    AppError,
> {
    match spec_get_auth_parts(header) {
        Err(e) => Err(e),
        Ok(p) => match spec_verify_credentials(m, p.0, p.1) {
            Err(e) => Err(e),
            Ok(b) => Ok(Claims { key_id: p.0, bucket_id: b }),
        },
    }
}

impl Claims {
    /// Resolves a request's authentication header to a bucket identity.
    pub fn from_request_parts(storage: &Storage, header: Option<&str>) -> (r: Result<
        Claims,
        AppError,
    >)
        requires
            storage@.wf(),
        ensures
            r == spec_authenticate(storage@, header.deep_view()),
    {
        let credentials = match get_auth_parts(header) {
            Ok(c) => c,
            Err(e) => {
                return Err(e);
            },
        };
        let bucket_id = match verify_credentials(storage, &credentials) {
            Ok(b) => b,
            Err(e) => {
                return Err(e);
            },
        };
        Ok(Claims { key_id: credentials.key_id, bucket_id })
    }
}

/// A freshly issued key pair: the key identifier and the plaintext secret,
/// shown exactly once.
#[derive(Debug)]
pub struct KeyParts {
    pub key_id: u128,
    pub key: String,
}

/// What one issuance does to the store, given the hash that was stored: one
/// new bucket and one new key row bound to it, created together.
pub open spec fn issue_key_outcome(m: StorageModel, key_hash: Seq<char>) -> (
    StorageModel,
    u128,
    u128,
) {
    let bucket_id = m.next_id;
    let key_id = (m.next_id + 1) as u128;
    (
        StorageModel {
            buckets: m.buckets.push(BucketModel { id: bucket_id, name: "bucket"@ }),
            keys: m.keys.push(KeyModel { id: key_id, bucket_id, key: key_hash }),
            next_id: (m.next_id + 2) as u128,
            ..m
        },
        key_id,
        bucket_id,
    )
}

/// Creates a bucket and its key in one step, answering with the key
/// identifier and the plaintext secret: the stored hash accepts exactly that
/// secret. Only a failure of the hashing primitive can refuse, and it leaves
/// the store untouched.
pub fn issue_key(storage: &mut Storage) -> (r: Result<KeyParts, AppError>)
    requires
        old(storage)@.wf(),
        old(storage).next_id + 2 <= u128::MAX,
    ensures
        final(storage)@.wf(),
        match r {
            Ok(kp) => exists|h: Seq<char>|
                phc_parses(h) && verify_outcome(kp.key@, h) == Some(true) && #[trigger] issue_key_outcome(
                    old(storage)@,
                    h,
                ).0 == final(storage)@ && kp.key_id == issue_key_outcome(old(storage)@, h).1,
            Err(e) => e == AppError::HashingError && final(storage)@ == old(storage)@,
        },
{
    let ghost m = old(storage)@;
    let secret = generate_secret();
    let hashed = match ArgonHash::hash(secret.as_str()) {
        Ok(h) => h,
        Err(e) => {
            return Err(e);
        },
    };
    let ghost hm = hashed@;
    let bucket_id = storage.next_id;
    let key_id = bucket_id + 1;
    storage.buckets.push(BucketRow { id: bucket_id, name: String::from_str("bucket") });
    storage.keys.push(KeyRow { id: key_id, bucket_id, key: hashed });
    storage.next_id = key_id + 1;
    proof {
        let m2 = issue_key_outcome(m, hm).0;
        assert(storage@ =~= m2);
        assert forall|i: int, j: int| 0 <= i < j < m2.buckets.len() implies m2.buckets[i].id != m2
            .buckets[j].id by {
            if j < m.buckets.len() {
                assert(m.buckets[i].id != m.buckets[j].id);
            } else {
                assert(m.buckets[i].id < m.next_id);
            }
        }
        assert forall|i: int, j: int| 0 <= i < j < m2.keys.len() implies m2.keys[i].id != m2.keys[j].id by {
            if j < m.keys.len() {
                assert(m.keys[i].id != m.keys[j].id);
            } else {
                assert(m.keys[i].id < m.next_id);
            }
        }
        assert forall|i: int| 0 <= i < m2.buckets.len() implies #[trigger] m2.buckets[i].id < m2.next_id by {
            if i < m.buckets.len() {
                assert(m.buckets[i].id < m.next_id);
            }
        }
        assert forall|i: int| 0 <= i < m2.keys.len() implies #[trigger] m2.keys[i].id < m2.next_id by {
            if i < m.keys.len() {
                assert(m.keys[i].id < m.next_id);
            }
        }
    }
    Ok(KeyParts { key_id, key: secret })
}

/// Law: an issued key authenticates — when a stored key row's hash accepts a
/// secret (as the row created by issuance accepts the secret it answered
/// with), resolving that key identifier with that secret yields exactly the
/// row's bucket.
pub proof fn lemma_issued_key_verifies(m: StorageModel, key_id: u128, secret: Seq<char>)
    requires
        m.unique_key_ids(),
        exists_key(m.keys, key_id),
        phc_parses(m.keys[key_index(m.keys, key_id)].key),
        verify_outcome(secret, m.keys[key_index(m.keys, key_id)].key) == Some(true),
    ensures
        spec_verify_credentials(m, key_id, secret) == Ok::<u128, AppError>(
            m.keys[key_index(m.keys, key_id)].bucket_id,
        ),
{
}

} // verus!
