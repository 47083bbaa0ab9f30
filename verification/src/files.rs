//! The content-addressed store and the bucket namespace.
//!
//! [`Storage`] holds the metadata tables (buckets, keys, files, bucket-file
//! bindings, upload tokens) together with the physical objects, and is the
//! sole arbiter of the two central invariants: a checksum identifies at most
//! one file row, and an object's bytes are present exactly while its file row
//! is (and a file row survives exactly while some binding references it,
//! enforced by the reference-counted delete).
use vstd::prelude::*;

use crate::auth::Claims;
use crate::checksum::{get_cheksum, sha1_hex};
use crate::errors::AppError;

verus! {

/// A tenant namespace.
pub struct BucketRow {
    pub id: u128,
    pub name: String,
}

/// A stored credential: the identifier presented by callers and the salted
/// hash of the issued secret.
pub struct KeyRow {
    pub id: u128,
    pub bucket_id: u128,
    pub key: String,
}

/// A blob: an immutable byte object identified by the checksum of its
/// content.
pub struct FileRow {
    pub id: u128,
    pub checksum: String,
    pub extension: Option<String>,
}

/// A bucket-local, named binding to a shared blob; the unit of reference
/// counting.
pub struct BucketFileRow {
    pub bucket_id: u128,
    pub file_id: u128,
    pub name: String,
}

/// An upload capability: an opaque token granting upload rights to one
/// bucket.
pub struct UploadKeyRow {
    pub id: u128,
    pub bucket_id: u128,
}

/// The physical bytes of one blob.
pub struct StoredObject {
    pub id: u128,
    pub extension: Option<String>,
    pub bytes: Vec<u8>,
}

/// Mathematical image of [`BucketRow`].
pub ghost struct BucketModel {
    pub id: u128,
    pub name: Seq<char>,
}

/// Mathematical image of [`KeyRow`].
pub ghost struct KeyModel {
    pub id: u128,
    pub bucket_id: u128,
    pub key: Seq<char>,
}

/// Mathematical image of [`FileRow`].
pub ghost struct FileModel {
    pub id: u128,
    pub checksum: Seq<char>,
    pub extension: Option<Seq<char>>,
}

/// Mathematical image of [`BucketFileRow`].
pub ghost struct BucketFileModel {
    pub bucket_id: u128,
    pub file_id: u128,
    pub name: Seq<char>,
}

/// Mathematical image of [`UploadKeyRow`].
pub ghost struct UploadKeyModel {
    pub id: u128,
    pub bucket_id: u128,
}

/// Mathematical image of [`StoredObject`].
pub ghost struct DiskModel {
    pub id: u128,
    pub extension: Option<Seq<char>>,
    pub bytes: Seq<u8>,
}

impl View for BucketRow {
    type V = BucketModel;

    open spec fn view(&self) -> BucketModel {
        BucketModel { id: self.id, name: self.name@ }
    }
}

impl View for KeyRow {
    type V = KeyModel;

    open spec fn view(&self) -> KeyModel {
        KeyModel { id: self.id, bucket_id: self.bucket_id, key: self.key@ }
    }
}

impl View for FileRow {
    type V = FileModel;

    open spec fn view(&self) -> FileModel {
        FileModel { id: self.id, checksum: self.checksum@, extension: self.extension.deep_view() }
    }
}

impl View for BucketFileRow {
    type V = BucketFileModel;

    open spec fn view(&self) -> BucketFileModel {
        BucketFileModel { bucket_id: self.bucket_id, file_id: self.file_id, name: self.name@ }
    }
}

impl View for UploadKeyRow {
    type V = UploadKeyModel;

    open spec fn view(&self) -> UploadKeyModel {
        UploadKeyModel { id: self.id, bucket_id: self.bucket_id }
    }
}

impl View for StoredObject {
    type V = DiskModel;

    open spec fn view(&self) -> DiskModel {
        DiskModel { id: self.id, extension: self.extension.deep_view(), bytes: self.bytes@ }
    }
}

/// The whole persistent state, as mathematics: the five metadata tables, the
/// physical objects, and the identifier allocator.
#[verifier::ext_equal]
pub ghost struct StorageModel {
    pub buckets: Seq<BucketModel>,
    pub keys: Seq<KeyModel>,
    pub files: Seq<FileModel>,
    pub bucket_files: Seq<BucketFileModel>,
    pub upload_keys: Seq<UploadKeyModel>,
    pub disk: Seq<DiskModel>,
    pub next_id: u128,
}

/// Whether some file row carries this checksum.
pub open spec fn exists_file_with_checksum(files: Seq<FileModel>, c: Seq<char>) -> bool {
    exists|i: int| 0 <= i < files.len() && files[i].checksum == c
}

/// The index of the file row carrying this checksum (unique in a
/// well-formed store).
pub open spec fn file_index(files: Seq<FileModel>, c: Seq<char>) -> int {
    choose|i: int| 0 <= i < files.len() && files[i].checksum == c
}

/// Whether some file row carries this identifier.
pub open spec fn exists_file_with_id(files: Seq<FileModel>, id: u128) -> bool {
    exists|i: int| 0 <= i < files.len() && files[i].id == id
}

/// The index of the file row carrying this identifier (unique in a
/// well-formed store).
pub open spec fn file_id_index(files: Seq<FileModel>, id: u128) -> int {
    choose|i: int| 0 <= i < files.len() && files[i].id == id
}

/// Whether the bucket holds at least one binding to the blob.
pub open spec fn exists_binding(bfs: Seq<BucketFileModel>, bucket_id: u128, file_id: u128) -> bool {
    exists|i: int| 0 <= i < bfs.len() && bfs[i].bucket_id == bucket_id && bfs[i].file_id == file_id
}

/// The bindings left after the bucket drops every binding it holds to the
/// blob.
pub open spec fn remove_bindings(
    bfs: Seq<BucketFileModel>,
    bucket_id: u128,
    file_id: u128,
) -> Seq<BucketFileModel> {
    bfs.filter(|r: BucketFileModel| !(r.bucket_id == bucket_id && r.file_id == file_id))
}

/// How many bindings, across all buckets, reference the blob.
pub open spec fn ref_count(bfs: Seq<BucketFileModel>, file_id: u128) -> nat {
    bfs.filter(|r: BucketFileModel| r.file_id == file_id).len()
}

impl StorageModel {
    /// The store with nothing in it.
    pub open spec fn empty() -> StorageModel {
        StorageModel {
            buckets: Seq::empty(),
            keys: Seq::empty(),
            files: Seq::empty(),
            bucket_files: Seq::empty(),
            upload_keys: Seq::empty(),
            disk: Seq::empty(),
            next_id: 0,
        }
    }

    /// No two file rows share an identifier.
    pub open spec fn unique_file_ids(self) -> bool {
        forall|i: int, j: int|
            0 <= i < j < self.files.len() ==> self.files[i].id != self.files[j].id
    }

    /// No two file rows share a checksum: the content-addressing invariant.
    pub open spec fn unique_checksums(self) -> bool {
        forall|i: int, j: int|
            0 <= i < j < self.files.len() ==> self.files[i].checksum != self.files[j].checksum
    }

    /// No two key rows share an identifier.
    pub open spec fn unique_key_ids(self) -> bool {
        forall|i: int, j: int| 0 <= i < j < self.keys.len() ==> self.keys[i].id != self.keys[j].id
    }

    /// No two upload tokens share an identifier.
    pub open spec fn unique_upload_key_ids(self) -> bool {
        forall|i: int, j: int|
            0 <= i < j < self.upload_keys.len() ==> self.upload_keys[i].id != self.upload_keys[j].id
    }

    /// No two buckets share an identifier.
    pub open spec fn unique_bucket_ids(self) -> bool {
        forall|i: int, j: int|
            0 <= i < j < self.buckets.len() ==> self.buckets[i].id != self.buckets[j].id
    }

    /// Every identifier in the store was allocated below `next_id`.
    pub open spec fn ids_allocated(self) -> bool {
        &&& forall|i: int| 0 <= i < self.files.len() ==> #[trigger] self.files[i].id < self.next_id
        &&& forall|i: int| 0 <= i < self.keys.len() ==> #[trigger] self.keys[i].id < self.next_id
        &&& forall|i: int|
            0 <= i < self.buckets.len() ==> #[trigger] self.buckets[i].id < self.next_id
        &&& forall|i: int|
            0 <= i < self.upload_keys.len() ==> #[trigger] self.upload_keys[i].id < self.next_id
    }

    /// Physical bytes exist exactly for the file rows, hold the content the
    /// row's checksum was computed from, and carry the row's extension.
    pub open spec fn disk_matches_files(self) -> bool {
        &&& self.disk.len() == self.files.len()
        &&& forall|i: int|
            0 <= i < self.files.len() ==> (#[trigger] self.disk[i]).id == self.files[i].id
                && self.disk[i].extension == self.files[i].extension && sha1_hex(
                self.disk[i].bytes,
            ) == self.files[i].checksum
    }

    /// Every binding references an existing file row.
    pub open spec fn bindings_reference_files(self) -> bool {
        forall|i: int|
            0 <= i < self.bucket_files.len() ==> exists_file_with_id(
                self.files,
                (#[trigger] self.bucket_files[i]).file_id,
            )
    }

    /// The well-formedness every operation preserves.
    pub open spec fn wf(self) -> bool {
        &&& self.unique_file_ids()
        &&& self.unique_checksums()
        &&& self.unique_key_ids()
        &&& self.unique_upload_key_ids()
        &&& self.unique_bucket_ids()
        &&& self.ids_allocated()
        &&& self.disk_matches_files()
        &&& self.bindings_reference_files()
    }
}

/// In a store with unique checksums, a row carrying the checksum pins down
/// [`file_index`].
pub proof fn lemma_file_index_is(m: StorageModel, c: Seq<char>, i: int)
    requires
        m.unique_checksums(),
        0 <= i < m.files.len(),
        m.files[i].checksum == c,
    ensures
        exists_file_with_checksum(m.files, c),
        file_index(m.files, c) == i,
{
    assert(exists_file_with_checksum(m.files, c));
    let j = file_index(m.files, c);
    if i < j {
        assert(m.files[i].checksum != m.files[j].checksum);
    } else if j < i {
        assert(m.files[j].checksum != m.files[i].checksum);
    }
}

/// In a store with unique file identifiers, a row carrying the identifier
/// pins down [`file_id_index`].
pub proof fn lemma_file_id_index_is(m: StorageModel, id: u128, i: int)
    requires
        m.unique_file_ids(),
        0 <= i < m.files.len(),
        m.files[i].id == id,
    ensures
        exists_file_with_id(m.files, id),
        file_id_index(m.files, id) == i,
{
    assert(exists_file_with_id(m.files, id));
    let j = file_id_index(m.files, id);
    if i < j {
        assert(m.files[i].id != m.files[j].id);
    } else if j < i {
        assert(m.files[j].id != m.files[i].id);
    }
}

/// What one upload does to the store, and the blob identifier it answers
/// with: content already present is not stored again and resolves to the
/// existing blob; new content is given a fresh identifier, its metadata row,
/// and its physical object. Either way the bucket gains one named binding to
/// the blob.
pub open spec fn upload_outcome(
    m: StorageModel,
    bucket_id: u128,
    name: Seq<char>,
    extension: Option<Seq<char>>,
    bytes: Seq<u8>,
) -> (StorageModel, u128) {
    let c = sha1_hex(bytes);
    if exists_file_with_checksum(m.files, c) {
        let id = m.files[file_index(m.files, c)].id;
        (
            StorageModel {
                bucket_files: m.bucket_files.push(BucketFileModel { bucket_id, file_id: id, name }),
                ..m
            },
            id,
        )
    } else {
        let id = m.next_id;
        (
            StorageModel {
                files: m.files.push(FileModel { id, checksum: c, extension }),
                disk: m.disk.push(DiskModel { id, extension, bytes }),
                bucket_files: m.bucket_files.push(BucketFileModel { bucket_id, file_id: id, name }),
                next_id: (m.next_id + 1) as u128,
                ..m
            },
            id,
        )
    }
}

/// Uploading preserves well-formedness.
pub proof fn lemma_upload_preserves_wf(
    m: StorageModel,
    bucket_id: u128,
    name: Seq<char>,
    extension: Option<Seq<char>>,
    bytes: Seq<u8>,
)
    requires
        m.wf(),
        m.next_id < u128::MAX,
    ensures
        upload_outcome(m, bucket_id, name, extension, bytes).0.wf(),
{
    let c = sha1_hex(bytes);
    let m2 = upload_outcome(m, bucket_id, name, extension, bytes).0;
    if exists_file_with_checksum(m.files, c) {
        let fi = file_index(m.files, c);
        assert(m2.files == m.files);
        assert forall|i: int| 0 <= i < m2.bucket_files.len() implies exists_file_with_id(
            m2.files,
            (#[trigger] m2.bucket_files[i]).file_id,
        ) by {
            if i < m.bucket_files.len() {
                assert(m2.bucket_files[i] == m.bucket_files[i]);
            } else {
                assert(m2.bucket_files[i].file_id == m.files[fi].id);
            }
        }
    } else {
        let id = m.next_id;
        let nf = m.files.len() as int;
        assert forall|i: int, j: int| 0 <= i < j < m2.files.len() implies m2.files[i].id
            != m2.files[j].id by {
            if j < nf {
                assert(m.files[i].id != m.files[j].id);
            } else {
                assert(m.files[i].id < m.next_id);
            }
        }
        assert forall|i: int, j: int| 0 <= i < j < m2.files.len() implies m2.files[i].checksum
            != m2.files[j].checksum by {
            if j < nf {
                assert(m.files[i].checksum != m.files[j].checksum);
            } else {
                assert(!(0 <= i < m.files.len() && m.files[i].checksum == c));
            }
        }
        assert forall|i: int| 0 <= i < m2.files.len() implies #[trigger] m2.files[i].id
            < m2.next_id by {
            if i < nf {
                assert(m.files[i].id < m.next_id);
            }
        }
        assert forall|i: int| 0 <= i < m2.files.len() implies (#[trigger] m2.disk[i]).id
            == m2.files[i].id && m2.disk[i].extension == m2.files[i].extension && sha1_hex(
            m2.disk[i].bytes,
        ) == m2.files[i].checksum by {
            if i < nf {
                assert(m2.disk[i] == m.disk[i]);
                assert(m2.files[i] == m.files[i]);
            }
        }
        assert forall|i: int| 0 <= i < m2.bucket_files.len() implies exists_file_with_id(
            m2.files,
            (#[trigger] m2.bucket_files[i]).file_id,
        ) by {
            if i < m.bucket_files.len() {
                assert(m2.bucket_files[i] == m.bucket_files[i]);
                assert(exists_file_with_id(m.files, m.bucket_files[i].file_id));
                let w = choose|k: int|
                    0 <= k < m.files.len() && m.files[k].id == m.bucket_files[i].file_id;
                assert(m2.files[w].id == m.bucket_files[i].file_id);
            } else {
                assert(m2.files[nf].id == id);
            }
        }
    }
}

/// Unfolds [`remove_bindings`] over a pushed element.
pub proof fn lemma_remove_bindings_step(
    s: Seq<BucketFileModel>,
    x: BucketFileModel,
    bucket_id: u128,
    file_id: u128,
)
    ensures
        remove_bindings(s.push(x), bucket_id, file_id) == (if x.bucket_id == bucket_id
            && x.file_id == file_id {
            remove_bindings(s, bucket_id, file_id)
        } else {
            remove_bindings(s, bucket_id, file_id).push(x)
        }),
{
    reveal(Seq::filter);
    assert(s.push(x).drop_last() =~= s);
    assert(s.push(x).last() == x);
}

/// [`remove_bindings`] of nothing is nothing.
pub proof fn lemma_remove_bindings_empty(bucket_id: u128, file_id: u128)
    ensures
        remove_bindings(Seq::empty(), bucket_id, file_id) == Seq::<BucketFileModel>::empty(),
{
    reveal(Seq::filter);
}

/// Unfolds [`ref_count`] over a pushed element.
pub proof fn lemma_ref_count_step(s: Seq<BucketFileModel>, x: BucketFileModel, file_id: u128)
    ensures
        ref_count(s.push(x), file_id) == ref_count(s, file_id) + (if x.file_id == file_id {
            1int
        } else {
            0int
        }),
{
    reveal(Seq::filter);
    assert(s.push(x).drop_last() =~= s);
    assert(s.push(x).last() == x);
}

/// [`ref_count`] of nothing is zero.
pub proof fn lemma_ref_count_empty(file_id: u128)
    ensures
        ref_count(Seq::empty(), file_id) == 0,
{
    reveal(Seq::filter);
}

/// A blob with no references is referenced by no binding.
pub proof fn lemma_ref_count_zero(s: Seq<BucketFileModel>, file_id: u128)
    requires
        ref_count(s, file_id) == 0,
    ensures
        forall|i: int| 0 <= i < s.len() ==> (#[trigger] s[i]).file_id != file_id,
    decreases s.len(),
{
    reveal(Seq::filter);
    if s.len() > 0 {
        let d = s.drop_last();
        assert(s == d.push(s.last()));
        lemma_ref_count_step(d, s.last(), file_id);
        lemma_ref_count_zero(d, file_id);
        assert forall|i: int| 0 <= i < s.len() implies (#[trigger] s[i]).file_id != file_id by {
            if i < s.len() - 1 {
                assert(s[i] == d[i]);
            }
        }
    }
}

/// Every binding that survives [`remove_bindings`] stood in the original
/// sequence.
pub proof fn lemma_remove_bindings_sub(s: Seq<BucketFileModel>, bucket_id: u128, file_id: u128)
    ensures
        forall|i: int|
            0 <= i < remove_bindings(s, bucket_id, file_id).len() ==> exists|j: int|
                0 <= j < s.len() && #[trigger] s[j] == #[trigger] remove_bindings(
                    s,
                    bucket_id,
                    file_id,
                )[i],
    decreases s.len(),
{
    if s.len() > 0 {
        let d = s.drop_last();
        assert(s == d.push(s.last()));
        lemma_remove_bindings_step(d, s.last(), bucket_id, file_id);
        lemma_remove_bindings_sub(d, bucket_id, file_id);
        let out = remove_bindings(s, bucket_id, file_id);
        let sub = remove_bindings(d, bucket_id, file_id);
        assert forall|i: int| #![trigger out[i]] 0 <= i < out.len() implies exists|j: int|
            0 <= j < s.len() && #[trigger] s[j] == out[i] by {
            if i < sub.len() {
                assert(out[i] == sub[i]);
                let j = choose|j: int| 0 <= j < d.len() && d[j] == sub[i];
                assert(s[j] == out[i]);
            } else {
                assert(out[i] == s.last());
                assert(s[s.len() - 1] == out[i]);
            }
        }
    } else {
        lemma_remove_bindings_empty(bucket_id, file_id);
    }
}

/// What one unbind does to the store: with no binding to drop it reports the
/// missing binding as a bad request; otherwise every binding the bucket
/// holds to the blob is dropped, and when that leaves the blob with no
/// reference at all, its metadata row and its physical bytes are purged with
/// it.
pub open spec fn unbind_outcome(m: StorageModel, bucket_id: u128, file_id: u128) -> Result<
    StorageModel,
    AppError,
> {
    if !exists_binding(m.bucket_files, bucket_id, file_id) {
        Err(AppError::DeleteBindingNotFound)
    } else {
        let bfs = remove_bindings(m.bucket_files, bucket_id, file_id);
        if ref_count(bfs, file_id) == 0 && exists_file_with_id(m.files, file_id) {
            let fi = file_id_index(m.files, file_id);
            Ok(
                StorageModel {
                    bucket_files: bfs,
                    files: m.files.remove(fi),
                    disk: m.disk.remove(fi),
                    ..m
                },
            )
        } else {
            Ok(StorageModel { bucket_files: bfs, ..m })
        }
    }
}

/// Unbinding preserves well-formedness.
pub proof fn lemma_unbind_preserves_wf(m: StorageModel, bucket_id: u128, file_id: u128)
    requires
        m.wf(),
    ensures
        unbind_outcome(m, bucket_id, file_id) matches Ok(m2) ==> m2.wf(),
{
    if exists_binding(m.bucket_files, bucket_id, file_id) {
        let bfs = remove_bindings(m.bucket_files, bucket_id, file_id);
        lemma_remove_bindings_sub(m.bucket_files, bucket_id, file_id);
        if ref_count(bfs, file_id) == 0 && exists_file_with_id(m.files, file_id) {
            lemma_ref_count_zero(bfs, file_id);
            let fi = file_id_index(m.files, file_id);
            let m2 = unbind_outcome(m, bucket_id, file_id)->Ok_0;
            assert(m2.bucket_files == bfs);
            m.files.remove_ensures(fi);
            m.disk.remove_ensures(fi);
            assert(m.disk.len() == m.files.len());
            assert forall|i: int| 0 <= i < m2.files.len() implies (#[trigger] m2.disk[i]).id
                == m2.files[i].id && m2.disk[i].extension == m2.files[i].extension && sha1_hex(
                m2.disk[i].bytes,
            ) == m2.files[i].checksum by {
                if i < fi {
                    assert(m2.files[i] == m.files[i]);
                    assert(m2.disk[i] == m.disk[i]);
                } else {
                    assert(m2.files[i] == m.files[i + 1]);
                    assert(m2.disk[i] == m.disk[i + 1]);
                }
            }
            assert forall|i: int, j: int| 0 <= i < j < m2.files.len() implies m2.files[i].id
                != m2.files[j].id && m2.files[i].checksum != m2.files[j].checksum by {
                let i0 = if i < fi {
                    i
                } else {
                    i + 1
                };
                let j0 = if j < fi {
                    j
                } else {
                    j + 1
                };
                assert(m2.files[i] == m.files[i0]);
                assert(m2.files[j] == m.files[j0]);
            }
            assert forall|i: int| 0 <= i < m2.files.len() implies #[trigger] m2.files[i].id
                < m2.next_id by {
                let i0 = if i < fi {
                    i
                } else {
                    i + 1
                };
                assert(m2.files[i] == m.files[i0]);
            }
            assert forall|i: int| 0 <= i < m2.bucket_files.len() implies exists_file_with_id(
                m2.files,
                (#[trigger] m2.bucket_files[i]).file_id,
            ) by {
                let g = m2.bucket_files[i].file_id;
                assert(g != file_id);
                let j = choose|j: int|
                    0 <= j < m.bucket_files.len() && m.bucket_files[j] == m2.bucket_files[i];
                assert(exists_file_with_id(m.files, g));
                let k = choose|k: int| 0 <= k < m.files.len() && m.files[k].id == g;
                assert(m.files[fi].id == file_id);
                if k < fi {
                    assert(m2.files[k].id == g);
                } else {
                    assert(k > fi);
                    assert(m2.files[k - 1].id == g);
                }
            }
        } else {
            let m2 = unbind_outcome(m, bucket_id, file_id)->Ok_0;
            assert(m2.bucket_files == bfs);
            assert forall|i: int| 0 <= i < m2.bucket_files.len() implies exists_file_with_id(
                m2.files,
                (#[trigger] m2.bucket_files[i]).file_id,
            ) by {
                let j = choose|j: int|
                    0 <= j < m.bucket_files.len() && m.bucket_files[j] == m2.bucket_files[i];
                assert(exists_file_with_id(m.files, m.bucket_files[j].file_id));
            }
        }
    }
}

/// Whether some upload token carries this identifier.
pub open spec fn exists_upload_key(uks: Seq<UploadKeyModel>, id: u128) -> bool {
    exists|i: int| 0 <= i < uks.len() && uks[i].id == id
}

/// The index of the upload token carrying this identifier (unique in a
/// well-formed store).
pub open spec fn upload_key_index(uks: Seq<UploadKeyModel>, id: u128) -> int {
    choose|i: int| 0 <= i < uks.len() && uks[i].id == id
}

/// In a store with unique token identifiers, a token carrying the identifier
/// pins down [`upload_key_index`].
pub proof fn lemma_upload_key_index_is(m: StorageModel, id: u128, i: int)
    requires
        m.unique_upload_key_ids(),
        0 <= i < m.upload_keys.len(),
        m.upload_keys[i].id == id,
    ensures
        exists_upload_key(m.upload_keys, id),
        upload_key_index(m.upload_keys, id) == i,
{
    assert(exists_upload_key(m.upload_keys, id));
    let j = upload_key_index(m.upload_keys, id);
    if i < j {
        assert(m.upload_keys[i].id != m.upload_keys[j].id);
    } else if j < i {
        assert(m.upload_keys[j].id != m.upload_keys[i].id);
    }
}

/// What issuing an upload token does to the store, and the token identifier
/// it answers with.
pub open spec fn issue_upload_key_outcome(m: StorageModel, bucket_id: u128) -> (
    StorageModel,
    u128,
) {
    (
        StorageModel {
            upload_keys: m.upload_keys.push(UploadKeyModel { id: m.next_id, bucket_id }),
            next_id: (m.next_id + 1) as u128,
            ..m
        },
        m.next_id,
    )
}

/// The bucket an upload token stands for, if the token exists. A token is
/// neither consumed nor expired by use.
pub open spec fn redeem_outcome(m: StorageModel, token: u128) -> Option<u128> {
    if exists_upload_key(m.upload_keys, token) {
        Some(m.upload_keys[upload_key_index(m.upload_keys, token)].bucket_id)
    } else {
        None
    }
}

/// What a download answers with: the blob's bytes and stored extension when
/// the bucket holds a binding to it, and the missing-binding error when not.
pub open spec fn download_outcome(m: StorageModel, bucket_id: u128, file_id: u128) -> Result<
    (Seq<u8>, Option<Seq<char>>),
    AppError,
> {
    if exists_binding(m.bucket_files, bucket_id, file_id) && exists_file_with_id(
        m.files,
        file_id,
    ) {
        let fi = file_id_index(m.files, file_id);
        Ok((m.disk[fi].bytes, m.files[fi].extension))
    } else {
        Err(AppError::BindingNotFound)
    }
}

/// How many physical objects hold content with this checksum.
pub open spec fn object_count(disk: Seq<DiskModel>, c: Seq<char>) -> nat {
    disk.filter(|d: DiskModel| sha1_hex(d.bytes) == c).len()
}

/// Whether some physical object carries this blob identifier.
pub open spec fn exists_object_with_id(disk: Seq<DiskModel>, id: u128) -> bool {
    exists|i: int| 0 <= i < disk.len() && disk[i].id == id
}

/// Unfolds [`object_count`] over a pushed element.
pub proof fn lemma_object_count_step(s: Seq<DiskModel>, x: DiskModel, c: Seq<char>)
    ensures
        object_count(s.push(x), c) == object_count(s, c) + (if sha1_hex(x.bytes) == c {
            1int
        } else {
            0int
        }),
{
    reveal(Seq::filter);
    assert(s.push(x).drop_last() =~= s);
    assert(s.push(x).last() == x);
}

/// A sequence of objects none of which holds the content has an
/// [`object_count`] of zero for it.
pub proof fn lemma_object_count_none(s: Seq<DiskModel>, c: Seq<char>)
    requires
        forall|i: int| 0 <= i < s.len() ==> sha1_hex((#[trigger] s[i]).bytes) != c,
    ensures
        object_count(s, c) == 0,
    decreases s.len(),
{
    reveal(Seq::filter);
    if s.len() > 0 {
        let d = s.drop_last();
        assert(s == d.push(s.last()));
        lemma_object_count_step(d, s.last(), c);
        assert forall|i: int| 0 <= i < d.len() implies sha1_hex((#[trigger] d[i]).bytes) != c by {
            assert(d[i] == s[i]);
        }
        lemma_object_count_none(d, c);
        assert(s.last() == s[s.len() - 1]);
    }
}

/// A sequence of objects exactly one of which holds the content has an
/// [`object_count`] of one for it.
pub proof fn lemma_object_count_single(s: Seq<DiskModel>, c: Seq<char>, i: int)
    requires
        0 <= i < s.len(),
        sha1_hex(s[i].bytes) == c,
        forall|j: int| 0 <= j < s.len() && j != i ==> sha1_hex((#[trigger] s[j]).bytes) != c,
    ensures
        object_count(s, c) == 1,
    decreases s.len(),
{
    let d = s.drop_last();
    assert(s == d.push(s.last()));
    lemma_object_count_step(d, s.last(), c);
    assert(s.last() == s[s.len() - 1]);
    if i == s.len() - 1 {
        assert forall|j: int| 0 <= j < d.len() implies sha1_hex((#[trigger] d[j]).bytes) != c by {
            assert(d[j] == s[j]);
        }
        lemma_object_count_none(d, c);
    } else {
        assert(d[i] == s[i]);
        assert forall|j: int| 0 <= j < d.len() && j != i implies sha1_hex((#[trigger] d[j]).bytes)
            != c by {
            assert(d[j] == s[j]);
        }
        lemma_object_count_single(d, c, i);
    }
}

/// A sequence of bindings none of which references the blob has a
/// [`ref_count`] of zero for it.
pub proof fn lemma_ref_count_none(s: Seq<BucketFileModel>, file_id: u128)
    requires
        forall|i: int| 0 <= i < s.len() ==> (#[trigger] s[i]).file_id != file_id,
    ensures
        ref_count(s, file_id) == 0,
    decreases s.len(),
{
    if s.len() == 0 {
        lemma_ref_count_empty(file_id);
    } else {
        let d = s.drop_last();
        assert(s == d.push(s.last()));
        lemma_ref_count_step(d, s.last(), file_id);
        assert forall|i: int| 0 <= i < d.len() implies (#[trigger] d[i]).file_id != file_id by {
            assert(d[i] == s[i]);
        }
        lemma_ref_count_none(d, file_id);
        assert(s.last() == s[s.len() - 1]);
    }
}

/// Every binding that survives [`remove_bindings`] is not a binding of the
/// removed pair.
pub proof fn lemma_remove_bindings_pred(s: Seq<BucketFileModel>, bucket_id: u128, file_id: u128)
    ensures
        forall|i: int|
            0 <= i < remove_bindings(s, bucket_id, file_id).len() ==> !((#[trigger] remove_bindings(
                s,
                bucket_id,
                file_id,
            )[i]).bucket_id == bucket_id && remove_bindings(s, bucket_id, file_id)[i].file_id
                == file_id),
    decreases s.len(),
{
    if s.len() == 0 {
        lemma_remove_bindings_empty(bucket_id, file_id);
    } else {
        let d = s.drop_last();
        assert(s == d.push(s.last()));
        lemma_remove_bindings_step(d, s.last(), bucket_id, file_id);
        lemma_remove_bindings_pred(d, bucket_id, file_id);
    }
}

/// A binding of a different pair survives [`remove_bindings`].
pub proof fn lemma_remove_bindings_keeps(
    s: Seq<BucketFileModel>,
    bucket_id: u128,
    file_id: u128,
    j: int,
)
    requires
        0 <= j < s.len(),
        !(s[j].bucket_id == bucket_id && s[j].file_id == file_id),
    ensures
        exists|i: int|
            0 <= i < remove_bindings(s, bucket_id, file_id).len() && #[trigger] remove_bindings(
                s,
                bucket_id,
                file_id,
            )[i] == s[j],
    decreases s.len(),
{
    let d = s.drop_last();
    assert(s == d.push(s.last()));
    lemma_remove_bindings_step(d, s.last(), bucket_id, file_id);
    let out = remove_bindings(s, bucket_id, file_id);
    let sub = remove_bindings(d, bucket_id, file_id);
    if j == s.len() - 1 {
        assert(s.last() == s[j]);
        assert(out[out.len() - 1] == s[j]);
    } else {
        assert(d[j] == s[j]);
        lemma_remove_bindings_keeps(d, bucket_id, file_id, j);
        let i = choose|i: int| 0 <= i < sub.len() && #[trigger] sub[i] == d[j];
        assert(out[i] == s[j]);
    }
}

/// Law: uploading identical bytes twice — whatever the buckets, names and
/// claimed extensions — answers with the same blob identifier both times,
/// and the store then holds exactly one physical object with that content's
/// checksum.
pub proof fn lemma_upload_dedup(
    m: StorageModel,
    b1: u128,
    n1: Seq<char>,
    e1: Option<Seq<char>>,
    b2: u128,
    n2: Seq<char>,
    e2: Option<Seq<char>>,
    bytes: Seq<u8>,
)
    requires
        m.wf(),
        m.next_id < u128::MAX,
    ensures
        ({
            let first = upload_outcome(m, b1, n1, e1, bytes);
            let second = upload_outcome(first.0, b2, n2, e2, bytes);
            second.1 == first.1 && object_count(second.0.disk, sha1_hex(bytes)) == 1
        }),
{
    let c = sha1_hex(bytes);
    let first = upload_outcome(m, b1, n1, e1, bytes);
    let second = upload_outcome(first.0, b2, n2, e2, bytes);
    lemma_upload_preserves_wf(m, b1, n1, e1, bytes);
    if exists_file_with_checksum(m.files, c) {
        let i = file_index(m.files, c);
        assert(first.0.files == m.files);
        assert(first.0.disk == m.disk);
        assert(second.1 == first.1);
        assert(second.0.disk == m.disk);
        assert forall|j: int| 0 <= j < m.disk.len() && j != i implies sha1_hex(
            (#[trigger] m.disk[j]).bytes,
        ) != c by {
            if m.files[j].checksum == c {
                assert(m.files[i].checksum == m.files[j].checksum);
            }
        }
        assert(sha1_hex(m.disk[i].bytes) == m.files[i].checksum);
        lemma_object_count_single(m.disk, c, i);
    } else {
        let nf = m.files.len() as int;
        assert(first.0.files[nf].checksum == c);
        lemma_file_index_is(first.0, c, nf);
        assert(second.1 == first.0.files[nf].id);
        assert(second.0.disk == first.0.disk);
        assert forall|j: int| 0 <= j < m.disk.len() implies sha1_hex(
            (#[trigger] m.disk[j]).bytes,
        ) != c by {
            if sha1_hex(m.disk[j].bytes) == c {
                assert(m.files[j].checksum == c);
            }
        }
        assert(first.0.disk[nf].bytes == bytes);
        assert forall|j: int| 0 <= j < first.0.disk.len() && j != nf implies sha1_hex(
            (#[trigger] first.0.disk[j]).bytes,
        ) != c by {
            assert(first.0.disk[j] == m.disk[j]);
        }
        lemma_object_count_single(first.0.disk, c, nf);
    }
}

/// Law: uploading two byte sequences with distinct checksums answers with
/// two distinct blob identifiers. (The checksum is collision-resistant;
/// distinct byte sequences whose checksums collide are the one input class
/// this cannot speak for.)
pub proof fn lemma_upload_distinct(
    m: StorageModel,
    b1: u128,
    n1: Seq<char>,
    e1: Option<Seq<char>>,
    bytes1: Seq<u8>,
    b2: u128,
    n2: Seq<char>,
    e2: Option<Seq<char>>,
    bytes2: Seq<u8>,
)
    requires
        m.wf(),
        m.next_id + 1 < u128::MAX,
        sha1_hex(bytes1) != sha1_hex(bytes2),
    ensures
        ({
            let first = upload_outcome(m, b1, n1, e1, bytes1);
            let second = upload_outcome(first.0, b2, n2, e2, bytes2);
            second.1 != first.1
        }),
{
    let c1 = sha1_hex(bytes1);
    let c2 = sha1_hex(bytes2);
    let first = upload_outcome(m, b1, n1, e1, bytes1);
    let second = upload_outcome(first.0, b2, n2, e2, bytes2);
    lemma_upload_preserves_wf(m, b1, n1, e1, bytes1);
    if exists_file_with_checksum(m.files, c1) {
        let i1 = file_index(m.files, c1);
        assert(first.0.files == m.files);
        if exists_file_with_checksum(m.files, c2) {
            let i2 = file_index(m.files, c2);
            assert(m.files[i1].checksum != m.files[i2].checksum);
            assert(i1 != i2);
        } else {
            assert(first.1 == m.files[i1].id);
            assert(m.files[i1].id < m.next_id);
        }
    } else {
        assert(first.1 == m.next_id);
        let nf = m.files.len() as int;
        if exists_file_with_checksum(first.0.files, c2) {
            let i2 = file_index(first.0.files, c2);
            assert(first.0.files[i2].checksum == c2);
            assert(i2 != nf);
            assert(first.0.files[i2] == m.files[i2]);
            assert(m.files[i2].id < m.next_id);
        } else {
            assert(second.1 == first.0.next_id);
        }
    }
}

/// Law: when buckets `a` and `b` are the only holders of bindings to a blob,
/// dropping `a`'s binding leaves `b`'s download working; dropping `b`'s
/// binding afterwards removes the blob's metadata row and its physical
/// object, and downloads by either bucket then report the missing binding.
pub proof fn lemma_shared_blob_lifecycle(m: StorageModel, a: u128, b: u128, f: u128)
    requires
        m.wf(),
        a != b,
        exists_binding(m.bucket_files, a, f),
        exists_binding(m.bucket_files, b, f),
        forall|i: int|
            0 <= i < m.bucket_files.len() && (#[trigger] m.bucket_files[i]).file_id == f
                ==> m.bucket_files[i].bucket_id == a || m.bucket_files[i].bucket_id == b,
    ensures
        unbind_outcome(m, a, f) is Ok,
        ({
            let m1 = unbind_outcome(m, a, f)->Ok_0;
            &&& download_outcome(m1, b, f) is Ok
            &&& unbind_outcome(m1, b, f) is Ok
            &&& ({
                let m2 = unbind_outcome(m1, b, f)->Ok_0;
                &&& download_outcome(m2, a, f) == Err::<(Seq<u8>, Option<Seq<char>>), AppError>(
                    AppError::BindingNotFound,
                )
                &&& download_outcome(m2, b, f) == Err::<(Seq<u8>, Option<Seq<char>>), AppError>(
                    AppError::BindingNotFound,
                )
                &&& !exists_file_with_id(m2.files, f)
                &&& !exists_object_with_id(m2.disk, f)
            })
        }),
{
    lemma_unbind_preserves_wf(m, a, f);
    let bfs1 = remove_bindings(m.bucket_files, a, f);
    // b's binding survives a's unbind, so the blob keeps a reference
    let jb = choose|j: int|
        0 <= j < m.bucket_files.len() && m.bucket_files[j].bucket_id == b && m.bucket_files[j].file_id
            == f;
    lemma_remove_bindings_keeps(m.bucket_files, a, f, jb);
    let kb = choose|i: int| 0 <= i < bfs1.len() && #[trigger] bfs1[i] == m.bucket_files[jb];
    if ref_count(bfs1, f) == 0 {
        lemma_ref_count_zero(bfs1, f);
        assert(bfs1[kb].file_id != f);
        assert(false);
    }
    let m1 = unbind_outcome(m, a, f)->Ok_0;
    assert(m1.bucket_files == bfs1);
    assert(m1.files == m.files);
    assert(m1.disk == m.disk);
    assert(exists_binding(m1.bucket_files, b, f));
    // the blob's row is still there, so b can download
    let ja = choose|j: int|
        0 <= j < m.bucket_files.len() && m.bucket_files[j].bucket_id == a && m.bucket_files[j].file_id
            == f;
    assert(exists_file_with_id(m.files, m.bucket_files[ja].file_id));
    assert(download_outcome(m1, b, f) is Ok);
    // b's unbind drops the last reference
    lemma_unbind_preserves_wf(m1, b, f);
    let bfs2 = remove_bindings(m1.bucket_files, b, f);
    lemma_remove_bindings_pred(m.bucket_files, a, f);
    lemma_remove_bindings_pred(m1.bucket_files, b, f);
    lemma_remove_bindings_sub(m.bucket_files, a, f);
    lemma_remove_bindings_sub(m1.bucket_files, b, f);
    assert forall|i: int| 0 <= i < bfs2.len() implies (#[trigger] bfs2[i]).file_id != f by {
        if bfs2[i].file_id == f {
            let j1 = choose|j: int| 0 <= j < bfs1.len() && #[trigger] bfs1[j] == bfs2[i];
            let j0 = choose|j: int|
                0 <= j < m.bucket_files.len() && #[trigger] m.bucket_files[j] == bfs1[j1];
            assert(m.bucket_files[j0].bucket_id == a || m.bucket_files[j0].bucket_id == b);
            assert(!(bfs1[j1].bucket_id == a && bfs1[j1].file_id == f));
            assert(!(bfs2[i].bucket_id == b && bfs2[i].file_id == f));
        }
    }
    lemma_ref_count_none(bfs2, f);
    let fi = file_id_index(m1.files, f);
    let m2 = unbind_outcome(m1, b, f)->Ok_0;
    assert(m2.files == m1.files.remove(fi));
    assert(m2.disk == m1.disk.remove(fi));
    m1.files.remove_ensures(fi);
    m1.disk.remove_ensures(fi);
    assert(m1.files[fi].id == f);
    // no file row, and no physical object, carries the blob's identifier now
    assert forall|i: int| 0 <= i < m2.files.len() implies (#[trigger] m2.files[i]).id != f by {
        let i0 = if i < fi {
            i
        } else {
            i + 1
        };
        assert(m2.files[i] == m1.files[i0]);
        if m1.files[i0].id == f {
            if i0 < fi {
                assert(m1.files[i0].id != m1.files[fi].id);
            } else {
                assert(m1.files[fi].id != m1.files[i0].id);
            }
        }
    }
    assert forall|i: int| 0 <= i < m2.disk.len() implies (#[trigger] m2.disk[i]).id != f by {
        let i0 = if i < fi {
            i
        } else {
            i + 1
        };
        assert(m2.disk[i] == m1.disk[i0]);
        assert(m1.disk[i0].id == m1.files[i0].id);
        if i0 != fi && m1.files[i0].id == f {
            if i0 < fi {
                assert(m1.files[i0].id != m1.files[fi].id);
            } else {
                assert(m1.files[fi].id != m1.files[i0].id);
            }
        }
    }
    assert(!exists_file_with_id(m2.files, f));
    assert(download_outcome(m2, a, f) is Err);
    assert(download_outcome(m2, b, f) is Err);
}

/// The character for one hexadecimal digit.
pub open spec fn nibble_char(d: u8) -> char
    recommends
        d < 16,
{
    "0123456789abcdef"@[d as int]
}

/// The low `k` hexadecimal digits of a value, most significant first.
pub open spec fn hex_of(v: int, k: nat) -> Seq<char>
    decreases k,
{
    if k == 0 {
        Seq::empty()
    } else {
        hex_of(v / 16, (k - 1) as nat).push(nibble_char((v % 16) as u8))
    }
}

/// The low `k` hexadecimal digits of a value, most significant first.
fn hex_digits(v: u128, k: usize) -> (r: String)
    ensures
        r@ == hex_of(v as int, k as nat),
    decreases k,
{
    if k == 0 {
        String::new()
    } else {
        let mut s = hex_digits(v / 16, k - 1);
        let d = (v % 16) as usize;
        let hex = "0123456789abcdef";
        proof {
            reveal_strlit("0123456789abcdef");
        }
        let piece = hex.substring_ascii(d, d + 1);
        s.append(piece);
        proof {
            assert(s@ =~= hex_of(v as int, k as nat));
        }
        s
    }
}

/// Where a blob lives, relative to the storage root: its identifier in
/// hexadecimal, with the extension appended when there is one.
pub open spec fn store_file_path(id: u128, extension: Option<Seq<char>>) -> Seq<char> {
    match extension {
        None => hex_of(id as int, 32),
        Some(e) => hex_of(id as int, 32) + "."@ + e,
    }
}

/// A blob's coordinates on the filesystem: its identifier and extension.
pub struct StoreFile {
    pub id: u128,
    pub extension: Option<String>,
}

impl StoreFile {
    /// Wraps an identifier and extension.
    pub fn new(id: u128, extension: Option<String>) -> (r: StoreFile)
        ensures
            r.id == id,
            r.extension == extension,
    {
        Self { id, extension }
    }

    /// The blob's file name: deterministic in the identifier and extension,
    /// independent of any bucket.
    pub fn path(&self) -> (r: String)
        ensures
            r@ == store_file_path(self.id, self.extension.deep_view()),
    {
        let mut s = hex_digits(self.id, 32);
        match &self.extension {
            Some(ext) => {
                s.append(".");
                s.append(ext.as_str());
            },
            None => {},
        }
        s
    }
}

/// The physical side of the store: it turns blob coordinates into the one
/// path under the storage root where the blob's bytes live.
pub struct Store {}

impl Store {
    /// The store at the fixed storage root.
    pub fn new() -> (r: Store) {
        Self {}
    }

    /// Prefixes a blob's file name with the storage root.
    pub fn path(&self, other: String) -> (r: String)
        ensures
            r@ == "./store/"@ + other@,
    {
        let mut s = String::from_str("./store/");
        s.append(other.as_str());
        s
    }
}

/// The response content type served with an extension: the two image kinds
/// are tagged, everything else is served untagged.
pub open spec fn spec_content_type(extension: Option<Seq<char>>) -> Option<Seq<char>> {
    match extension {
        Some(e) => if e == "png"@ {
            Some("image/png"@)
        } else if e == "jpg"@ {
            Some("image/jpg"@)
        } else {
            None
        },
        None => None,
    }
}

/// The response content type served with an extension.
pub fn content_type(extension: &Option<String>) -> (r: Option<&'static str>)
    ensures
        r.deep_view() == spec_content_type(extension.deep_view()),
{
    match extension {
        Some(e) => {
            if *e == String::from_str("png") {
                Some("image/png")
            } else if *e == String::from_str("jpg") {
                Some("image/jpg")
            } else {
                None
            }
        },
        None => None,
    }
}

/// One decoded part of a multipart upload: the client's file name, if any,
/// and the content bytes.
pub struct MultipartFile {
    pub file_name: Option<String>,
    pub bytes: Vec<u8>,
}

/// Mathematical image of [`MultipartFile`].
pub ghost struct MultipartFileModel {
    pub file_name: Option<Seq<char>>,
    pub bytes: Seq<u8>,
}

impl View for MultipartFile {
    type V = MultipartFileModel;

    open spec fn view(&self) -> MultipartFileModel {
        MultipartFileModel { file_name: self.file_name.deep_view(), bytes: self.bytes@ }
    }
}

/// The mathematical image of a sequence of multipart parts.
pub open spec fn parts_model(parts: Seq<MultipartFile>) -> Seq<MultipartFileModel> {
    parts.map_values(|p: MultipartFile| p@)
}

/// How a client file name splits into a stored name and extension: at the
/// last `.`, when there is one.
pub open spec fn split_filename(name: Seq<char>) -> (Seq<char>, Option<Seq<char>>) {
    if crate::text::has_char(name, '.') {
        let i = crate::text::last_char_index(name, '.');
        (name.subrange(0, i), Some(name.subrange(i + 1, name.len() as int)))
    } else {
        (name, None)
    }
}

/// What a whole multipart upload does to the store, and the blob identifiers
/// it answers with, one per named part, in part order. Parts without a file
/// name are skipped.
pub open spec fn multipart_outcome(
    m: StorageModel,
    parts: Seq<MultipartFileModel>,
    bucket_id: u128,
) -> (StorageModel, Seq<u128>)
    decreases parts.len(),
{
    if parts.len() == 0 {
        (m, Seq::empty())
    } else {
        match parts[0].file_name {
            None => multipart_outcome(m, parts.drop_first(), bucket_id),
            Some(fname) => {
                let split = split_filename(fname);
                let step = upload_outcome(m, bucket_id, split.0, split.1, parts[0].bytes);
                let rest = multipart_outcome(step.0, parts.drop_first(), bucket_id);
                (rest.0, seq![step.1] + rest.1)
            },
        }
    }
}

/// Splits a client file name into a stored name and extension at the last
/// `.`, when there is one.
pub fn split_file_name(file_name: &str) -> (r: (String, Option<String>))
    ensures
        r.0@ == split_filename(file_name@).0,
        r.1.deep_view() == split_filename(file_name@).1,
{
    match crate::text::find_last_char(file_name, '.') {
        Some(i) => {
            let n = file_name.unicode_len();
            let base = file_name.substring_char(0, i).to_owned();
            let ext = file_name.substring_char(i + 1, n).to_owned();
            (base, Some(ext))
        },
        None => (file_name.to_owned(), None),
    }
}

/// Copies an optional extension.
fn clone_extension(e: &Option<String>) -> (r: Option<String>)
    ensures
        r == *e,
{
    match e {
        Some(s) => Some(s.clone()),
        None => None,
    }
}

/// Copies a byte vector.
fn copy_bytes(src: &Vec<u8>) -> (r: Vec<u8>)
    ensures
        r@ == src@,
{
    let n = src.len();
    let mut out: Vec<u8> = Vec::new();
    let mut i: usize = 0;
    while i < n
        invariant
            i <= n,
            n == src.len(),
            out@ == src@.subrange(0, i as int),
        decreases n - i,
    {
        out.push(src[i]);
        proof {
            assert(out@ =~= src@.subrange(0, i + 1));
        }
        i += 1;
    }
    proof {
        assert(src@.subrange(0, n as int) =~= src@);
    }
    out
}

/// The answer to a download: the blob's bytes and its stored extension.
#[derive(Debug)]
pub struct FileDownload {
    pub bytes: Vec<u8>,
    pub extension: Option<String>,
}

/// The store itself: metadata tables, physical objects, and the identifier
/// allocator. All coordination goes through one value of this type: every
/// operation takes it exclusively, so each is one atomic transition — in
/// particular the checksum lookup and blob insert of an upload, and the
/// reference check and purge of a delete, cannot interleave with another
/// operation.
pub struct Storage {
    pub buckets: Vec<BucketRow>,
    pub keys: Vec<KeyRow>,
    pub files: Vec<FileRow>,
    pub bucket_files: Vec<BucketFileRow>,
    pub upload_keys: Vec<UploadKeyRow>,
    pub disk: Vec<StoredObject>,
    pub next_id: u128,
}

impl View for Storage {
    type V = StorageModel;

    open spec fn view(&self) -> StorageModel {
        StorageModel {
            buckets: self.buckets@.map_values(|r: BucketRow| r@),
            keys: self.keys@.map_values(|r: KeyRow| r@),
            files: self.files@.map_values(|r: FileRow| r@),
            bucket_files: self.bucket_files@.map_values(|r: BucketFileRow| r@),
            upload_keys: self.upload_keys@.map_values(|r: UploadKeyRow| r@),
            disk: self.disk@.map_values(|r: StoredObject| r@),
            next_id: self.next_id,
        }
    }
}

impl Storage {
    /// A store with nothing in it.
    pub fn new() -> (s: Storage)
        ensures
            s@ == StorageModel::empty(),
            s@.wf(),
    {
        let s = Storage {
            buckets: Vec::new(),
            keys: Vec::new(),
            files: Vec::new(),
            bucket_files: Vec::new(),
            upload_keys: Vec::new(),
            disk: Vec::new(),
            next_id: 0,
        };
        proof {
            assert(s@ =~= StorageModel::empty());
        }
        s
    }

    /// Stores one named byte object for the bucket and answers with the blob
    /// identifier it resolved to. Identical content is deduplicated: it
    /// resolves to the existing blob and writes nothing new; fresh content
    /// gets a new blob row and a new physical object. A binding for the
    /// bucket is created either way.
    pub fn upload_file(
        &mut self,
        bucket_id: u128,
        name: String,
        extension: Option<String>,
        bytes: Vec<u8>,
    ) -> (r: u128)
        requires
            old(self)@.wf(),
            old(self).next_id < u128::MAX,
        ensures
            final(self)@ == upload_outcome(
                old(self)@,
                bucket_id,
                name@,
                extension.deep_view(),
                bytes@,
            ).0,
            r == upload_outcome(old(self)@, bucket_id, name@, extension.deep_view(), bytes@).1,
            final(self)@.wf(),
    {
        let ghost m = old(self)@;
        let ghost name_m = name@;
        let ghost ext_m = extension.deep_view();
        let ghost bytes_m = bytes@;
        proof {
            lemma_upload_preserves_wf(m, bucket_id, name_m, ext_m, bytes_m);
        }
        let checksum = get_cheksum(bytes.as_slice());
        let n = self.files.len();
        let mut idx: Option<usize> = None;
        let mut i: usize = 0;
        while i < n
            invariant
                i <= n,
                n == self.files.len(),
                idx is None ==> forall|k: int| 0 <= k < i ==> self@.files[k].checksum != checksum@,
                idx matches Some(j) ==> j < n && self@.files[j as int].checksum == checksum@,
            decreases n - i,
        {
            if idx.is_none() && self.files[i].checksum == checksum {
                idx = Some(i);
            }
            i += 1;
        }
        match idx {
            Some(j) => {
                let id = self.files[j].id;
                self.bucket_files.push(BucketFileRow { bucket_id, file_id: id, name });
                proof {
                    lemma_file_index_is(m, sha1_hex(bytes_m), j as int);
                    assert(self@ =~= upload_outcome(m, bucket_id, name_m, ext_m, bytes_m).0);
                }
                id
            },
            None => {
                let id = self.next_id;
                let row_extension = clone_extension(&extension);
                self.files.push(FileRow { id, checksum, extension: row_extension });
                self.disk.push(StoredObject { id, extension, bytes });
                self.bucket_files.push(BucketFileRow { bucket_id, file_id: id, name });
                self.next_id = id + 1;
                proof {
                    assert(!exists_file_with_checksum(m.files, sha1_hex(bytes_m)));
                    assert(self@ =~= upload_outcome(m, bucket_id, name_m, ext_m, bytes_m).0);
                }
                id
            },
        }
    }

    /// Whether the bucket holds a binding to the blob.
    fn has_binding(&self, bucket_id: u128, file_id: u128) -> (r: bool)
        ensures
            r == exists_binding(self@.bucket_files, bucket_id, file_id),
    {
        let n = self.bucket_files.len();
        let mut found = false;
        let mut i: usize = 0;
        while i < n
            invariant
                i <= n,
                n == self.bucket_files.len(),
                found ==> exists_binding(self@.bucket_files, bucket_id, file_id),
                !found ==> forall|k: int|
                    0 <= k < i ==> !((#[trigger] self@.bucket_files[k]).bucket_id == bucket_id
                        && self@.bucket_files[k].file_id == file_id),
            decreases n - i,
        {
            let row = &self.bucket_files[i];
            if !found && row.bucket_id == bucket_id && row.file_id == file_id {
                found = true;
                proof {
                    assert(self@.bucket_files[i as int].bucket_id == bucket_id
                        && self@.bucket_files[i as int].file_id == file_id);
                }
            }
            i += 1;
        }
        found
    }

    /// The position of the file row carrying the identifier.
    fn find_file_by_id(&self, file_id: u128) -> (fi: usize)
        requires
            self@.unique_file_ids(),
            exists_file_with_id(self@.files, file_id),
        ensures
            fi < self.files.len(),
            self@.files[fi as int].id == file_id,
            file_id_index(self@.files, file_id) == fi,
    {
        let n = self.files.len();
        let mut i: usize = 0;
        while i < n
            invariant
                i <= n,
                n == self.files.len(),
                self@.unique_file_ids(),
                exists_file_with_id(self@.files, file_id),
                forall|k: int| 0 <= k < i ==> (#[trigger] self@.files[k]).id != file_id,
            decreases n - i,
        {
            if self.files[i].id == file_id {
                proof {
                    lemma_file_id_index_is(self@, file_id, i as int);
                }
                return i;
            }
            i += 1;
        }
        proof {
            let w = choose|k: int|
                0 <= k < self@.files.len() && self@.files[k].id == file_id;
            assert(false);
        }
        0
    }

    /// Drops every binding the bucket holds to the blob; when that leaves the
    /// blob unreferenced, its metadata row and its physical bytes are purged
    /// with it. The check that the dropped reference was the last and the
    /// purge happen in one step over the store, so no two removers of the
    /// same blob can both observe a last reference.
    pub fn delete(&mut self, bucket_id: u128, file_id: u128) -> (r: Result<(), AppError>)
        requires
            old(self)@.wf(),
        ensures
            final(self)@.wf(),
            match unbind_outcome(old(self)@, bucket_id, file_id) {
                Ok(m2) => r is Ok && final(self)@ == m2,
                Err(e) => (r matches Err(a) && a == e) && final(self)@ == old(self)@,
            },
    {
        let ghost m = old(self)@;
        proof {
            lemma_unbind_preserves_wf(m, bucket_id, file_id);
        }
        if !self.has_binding(bucket_id, file_id) {
            return Err(AppError::DeleteBindingNotFound);
        }
        proof {
            let j = choose|j: int|
                0 <= j < m.bucket_files.len() && m.bucket_files[j].bucket_id == bucket_id
                    && m.bucket_files[j].file_id == file_id;
            assert(exists_file_with_id(m.files, m.bucket_files[j].file_id));
        }
        let nb = self.bucket_files.len();
        let mut kept: Vec<BucketFileRow> = Vec::new();
        let mut refs: usize = 0;
        let mut i: usize = 0;
        proof {
            lemma_remove_bindings_empty(bucket_id, file_id);
            lemma_ref_count_empty(file_id);
            assert(self@.bucket_files.subrange(0, 0) =~= Seq::<BucketFileModel>::empty());
        }
        while i < nb
            invariant
                i <= nb,
                nb == self.bucket_files.len(),
                kept@.map_values(|r: BucketFileRow| r@) == remove_bindings(
                    self@.bucket_files.subrange(0, i as int),
                    bucket_id,
                    file_id,
                ),
                refs <= i,
                refs == ref_count(
                    remove_bindings(self@.bucket_files.subrange(0, i as int), bucket_id, file_id),
                    file_id,
                ),
            decreases nb - i,
        {
            let ghost pre = self@.bucket_files.subrange(0, i as int);
            let ghost xm = self@.bucket_files[i as int];
            proof {
                assert(self@.bucket_files.subrange(0, i + 1) =~= pre.push(xm));
                lemma_remove_bindings_step(pre, xm, bucket_id, file_id);
                lemma_ref_count_step(remove_bindings(pre, bucket_id, file_id), xm, file_id);
            }
            let row = &self.bucket_files[i];
            if !(row.bucket_id == bucket_id && row.file_id == file_id) {
                let row_file_id = row.file_id;
                kept.push(
                    BucketFileRow {
                        bucket_id: row.bucket_id,
                        file_id: row_file_id,
                        name: row.name.clone(),
                    },
                );
                if row_file_id == file_id {
                    refs += 1;
                }
                proof {
                    assert(kept@.map_values(|r: BucketFileRow| r@) =~= remove_bindings(
                        pre.push(xm),
                        bucket_id,
                        file_id,
                    ));
                }
            }
            i += 1;
        }
        proof {
            assert(self@.bucket_files.subrange(0, nb as int) =~= m.bucket_files);
        }
        self.bucket_files = kept;
        if refs == 0 {
            let fi = self.find_file_by_id(file_id);
            proof {
                lemma_file_id_index_is(m, file_id, fi as int);
            }
            self.files.remove(fi);
            self.disk.remove(fi);
            proof {
                assert(self@ =~= unbind_outcome(m, bucket_id, file_id)->Ok_0);
            }
        } else {
            proof {
                assert(self@ =~= unbind_outcome(m, bucket_id, file_id)->Ok_0);
            }
        }
        Ok(())
    }

    /// Reads the blob's bytes and stored extension, provided the bucket holds
    /// a binding to it.
    pub fn download(&self, bucket_id: u128, file_id: u128) -> (r: Result<FileDownload, AppError>)
        requires
            self@.wf(),
        ensures
            match download_outcome(self@, bucket_id, file_id) {
                Ok(p) => r matches Ok(d) && d.bytes@ == p.0 && d.extension.deep_view() == p.1,
                Err(e) => r matches Err(a) && a == e,
            },
    {
        if !self.has_binding(bucket_id, file_id) {
            return Err(AppError::BindingNotFound);
        }
        proof {
            let j = choose|j: int|
                0 <= j < self@.bucket_files.len() && self@.bucket_files[j].bucket_id == bucket_id
                    && self@.bucket_files[j].file_id == file_id;
            assert(exists_file_with_id(self@.files, self@.bucket_files[j].file_id));
        }
        let fi = self.find_file_by_id(file_id);
        let bytes = copy_bytes(&self.disk[fi].bytes);
        let extension = clone_extension(&self.files[fi].extension);
        Ok(FileDownload { bytes, extension })
    }

    /// Issues an upload token scoped to the bucket and answers with the token
    /// identifier. The token does not expire and is not consumed by use.
    pub fn upload_url(&mut self, bucket_id: u128) -> (r: u128)
        requires
            old(self)@.wf(),
            old(self).next_id < u128::MAX,
        ensures
            final(self)@ == issue_upload_key_outcome(old(self)@, bucket_id).0,
            r == issue_upload_key_outcome(old(self)@, bucket_id).1,
            final(self)@.wf(),
    {
        let ghost m = old(self)@;
        let id = self.next_id;
        self.upload_keys.push(UploadKeyRow { id, bucket_id });
        self.next_id = id + 1;
        proof {
            let m2 = issue_upload_key_outcome(m, bucket_id).0;
            assert(self@ =~= m2);
            assert forall|i: int, j: int| 0 <= i < j < m2.upload_keys.len() implies m2
                .upload_keys[i].id != m2.upload_keys[j].id by {
                if j < m.upload_keys.len() {
                    assert(m.upload_keys[i].id != m.upload_keys[j].id);
                } else {
                    assert(m.upload_keys[i].id < m.next_id);
                }
            }
            assert forall|i: int| 0 <= i < m2.upload_keys.len() implies #[trigger] m2
                .upload_keys[i].id < m2.next_id by {
                if i < m.upload_keys.len() {
                    assert(m.upload_keys[i].id < m.next_id);
                }
            }
        }
        id
    }

    /// The bucket an upload token stands for, if the token exists.
    pub fn redeem(&self, token: u128) -> (r: Option<u128>)
        requires
            self@.wf(),
        ensures
            r == redeem_outcome(self@, token),
    {
        let n = self.upload_keys.len();
        let mut i: usize = 0;
        while i < n
            invariant
                i <= n,
                n == self.upload_keys.len(),
                self@.wf(),
                forall|k: int| 0 <= k < i ==> (#[trigger] self@.upload_keys[k]).id != token,
            decreases n - i,
        {
            let row = &self.upload_keys[i];
            if row.id == token {
                let b = row.bucket_id;
                proof {
                    lemma_upload_key_index_is(self@, token, i as int);
                }
                return Some(b);
            }
            i += 1;
        }
        proof {
            assert(!exists_upload_key(self@.upload_keys, token));
        }
        None
    }
}

/// Stores every named part of a multipart upload for the bucket and answers
/// with the blob identifiers, one per named part, in part order. Parts
/// without a file name are skipped.
pub fn save_multipart(storage: &mut Storage, parts: Vec<MultipartFile>, bucket_id: u128) -> (r:
    Vec<u128>)
    requires
        old(storage)@.wf(),
        old(storage).next_id + parts@.len() <= u128::MAX,
    ensures
        final(storage)@ == multipart_outcome(old(storage)@, parts_model(parts@), bucket_id).0,
        r@ == multipart_outcome(old(storage)@, parts_model(parts@), bucket_id).1,
        final(storage)@.wf(),
{
    let ghost m = old(storage)@;
    let ghost pm = parts_model(parts@);
    let n = parts.len();
    let mut ids: Vec<u128> = Vec::new();
    let mut i: usize = 0;
    proof {
        assert(pm.skip(0) =~= pm);
    }
    while i < n
        invariant
            i <= n,
            n == parts.len(),
            pm == parts_model(parts@),
            storage@.wf(),
            storage.next_id + (n - i) <= u128::MAX,
            multipart_outcome(m, pm, bucket_id).0 == multipart_outcome(
                storage@,
                pm.skip(i as int),
                bucket_id,
            ).0,
            multipart_outcome(m, pm, bucket_id).1 == ids@ + multipart_outcome(
                storage@,
                pm.skip(i as int),
                bucket_id,
            ).1,
        decreases n - i,
    {
        let ghost rem = pm.skip(i as int);
        proof {
            assert(rem[0] == pm[i as int]);
            assert(rem.drop_first() =~= pm.skip(i + 1));
        }
        let part = &parts[i];
        match &part.file_name {
            Some(fname) => {
                let (base, ext) = split_file_name(fname.as_str());
                let bytes = copy_bytes(&part.bytes);
                let id = storage.upload_file(bucket_id, base, ext, bytes);
                let ghost ids0 = ids@;
                ids.push(id);
                proof {
                    assert(ids0 + (seq![id] + multipart_outcome(
                        storage@,
                        pm.skip(i + 1),
                        bucket_id,
                    ).1) =~= ids0.push(id) + multipart_outcome(storage@, pm.skip(i + 1), bucket_id).1);
                }
            },
            None => {
            },
        }
        i += 1;
    }
    proof {
        assert(pm.skip(n as int) =~= Seq::<MultipartFileModel>::empty());
        assert(ids@ + Seq::<u128>::empty() =~= ids@);
    }
    ids
}

/// Stores a multipart upload for the authenticated bucket, answering with
/// the blob identifiers, one per named part, in part order.
pub fn upload(storage: &mut Storage, claims: &Claims, parts: Vec<MultipartFile>) -> (r: Vec<u128>)
    requires
        old(storage)@.wf(),
        old(storage).next_id + parts@.len() <= u128::MAX,
    ensures
        final(storage)@ == multipart_outcome(
            old(storage)@,
            parts_model(parts@),
            claims.bucket_id,
        ).0,
        r@ == multipart_outcome(old(storage)@, parts_model(parts@), claims.bucket_id).1,
        final(storage)@.wf(),
{
    save_multipart(storage, parts, claims.bucket_id)
}

/// Stores a multipart upload under the bucket an upload token stands for,
/// answering with the blob identifiers, or reports the invalid token.
pub fn upload_with_key(storage: &mut Storage, upload_id: u128, parts: Vec<MultipartFile>) -> (r:
    Result<Vec<u128>, AppError>)
    requires
        old(storage)@.wf(),
        old(storage).next_id + parts@.len() <= u128::MAX,
    ensures
        final(storage)@.wf(),
        match redeem_outcome(old(storage)@, upload_id) {
            Some(b) => (r matches Ok(ids) && ids@ == multipart_outcome(
                old(storage)@,
                parts_model(parts@),
                b,
            ).1) && final(storage)@ == multipart_outcome(old(storage)@, parts_model(parts@), b).0,
            None => (r matches Err(e) && e == AppError::InvalidToken) && final(storage)@ == old(
                storage,
            )@,
        },
{
    match storage.redeem(upload_id) {
        Some(bucket_id) => Ok(save_multipart(storage, parts, bucket_id)),
        None => Err(AppError::InvalidToken),
    }
}

} // verus!

