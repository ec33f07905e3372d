//! The record table: every record of the store, the free space of the
//! backing store, and the keys that protect both.
use vstd::prelude::*;
use std::collections::HashSet;
use vstd::std_specs::iter::IteratorSpec;
use vstd::string::StringSliceAdditionalSpecFns;
use crate::error::{ErrorView, StoreError};
use crate::filetime::FileTimes;
use crate::crypto::{
    aes256gcm_open, aes256gcm_seal, aes_decrypt, aes_encrypt, argon2_derive, argon2_key,
    argon2_phc, argon2_phc_string, random_key, random_nonce, snappy_decompress,
    snappy_decompress_vec, ARGON2_MAX_PASSWORD, random_bytes, snappy_bound, snappy_compress, snappy_compress_vec,
    xxh3_64, xxh3_64_hash, AES_MAX_PLAINTEXT, AES_TAG_LEN, SNAPPY_MAX_INPUT,
};
use crate::fragments::{
    allocate, allocate_spec, extents_fit, fragments_view, merge_fragments, merge_spec, release,
    release_spec, sizes_increasing, FragmentsView,
};
use crate::record::{
    empty_record_view, ids_below, lemma_listing_ops, lemma_listing_remove_get, listing_get, listing_ids, listing_insert, listing_remove,
    names_distinct, DirectoryRecord,
    FileRecord, InnerView, Listing, Record, RecordInner, RecordView,
};

verus! {

broadcast use vstd::std_specs::hash::group_hash_axioms;

/// The table's bookkeeping, kept encrypted on disk between sessions.
#[derive(Debug)]
pub struct Meta {
    /// Records by id.
    pub entries: Vec<Record>,
    /// Free extents of the backing store, grouped by size.
    pub free_fragments: Vec<(usize, Vec<usize>)>,
    /// Ids of deleted records, to be used again.
    pub empty_records: Vec<usize>,
    /// Where the used part of the backing store ends.
    pub end_offset: usize,
    /// Ids of pinned records.
    pub pinned: HashSet<usize>,
}

/// The bookkeeping as a mathematical value.
pub struct MetaView {
    pub entries: Seq<RecordView>,
    pub free_fragments: FragmentsView,
    pub empty_records: Seq<usize>,
    pub end_offset: usize,
    pub pinned: Set<usize>,
}

/// The views of a sequence of records.
pub open spec fn records_view(v: Seq<Record>) -> Seq<RecordView> {
    v.map_values(|r: Record| r@)
}

/// Replacing one record replaces its view.
pub proof fn lemma_records_view_update(s: Seq<Record>, i: int)
    requires
        0 <= i < s.len(),
    ensures
        forall|r: Record| #[trigger] records_view(s.update(i, r)) == records_view(s).update(i, r@),
        records_view(s).update(i, s[i]@) == records_view(s),
{
    assert(records_view(s).update(i, s[i]@) =~= records_view(s));
    assert forall|r: Record| #[trigger] records_view(s.update(i, r)) == records_view(s).update(i, r@) by {
        assert(records_view(s.update(i, r)) =~= records_view(s).update(i, r@));
    }
}

/// Giving a record a directory listing whose names are distinct and whose ids
/// name records keeps the bookkeeping well formed.
pub proof fn lemma_wf_set_listing(m: MetaView, i: int, l: Listing)
    requires
        m.wf(),
        0 <= i < m.entries.len(),
        names_distinct(l),
        ids_below(l, m.entries.len() as int),
    ensures
        (MetaView {
            entries: m.entries.update(i, RecordView { inner: InnerView::Directory(l), ..m.entries[i] }),
            ..m
        }).wf(),
{
    let e = m.entries.update(i, RecordView { inner: InnerView::Directory(l), ..m.entries[i] });
    assert forall|k: int| 0 <= k < e.len() implies refs_ok(#[trigger] e[k], e.len() as int) by {
        assert(refs_ok(m.entries[k], m.entries.len() as int));
    }
}

impl View for Meta {
    type V = MetaView;

    open spec fn view(&self) -> MetaView {
        MetaView {
            entries: records_view(self.entries@),
            free_fragments: fragments_view(self.free_fragments@),
            empty_records: self.empty_records@,
            end_offset: self.end_offset,
            pinned: self.pinned@,
        }
    }
}

/// Every id that the record names is below `n`, its directory has no name
/// twice, and its file's extent ends within the range of `usize`.
pub open spec fn refs_ok(r: RecordView, n: int) -> bool {
    &&& r.id < n
    &&& match r.inner {
        InnerView::Directory(l) => names_distinct(l) && ids_below(l, n),
        InnerView::Symlink(s) => s.reference_record_id < n,
        InnerView::File(f) => f.offset + f.len <= usize::MAX,
        InnerView::Empty => true,
    }
}

impl MetaView {
    /// Every id that a record, a directory or the list of reusable ids holds
    /// names a record; free space is grouped by strictly increasing size and
    /// every extent ends within the range of `usize`.
    pub open spec fn wf(self) -> bool {
        &&& forall|i: int| 0 <= i < self.entries.len() ==> refs_ok(#[trigger] self.entries[i], self.entries.len() as int)
        &&& forall|k: int| 0 <= k < self.empty_records.len() ==> #[trigger] self.empty_records[k] < self.entries.len()
        &&& sizes_increasing(self.free_fragments)
        &&& extents_fit(self.free_fragments)
    }
}

/// Every record that `r` refers to (each entry of its directory, the target of
/// its link) has an id below `n`.
pub open spec fn targets_below(r: RecordView, n: int) -> bool {
    match r.inner {
        InnerView::Directory(l) => ids_below(l, n),
        InnerView::Symlink(s) => s.reference_record_id < n,
        _ => true,
    }
}

/// Whether every record that `r` refers to has an id below `n`.
pub fn record_targets_ok(r: &Record, n: usize) -> (b: bool)
    ensures
        b == targets_below(r@, n as int),
{
    match &r.inner {
        RecordInner::Symlink(l) => l.reference_record_id < n,
        RecordInner::Directory(d) => {
            assert(r@.inner == InnerView::Directory(d.listing()));
            let ids = d.ids();
            let mut i: usize = 0;
            while i < ids.len()
                invariant
                    i <= ids.len(),
                    r@.inner == InnerView::Directory(d.listing()),
                    ids@ == listing_ids(d.listing()),
                    forall|j: int| 0 <= j < i ==> #[trigger] d.listing()[j].1 < n,
                decreases ids.len() - i,
            {
                assert(ids@[i as int] == d.listing()[i as int].1);
                if ids[i] >= n {
                    assert(!ids_below(d.listing(), n as int));
                    return false;
                }
                i = i + 1;
            }
            true
        },
        _ => true,
    }
}

/// Whether every id that the record names is below `n`, its directory has no
/// name twice, and its file's extent ends within the range of `usize`.
pub fn record_refs_ok(r: &Record, n: usize) -> (b: bool)
    ensures
        b == refs_ok(r@, n as int),
{
    if r.id >= n {
        return false;
    }
    match &r.inner {
        RecordInner::File(f) => f.offset <= usize::MAX - f.len,
        RecordInner::Directory(d) => {
            assert(r@.inner == InnerView::Directory(d.listing()));
            d.has_distinct_names() && record_targets_ok(r, n)
        },
        _ => record_targets_ok(r, n),
    }
}

impl Meta {
    /// Whether the bookkeeping is well formed.
    pub fn is_well_formed(&self) -> (r: bool)
        ensures
            r == self@.wf(),
    {
        let n = self.entries.len();
        let mut i: usize = 0;
        while i < n
            invariant
                i <= n,
                n == self.entries.len(),
                forall|k: int| 0 <= k < i ==> refs_ok(#[trigger] self@.entries[k], n as int),
            decreases n - i,
        {
            if !record_refs_ok(&self.entries[i], n) {
                assert(self@.entries[i as int] == self.entries@[i as int]@);
                assert(!refs_ok(self@.entries[i as int], n as int));
                return false;
            }
            i = i + 1;
        }
        let mut k: usize = 0;
        while k < self.empty_records.len()
            invariant
                k <= self.empty_records.len(),
                n == self.entries.len(),
                forall|j: int| 0 <= j < k ==> #[trigger] self.empty_records@[j] < n,
            decreases self.empty_records.len() - k,
        {
            if self.empty_records[k] >= n {
                assert(!(self@.empty_records[k as int] < self@.entries.len()));
                return false;
            }
            k = k + 1;
        }
        let ghost fv = self@.free_fragments;
        let mut g: usize = 0;
        while g < self.free_fragments.len()
            invariant
                g <= self.free_fragments.len(),
                fv == self@.free_fragments,
                forall|a: int, b: int| 0 <= a < b < g ==> fv[a].0 < fv[b].0,
                forall|a: int, c: int| 0 <= a < g && 0 <= c < fv[a].1.len() ==> fv[a].1[c] + fv[a].0 <= usize::MAX,
            decreases self.free_fragments.len() - g,
        {
            let size = self.free_fragments[g].0;
            assert(fv[g as int].0 == size);
            if g > 0 && self.free_fragments[g - 1].0 >= size {
                assert(fv[g - 1].0 >= fv[g as int].0);
                assert(!sizes_increasing(fv));
                return false;
            }
            assert forall|a: int| 0 <= a < g implies fv[a].0 < size by {
                if a < g - 1 {
                    assert(fv[a].0 < fv[g - 1].0);
                }
            }
            let offs = &self.free_fragments[g].1;
            assert(fv[g as int] == (size, offs@));
            let mut c: usize = 0;
            while c < offs.len()
                invariant
                    c <= offs.len(),
                    g < fv.len(),
                    fv == self@.free_fragments,
                    fv[g as int] == (size, offs@),
                    forall|x: int| 0 <= x < c ==> offs@[x] + size <= usize::MAX,
                decreases offs.len() - c,
            {
                if offs[c] > usize::MAX - size {
                    assert(fv[g as int].1[c as int] + fv[g as int].0 > usize::MAX);
                    assert(!extents_fit(fv));
                    return false;
                }
                c = c + 1;
            }
            g = g + 1;
        }
        true
    }
}

/// The keys and nonces that protect the store.
#[derive(Clone, Debug, PartialEq, Eq)]
pub struct Crypt {
    /// Salt from which the user's password derives the key that protects the
    /// store key.
    pub user_salt: [u8; 16],
    /// The store key, encrypted under the key derived from the password.
    pub store_key: Vec<u8>,
    /// Nonce of the store key's encryption.
    pub store_nonce: [u8; 12],
    /// Nonce of the bookkeeping's encryption.
    pub meta_nonce: [u8; 12],
}

/// The keys and nonces as mathematical values.
pub struct CryptView {
    pub user_salt: Seq<u8>,
    pub store_key: Seq<u8>,
    pub store_nonce: Seq<u8>,
    pub meta_nonce: Seq<u8>,
}

impl View for Crypt {
    type V = CryptView;

    open spec fn view(&self) -> CryptView {
        CryptView {
            user_salt: self.user_salt@,
            store_key: self.store_key@,
            store_nonce: self.store_nonce@,
            meta_nonce: self.meta_nonce@,
        }
    }
}

/// The records of the store and the key that encrypts file contents.
pub struct RecordTable {
    store_key: [u8; 32],
    working_dir_id: usize,
    meta: Meta,
    crypt: Crypt,
}

/// The table as a mathematical value.
pub struct TableView {
    /// The key that file contents and the bookkeeping are encrypted under.
    pub store_key: Seq<u8>,
    pub working_dir_id: usize,
    pub meta: MetaView,
    pub crypt: CryptView,
}

impl View for RecordTable {
    type V = TableView;

    closed spec fn view(&self) -> TableView {
        TableView {
            store_key: self.store_key@,
            working_dir_id: self.working_dir_id,
            meta: self.meta@,
            crypt: self.crypt@,
        }
    }
}

impl TableView {
    /// The bookkeeping is well formed.
    pub open spec fn wf(self) -> bool {
        self.meta.wf()
    }

    /// The working directory names a record.
    pub open spec fn has_working_dir(self) -> bool {
        self.working_dir_id < self.meta.entries.len()
    }

    /// The working directory names a record, or the record that creating one
    /// adds next after the last record (when no id is reusable).
    pub open spec fn creates_into_working_dir(self) -> bool {
        ||| self.working_dir_id < self.meta.entries.len()
        ||| (self.working_dir_id == self.meta.entries.len() && self.meta.empty_records.len() == 0)
    }

    /// The table with its bookkeeping replaced.
    pub open spec fn with_meta(self, meta: MetaView) -> TableView {
        TableView { meta, ..self }
    }

    /// The table with its records replaced.
    pub open spec fn with_entries(self, entries: Seq<RecordView>) -> TableView {
        TableView { meta: MetaView { entries, ..self.meta }, ..self }
    }
}

/// The view of a result that carries a record.
pub open spec fn record_result_view(r: Result<Record, StoreError>) -> Result<RecordView, ErrorView> {
    match r {
        Ok(x) => Ok(x@),
        Err(e) => Err(e@),
    }
}

/// The view of a result that carries nothing.
pub open spec fn unit_result_view(r: Result<(), StoreError>) -> Result<(), ErrorView> {
    match r {
        Ok(()) => Ok(()),
        Err(e) => Err(e@),
    }
}

/// Times that a clock reading stamps: all three equal.
pub open spec fn stamped(t: FileTimes) -> bool {
    t.created == t.modified && t.modified == t.accessed
}

/// What a new record holds: a file, or an empty directory.
pub open spec fn new_inner(file: Option<FileRecord>) -> InnerView {
    match file {
        Some(f) => InnerView::File(f),
        None => InnerView::Directory(Seq::empty()),
    }
}

/// Creating a record named `name` with contents `inner`, stamped `times`.
///
/// The record gets the most recently freed id, or a new id after the last
/// record; it is stored with id 0. Then the working directory maps `name` to
/// the id, and the stored record takes its id. If the working directory is
/// not a directory, the record stays stored (with id 0) and `NotDirectory` is
/// returned with the working directory's name.
pub open spec fn create_spec(t: TableView, name: Seq<char>, inner: InnerView, times: FileTimes) -> (
    TableView,
    Result<RecordView, ErrorView>,
) {
    let rec = RecordView { id: 0, name, file_times: times, inner };
    let empties = t.meta.empty_records;
    let id: usize = if empties.len() > 0 {
        empties.last()
    } else {
        t.meta.entries.len() as usize
    };
    let e1 = if empties.len() > 0 {
        t.meta.entries.update(id as int, rec)
    } else {
        t.meta.entries.push(rec)
    };
    let m1 = MetaView {
        entries: e1,
        empty_records: if empties.len() > 0 {
            empties.drop_last()
        } else {
            empties
        },
        ..t.meta
    };
    let w = t.working_dir_id as int;
    match e1[w].inner {
        InnerView::Directory(l) => {
            let e2 = e1.update(
                w,
                RecordView { inner: InnerView::Directory(listing_insert(l, name, id)), ..e1[w] },
            );
            let e3 = e2.update(id as int, RecordView { id, ..e2[id as int] });
            (t.with_meta(MetaView { entries: e3, ..m1 }), Ok(RecordView { id, ..rec }))
        },
        _ => (t.with_meta(m1), Err(ErrorView::NotDirectory { name: e1[w].name })),
    }
}

/// Bytes to be written to the backing store at an offset.
#[derive(Clone, Debug, PartialEq, Eq)]
pub struct StoreWrite {
    pub offset: usize,
    pub data: Vec<u8>,
}

/// `file` describes the contents `c` stored as `data` under `key`: the
/// contents are encrypted with the file's nonce and the ciphertext compressed;
/// the compressed form counts as the stored form only where it is shorter than
/// the ciphertext, and `data` is the compressed form either way.
pub open spec fn stored_file(key: Seq<u8>, c: Seq<u8>, file: FileRecord, data: Seq<u8>) -> bool {
    let enc = aes256gcm_seal(key, file.nonce@, c);
    let comp = snappy_compress(enc);
    &&& file.checksum == xxh3_64_hash(c)
    &&& file.size == c.len()
    &&& file.is_compressed == (comp.len() < enc.len())
    &&& file.len == if file.is_compressed {
        comp.len()
    } else {
        enc.len()
    }
    &&& data == comp
    &&& enc.len() == c.len() + AES_TAG_LEN
}

/// Contents of `n` bytes can be stored: their ciphertext is small enough for
/// Snappy.
pub open spec fn storable_len(n: int) -> bool {
    snappy_bound(n + AES_TAG_LEN) <= SNAPPY_MAX_INPUT
}

/// The table after the record `id` was accessed at time `a`.
pub open spec fn accessed_spec(t: TableView, id: int, a: u64) -> TableView {
    let rec = t.meta.entries[id];
    t.with_entries(
        t.meta.entries.update(id, RecordView { file_times: FileTimes { accessed: a, ..rec.file_times }, ..rec }),
    )
}

/// The form in which the contents `c` of `file` are stored under `key`: the
/// compressed ciphertext if the file says it is compressed, else the
/// ciphertext.
pub open spec fn stored_form(key: Seq<u8>, file: FileRecord, c: Seq<u8>) -> Seq<u8> {
    let enc = aes256gcm_seal(key, file.nonce@, c);
    if file.is_compressed {
        snappy_compress(enc)
    } else {
        enc
    }
}

/// The contents `c` are small enough to encrypt, and, where the file says it
/// is compressed, their ciphertext small enough to have been compressed.
pub open spec fn readable_form(key: Seq<u8>, file: FileRecord, c: Seq<u8>) -> bool {
    &&& storable_len(c.len() as int)
    &&& file.is_compressed ==> snappy_bound(aes256gcm_seal(key, file.nonce@, c).len() as int)
        <= SNAPPY_MAX_INPUT
}

/// Reading back the file record `rec` from its stored bytes: decompress them
/// if the file says they are compressed, decrypt, and check the checksum.
pub open spec fn decode_spec(key: Seq<u8>, rec: RecordView, stored: Seq<u8>) -> Result<Seq<u8>, ErrorView> {
    let f = rec.inner->File_0;
    let data = if f.is_compressed {
        snappy_decompress(stored)
    } else {
        Some(stored)
    };
    match data {
        None => Err(ErrorView::Compression),
        Some(d) => match aes256gcm_open(key, f.nonce@, d) {
            None => Err(ErrorView::Cipher),
            Some(p) => if xxh3_64_hash(p) == f.checksum {
                Ok(p)
            } else {
                Err(ErrorView::CorruptedData { name: rec.name, id: rec.id })
            },
        },
    }
}

/// The view of a result that carries bytes.
pub open spec fn bytes_result_view(r: Result<Vec<u8>, StoreError>) -> Result<Seq<u8>, ErrorView> {
    match r {
        Ok(x) => Ok(x@),
        Err(e) => Err(e@),
    }
}

/// The records of the given ids, in order.
pub open spec fn records_at(entries: Seq<RecordView>, ids: Seq<usize>) -> Seq<RecordView> {
    ids.map_values(|j: usize| entries[j as int])
}

/// Renaming the entry `old_name` of the working directory to `new_name`,
/// stamping the record as modified at time `m`.
///
/// The id leaves its old name and takes the new one (replacing what the new
/// name held); the record takes the new name. `NotFound` if the working
/// directory has no entry `old_name`; `NotDirectory` if the working directory
/// is not a directory.
pub open spec fn rename_spec(t: TableView, old_name: Seq<char>, new_name: Seq<char>, m: u64) -> (
    TableView,
    Result<(), ErrorView>,
) {
    let w = t.working_dir_id as int;
    let wd = t.meta.entries[w];
    match wd.inner {
        InnerView::Directory(l) => match listing_get(l, old_name) {
            None => (t, Err(ErrorView::NotFound { name: old_name })),
            Some(id) => {
                let e1 = t.meta.entries.update(
                    w,
                    RecordView {
                        inner: InnerView::Directory(listing_insert(listing_remove(l, old_name), new_name, id)),
                        ..wd
                    },
                );
                let r = e1[id as int];
                let e2 = e1.update(
                    id as int,
                    RecordView {
                        name: new_name,
                        file_times: FileTimes { modified: m, ..r.file_times },
                        ..r
                    },
                );
                (t.with_entries(e2), Ok(()))
            },
        },
        _ => (t, Err(ErrorView::NotDirectory { name: wd.name })),
    }
}

/// Following the directory names `parts` from the record `cur`: the id
/// reached, `NotDirectory` at a record on the way that is not a directory,
/// or `NotFound` (carrying `name`) where a part is missing.
pub open spec fn walk_spec(entries: Seq<RecordView>, cur: usize, parts: Seq<Seq<char>>, name: Seq<char>) -> Result<
    usize,
    ErrorView,
>
    decreases parts.len(),
{
    if parts.len() == 0 {
        Ok(cur)
    } else {
        match entries[cur as int].inner {
            InnerView::Directory(l) => match listing_get(l, parts[0]) {
                Some(next) => walk_spec(entries, next, parts.drop_first(), name),
                None => Err(ErrorView::NotFound { name }),
            },
            _ => Err(ErrorView::NotDirectory { name: entries[cur as int].name }),
        }
    }
}

/// The character sequences of a sequence of strings.
pub open spec fn strings_view(v: Seq<String>) -> Seq<Seq<char>> {
    v.map_values(|s: String| s@)
}

/// Moving the record `rid` from the working directory to the directory that
/// the path `to` names from the root record 0.
///
/// The record's name leaves the working directory (`NotFound` if it is not
/// there), then the path is followed and the target directory maps the
/// record's name to the record's id. Errors on the way leave the name removed.
pub open spec fn send_spec(t: TableView, rid: int, to: Seq<Seq<char>>) -> (TableView, Result<(), ErrorView>) {
    let rec = t.meta.entries[rid];
    let w = t.working_dir_id as int;
    let wd = t.meta.entries[w];
    match wd.inner {
        InnerView::Directory(l) => if listing_get(l, rec.name) is None {
            (t, Err(ErrorView::NotFound { name: rec.name }))
        } else {
            let e1 = t.meta.entries.update(
                w,
                RecordView { inner: InnerView::Directory(listing_remove(l, rec.name)), ..wd },
            );
            match walk_spec(e1, 0, to, rec.name) {
                Err(e) => (t.with_entries(e1), Err(e)),
                Ok(d) => match e1[d as int].inner {
                    InnerView::Directory(l2) => (
                        t.with_entries(
                            e1.update(
                                d as int,
                                RecordView {
                                    inner: InnerView::Directory(listing_insert(l2, rec.name, rec.id)),
                                    ..e1[d as int]
                                },
                            ),
                        ),
                        Ok(()),
                    ),
                    _ => (t.with_entries(e1), Err(ErrorView::NotDirectory { name: e1[d as int].name })),
                },
            }
        },
        _ => (t, Err(ErrorView::NotDirectory { name: wd.name })),
    }
}

/// The size of the record `r`, measured within `fuel` levels of recursion:
/// an empty record has size 0, a file its contents' length, a directory the
/// sum of its entries' sizes in listing order (stopping at the first error),
/// and a link the size of what it refers to; a link marked as a file link to
/// a record that is no file gives `NotFile` with that record's name.
///
/// `None` when the measuring goes deeper than `fuel` or a sum exceeds `usize`.
pub open spec fn size_of(entries: Seq<RecordView>, r: RecordView, fuel: nat) -> Option<Result<usize, ErrorView>>
    decreases fuel, 0nat,
{
    if fuel == 0 {
        None
    } else {
        match r.inner {
            InnerView::Empty => Some(Ok(0)),
            InnerView::File(f) => Some(Ok(f.size)),
            InnerView::Directory(l) => dir_size(entries, listing_ids(l), (fuel - 1) as nat),
            InnerView::Symlink(s) => {
                let target = entries[s.reference_record_id as int];
                if s.is_file {
                    match target.inner {
                        InnerView::File(f) => Some(Ok(f.size)),
                        _ => Some(Err(ErrorView::NotFile { name: target.name })),
                    }
                } else {
                    size_of(entries, target, (fuel - 1) as nat)
                }
            },
        }
    }
}

/// The sum of the sizes of the records `ids`, in order, each measured within
/// `fuel`; the first error stops the sum.
pub open spec fn dir_size(entries: Seq<RecordView>, ids: Seq<usize>, fuel: nat) -> Option<Result<usize, ErrorView>>
    decreases fuel, ids.len() + 1,
{
    if ids.len() == 0 {
        Some(Ok(0))
    } else {
        match dir_size(entries, ids.drop_last(), fuel) {
            Some(Ok(a)) => match size_of(entries, entries[ids.last() as int], fuel) {
                Some(Ok(b)) => if a + b <= usize::MAX {
                    Some(Ok((a + b) as usize))
                } else {
                    None
                },
                other => other,
            },
            other => other,
        }
    }
}

proof fn lemma_dir_size_stops(entries: Seq<RecordView>, ids: Seq<usize>, i: int, fuel: nat)
    requires
        0 <= i <= ids.len(),
        !(dir_size(entries, ids.take(i), fuel) matches Some(Ok(_))),
    ensures
        dir_size(entries, ids, fuel) == dir_size(entries, ids.take(i), fuel),
    decreases ids.len() - i,
{
    if i < ids.len() {
        assert(ids.drop_last().take(i) =~= ids.take(i));
        lemma_dir_size_stops(entries, ids.drop_last(), i, fuel);
    } else {
        assert(ids.take(i) =~= ids);
    }
}

/// What deleting leaves: the table, the extents of the backing store to be
/// overwritten with zeros (in order), and the result.
pub type DeleteOutcome = (TableView, Seq<(usize, usize)>, Result<(), ErrorView>);

/// The last step of deleting the record `rid` (whose copy taken at the start
/// is `rec`) from the table `t`: its name leaves the working directory
/// (`NotFound` if it is not there, `NotDirectory` if the working directory is
/// not a directory); its id becomes reusable and unpinned, its record empty,
/// and the free space is merged.
pub open spec fn delete_finish(t: TableView, rid: int, rec: RecordView, w: Seq<(usize, usize)>) -> DeleteOutcome {
    let wdi = t.working_dir_id as int;
    let wd = t.meta.entries[wdi];
    match wd.inner {
        InnerView::Directory(l) => match listing_get(l, rec.name) {
            None => (t, w, Err(ErrorView::NotFound { name: rec.name })),
            Some(_) => {
                let e1 = t.meta.entries.update(
                    wdi,
                    RecordView { inner: InnerView::Directory(listing_remove(l, rec.name)), ..wd },
                );
                let meta = MetaView {
                    entries: e1.update(rid, empty_record_view()),
                    free_fragments: merge_spec(t.meta.free_fragments),
                    empty_records: t.meta.empty_records.push(rid as usize),
                    pinned: t.meta.pinned.remove(rid as usize),
                    ..t.meta
                };
                (t.with_meta(meta), w, Ok(()))
            },
        },
        _ => (t, w, Err(ErrorView::NotDirectory { name: wd.name })),
    }
}

/// What a completed deletion of the record `rid` leaves: the working
/// directory as it was and, unless the record was the working directory
/// itself, without the record's name; the record empty, unpinned, and its id
/// the last reusable one.
pub open spec fn deleted(t: TableView, t2: TableView, rid: int) -> bool {
    let w = t.working_dir_id as int;
    &&& t2.working_dir_id == t.working_dir_id
    &&& t2.meta.entries[rid] == empty_record_view()
    &&& !t2.meta.pinned.contains(rid as usize)
    &&& t2.meta.empty_records.len() > 0
    &&& t2.meta.empty_records.last() == rid
    &&& rid != w ==> {
        &&& t2.meta.entries[w].inner is Directory
        &&& listing_get(t2.meta.entries[w].inner->Directory_0, t.meta.entries[rid].name) is None
    }
}

/// Deleting the record `rid`, within `fuel` levels of recursion (`None` when
/// it goes deeper).
///
/// A file's extent is to be zeroed and given back to the free space. A
/// directory becomes the working directory while its entries are deleted one
/// by one in listing order; the first error stops it there, leaving the
/// directory as the working directory; otherwise the working directory is set
/// back. Then `delete_finish` takes the record out.
pub open spec fn delete_spec(t: TableView, rid: int, fuel: nat) -> Option<DeleteOutcome>
    decreases fuel, 0nat,
{
    if fuel == 0 {
        None
    } else {
        let rec = t.meta.entries[rid];
        let step: Option<DeleteOutcome> = match rec.inner {
            InnerView::File(f) => Some(
                (
                    t.with_meta(
                        MetaView {
                            free_fragments: release_spec(t.meta.free_fragments, f.offset, f.len),
                            ..t.meta
                        },
                    ),
                    seq![(f.offset, f.len)],
                    Ok(()),
                ),
            ),
            InnerView::Directory(l) => match delete_all(
                TableView { working_dir_id: rec.id, ..t },
                listing_ids(l),
                (fuel - 1) as nat,
            ) {
                Some((t2, w, Ok(()))) => Some((TableView { working_dir_id: t.working_dir_id, ..t2 }, w, Ok(()))),
                other => other,
            },
            _ => Some((t, Seq::empty(), Ok(()))),
        };
        match step {
            Some((t1, w1, Ok(()))) => Some(delete_finish(t1, rid, rec, w1)),
            other => other,
        }
    }
}

/// Deleting the records `ids` one by one, in order, each within `fuel`; the
/// first error stops it.
pub open spec fn delete_all(t: TableView, ids: Seq<usize>, fuel: nat) -> Option<DeleteOutcome>
    decreases fuel, ids.len() + 1,
{
    if ids.len() == 0 {
        Some((t, Seq::empty(), Ok(())))
    } else {
        match delete_all(t, ids.drop_last(), fuel) {
            Some((t1, w1, Ok(()))) => match delete_spec(t1, ids.last() as int, fuel) {
                Some((t2, w2, r)) => Some((t2, w1 + w2, r)),
                None => None,
            },
            other => other,
        }
    }
}

proof fn lemma_delete_all_stops(t: TableView, ids: Seq<usize>, i: int, fuel: nat)
    requires
        0 <= i <= ids.len(),
        !(delete_all(t, ids.take(i), fuel) matches Some((_, _, Ok(())))),
    ensures
        delete_all(t, ids, fuel) == delete_all(t, ids.take(i), fuel),
    decreases ids.len() - i,
{
    if i < ids.len() {
        assert(ids.drop_last().take(i) =~= ids.take(i));
        lemma_delete_all_stops(t, ids.drop_last(), i, fuel);
    } else {
        assert(ids.take(i) =~= ids);
    }
}

/// The crypt record protects the store key of `t` under the key that
/// `password` derives with the crypt record's salt.
pub open spec fn key_protected(t: TableView, password: Seq<u8>) -> bool {
    t.crypt.store_key == aes256gcm_seal(
        argon2_key(password, t.crypt.user_salt),
        t.crypt.store_nonce,
        t.store_key,
    )
}

/// A fresh table: one record, the root directory (id 0, no name, no entries),
/// which is the working directory; no free space, no reusable ids, nothing
/// pinned, nothing stored.
pub open spec fn fresh_table(t: TableView) -> bool {
    &&& t.working_dir_id == 0
    &&& t.meta.entries.len() == 1
    &&& t.meta.entries[0].id == 0
    &&& t.meta.entries[0].name == Seq::<char>::empty()
    &&& t.meta.entries[0].inner == InnerView::Directory(Seq::empty())
    &&& stamped(t.meta.entries[0].file_times)
    &&& t.meta.free_fragments == Seq::<(usize, Seq<usize>)>::empty()
    &&& t.meta.empty_records == Seq::<usize>::empty()
    &&& t.meta.end_offset == 0
    &&& t.meta.pinned == Set::<usize>::empty()
}

impl RecordTable {

    /// Marks the record as pinned.
    pub fn pin(&mut self, record_id: usize)
        ensures
            final(self)@ == old(self)@.with_meta(
                MetaView { pinned: old(self)@.meta.pinned.insert(record_id), ..old(self)@.meta },
            ),
    {
        self.meta.pinned.insert(record_id);
    }

    /// Marks the record as not pinned.
    pub fn unpin(&mut self, record_id: usize)
        ensures
            final(self)@ == old(self)@.with_meta(
                MetaView { pinned: old(self)@.meta.pinned.remove(record_id), ..old(self)@.meta },
            ),
    {
        self.meta.pinned.remove(&record_id);
    }

    /// The record of the working directory.
    pub fn working_dir(&self) -> (r: &Record)
        requires
            self@.has_working_dir(),
        ensures
            r@ == self@.meta.entries[self@.working_dir_id as int],
    {
        &self.meta.entries[self.working_dir_id]
    }

    /// Makes the given record the working directory.
    pub fn set_working_dir_id(&mut self, record_id: usize)
        ensures
            final(self)@ == (TableView { working_dir_id: record_id, ..old(self)@ }),
    {
        self.working_dir_id = record_id;
    }

    /// The id of the working directory.
    pub fn working_dir_id(&self) -> (r: usize)
        ensures
            r == self@.working_dir_id,
    {
        self.working_dir_id
    }

    /// Number of records, deleted ones included.
    pub fn record_count(&self) -> (r: usize)
        ensures
            r == self@.meta.entries.len(),
    {
        self.meta.entries.len()
    }

    /// The working directory for changing, or `NotDirectory` with its name.
    pub fn working_dir_mut(&mut self) -> (r: Result<&mut DirectoryRecord, StoreError>)
        requires
            old(self)@.has_working_dir(),
        ensures
            old(self)@.meta.entries[old(self)@.working_dir_id as int].inner is Directory <==> r is Ok,
            match r {
                Ok(d) => {
                    let w = old(self)@.working_dir_id as int;
                    let old_rec = old(self)@.meta.entries[w];
                    &&& old_rec.inner == InnerView::Directory(d.listing())
                    &&& final(self)@ == old(self)@.with_entries(
                        old(self)@.meta.entries.update(
                            w,
                            RecordView { inner: InnerView::Directory(final(d).listing()), ..old_rec },
                        ),
                    )
                },
                Err(e) => {
                    &&& e@ == ErrorView::NotDirectory {
                        name: old(self)@.meta.entries[old(self)@.working_dir_id as int].name,
                    }
                    &&& final(self)@ == old(self)@
                },
            },
    {
        let w = self.working_dir_id;
        proof {
            lemma_records_view_update(self.meta.entries@, w as int);
        }
        self.meta.entries[w].as_directory_mut()
    }

    /// Creates a record named `name` in the working directory: a file whose
    /// stored contents `file` describes, or an empty directory.
    ///
    /// `file` is what `store_contents` returned after its bytes were written.
    pub fn create(&mut self, name: &str, file: Option<FileRecord>) -> (r: Result<Record, StoreError>)
        requires
            old(self)@.wf(),
            old(self)@.creates_into_working_dir(),
            file matches Some(f) ==> f.offset + f.len <= usize::MAX,
        ensures
            final(self)@.wf(),
            exists|times: FileTimes|
                stamped(times) && (final(self)@, record_result_view(r)) == #[trigger] create_spec(
                    old(self)@,
                    name@,
                    new_inner(file),
                    times,
                ),
    {
        let ghost t = self@;
        let inner = match file {
            Some(f) => RecordInner::File(f),
            None => RecordInner::Directory(DirectoryRecord::new()),
        };
        let record = Record { id: 0, name: name.to_owned(), file_times: crate::filetime::now(), inner };
        assert(record@.inner == new_inner(file));
        let ghost spec = create_spec(t, name@, new_inner(file), record.file_times);
        let record_id = match self.meta.empty_records.pop() {
            Some(id) => {
                assert(t.meta.empty_records[t.meta.empty_records.len() - 1] < t.meta.entries.len());
                proof {
                    lemma_records_view_update(self.meta.entries@, id as int);
                }
                self.meta.entries.set(id, record.duplicate());
                id
            },
            None => {
                self.meta.entries.push(record.duplicate());
                assert(records_view(self.meta.entries@) =~= records_view(old(self).meta.entries@).push(record@));
                self.meta.entries.len() - 1
            },
        };
        assert(record_id < self@.meta.entries.len());
        let ghost m1 = self@;
        match self.working_dir_mut() {
            Ok(wd) => {
                wd.insert(name.to_owned(), record_id);
            },
            Err(e) => {
                assert((self@, record_result_view(Err(e))) == spec);
                return Err(e);
            },
        }
        let ghost m2 = self@;
        assert(m2.meta.entries.len() == m1.meta.entries.len());
        assert(self.meta.entries@.len() == m2.meta.entries.len());
        proof {
            lemma_records_view_update(self.meta.entries@, record_id as int);
        }
        let mut rec = self.meta.entries[record_id].duplicate();
        rec.id = record_id;
        self.meta.entries.set(record_id, rec);
        let r = Record { id: record_id, ..record };
        assert((self@, record_result_view(Ok(r))) == spec);
        Ok(r)
    }

    /// Encrypts `contents` under the store key with a fresh random nonce,
    /// compresses the ciphertext, and allocates room for it in the backing
    /// store. Returns the file's record data and the bytes to write.
    pub fn store_contents(&mut self, contents: &[u8]) -> (r: Result<(FileRecord, StoreWrite), StoreError>)
        requires
            old(self)@.wf(),
            old(self)@.meta.end_offset + contents@.len() + AES_TAG_LEN <= usize::MAX,
        ensures
            final(self)@.wf(),
            r is Ok <==> storable_len(contents@.len() as int),
            match r {
                Ok((f, w)) => {
                    let m = old(self)@.meta;
                    &&& stored_file(old(self)@.store_key, contents@, f, w.data@)
                    &&& w.offset == f.offset
                    &&& f.offset + f.len <= usize::MAX
                    &&& (final(self)@.meta.free_fragments, final(self)@.meta.end_offset, f.offset)
                        == allocate_spec(m.free_fragments, m.end_offset, f.len)
                    &&& final(self)@ == old(self)@.with_meta(
                        MetaView {
                            free_fragments: final(self)@.meta.free_fragments,
                            end_offset: final(self)@.meta.end_offset,
                            ..m
                        },
                    )
                },
                Err(e) => {
                    &&& final(self)@ == old(self)@
                    &&& e@ == if contents@.len() > AES_MAX_PLAINTEXT {
                        ErrorView::Cipher
                    } else {
                        ErrorView::Compression
                    }
                },
            },
    {
        let checksum = xxh3_64(contents);
        let nonce: [u8; 12] = random_bytes::<12>();
        let size = contents.len();
        let enc = match aes_encrypt(&self.store_key, &nonce, contents) {
            Ok(c) => c,
            Err(_) => {
                return Err(StoreError::Cipher);
            },
        };
        let compressed = match snappy_compress_vec(enc.as_slice()) {
            Ok(c) => c,
            Err(_) => {
                return Err(StoreError::Compression);
            },
        };
        let (len, is_compressed) = if compressed.len() < enc.len() {
            (compressed.len(), true)
        } else {
            (enc.len(), false)
        };
        let offset = allocate(&mut self.meta.free_fragments, &mut self.meta.end_offset, len);
        assert(self@.meta.entries == old(self)@.meta.entries);
        let file = FileRecord { checksum, offset, len, nonce, is_compressed, size };
        Ok((file, StoreWrite { offset, data: compressed }))
    }

    /// Stamps the record as accessed now.
    fn touch_accessed(&mut self, record_id: usize)
        requires
            record_id < old(self)@.meta.entries.len(),
        ensures
            exists|a: u64| final(self)@ == #[trigger] accessed_spec(old(self)@, record_id as int, a),
    {
        let now = crate::filetime::now();
        proof {
            lemma_records_view_update(self.meta.entries@, record_id as int);
        }
        self.meta.entries[record_id].file_times.set_accessed(now.accessed);
        assert(self@ == accessed_spec(old(self)@, record_id as int, now.accessed));
    }

    /// First half of reading a file: stamps the record as accessed and returns
    /// where its stored bytes lie, or `NotFile` with its name.
    pub fn locate_file(&mut self, record_id: usize) -> (r: Result<FileRecord, StoreError>)
        requires
            old(self)@.wf(),
            record_id < old(self)@.meta.entries.len(),
        ensures
            final(self)@.wf(),
            exists|a: u64| final(self)@ == #[trigger] accessed_spec(old(self)@, record_id as int, a),
            match old(self)@.meta.entries[record_id as int].inner {
                InnerView::File(f) => r == Ok::<FileRecord, StoreError>(f),
                _ => r matches Err(e) && e@ == ErrorView::NotFile {
                    name: old(self)@.meta.entries[record_id as int].name,
                },
            },
    {
        self.touch_accessed(record_id);
        assert(self@.meta.entries[record_id as int].inner == old(self)@.meta.entries[record_id as int].inner);
        assert(self@.meta.wf()) by {
            assert forall|i: int| 0 <= i < self@.meta.entries.len() implies refs_ok(
                #[trigger] self@.meta.entries[i],
                self@.meta.entries.len() as int,
            ) by {
                assert(refs_ok(old(self)@.meta.entries[i], old(self)@.meta.entries.len() as int));
            }
        }
        match self.meta.entries[record_id].as_file() {
            Ok(f) => Ok(*f),
            Err(e) => Err(e),
        }
    }

    /// Second half of reading a file: the contents of the file record
    /// `record_id` from its stored bytes, or `Compression`, `Cipher` or
    /// `CorruptedData` where decompressing, decrypting or the checksum fails.
    ///
    /// Bytes in the stored form of some contents read back as those contents.
    pub fn decode_file(&self, record_id: usize, stored: Vec<u8>) -> (r: Result<Vec<u8>, StoreError>)
        requires
            record_id < self@.meta.entries.len(),
            self@.meta.entries[record_id as int].inner is File,
        ensures
            bytes_result_view(r) == decode_spec(self@.store_key, self@.meta.entries[record_id as int], stored@),
            forall|c: Seq<u8>|
                readable_form(self@.store_key, self@.meta.entries[record_id as int].inner->File_0, c)
                    && self@.meta.entries[record_id as int].inner->File_0.checksum == xxh3_64_hash(c)
                    && stored@ == #[trigger] stored_form(
                    self@.store_key,
                    self@.meta.entries[record_id as int].inner->File_0,
                    c,
                ) ==> (r is Ok && r->Ok_0@ == c),
    {
        let record = &self.meta.entries[record_id];
        let file = match &record.inner {
            RecordInner::File(f) => f,
            _ => {
                return Err(StoreError::NotFile { name: record.name.clone() });
            },
        };
        let ghost key = self@.store_key;
        let decompressed = if file.is_compressed {
            match snappy_decompress_vec(stored.as_slice()) {
                Ok(d) => d,
                Err(_) => {
                    return Err(StoreError::Compression);
                },
            }
        } else {
            stored
        };
        let contents = match aes_decrypt(&self.store_key, &file.nonce, decompressed.as_slice()) {
            Ok(p) => p,
            Err(_) => {
                return Err(StoreError::Cipher);
            },
        };
        assert forall|c: Seq<u8>|
            {
                &&& readable_form(key, *file, c)
                &&& file.checksum == xxh3_64_hash(c)
                &&& stored@ == #[trigger] stored_form(key, *file, c)
            } implies contents@ == c by {
            let enc = aes256gcm_seal(key, file.nonce@, c);
            if file.is_compressed {
                assert(stored@ == snappy_compress(enc));
            }
            assert(decompressed@ == aes256gcm_seal(key, file.nonce@, c));
        }
        if xxh3_64(contents.as_slice()) == file.checksum {
            return Ok(contents);
        }
        Err(StoreError::CorruptedData { name: record.name.clone(), id: record.id })
    }

    /// Copies of the records of the given ids, in order.
    fn collect_records(&self, ids: &Vec<usize>) -> (r: Vec<Record>)
        requires
            forall|k: int| 0 <= k < ids@.len() ==> #[trigger] ids@[k] < self@.meta.entries.len(),
        ensures
            records_view(r@) == records_at(self@.meta.entries, ids@),
    {
        let mut r: Vec<Record> = Vec::new();
        let mut i: usize = 0;
        while i < ids.len()
            invariant
                i <= ids.len(),
                forall|k: int| 0 <= k < ids@.len() ==> #[trigger] ids@[k] < self@.meta.entries.len(),
                records_view(r@) == records_at(self@.meta.entries, ids@.take(i as int)),
            decreases ids.len() - i,
        {
            let rec = self.meta.entries[ids[i]].duplicate();
            let ghost before = r@;
            r.push(rec);
            assert(records_view(r@) =~= records_view(before).push(rec@));
            assert(records_view(r@) =~= records_at(self@.meta.entries, ids@.take(i + 1)));
            i = i + 1;
        }
        assert(ids@.take(i as int) =~= ids@);
        r
    }

    /// A copy of the directory record `id` and copies of the records of its
    /// entries in listing order, or `NotDirectory` with its name.
    pub fn get_dir_entries(&self, id: usize) -> (r: Result<(Record, Vec<Record>), StoreError>)
        requires
            self@.wf(),
            id < self@.meta.entries.len(),
        ensures
            match self@.meta.entries[id as int].inner {
                InnerView::Directory(l) => r matches Ok((rec, v)) && rec@ == self@.meta.entries[id as int]
                    && records_view(v@) == records_at(self@.meta.entries, listing_ids(l)),
                _ => r matches Err(e) && e@ == ErrorView::NotDirectory {
                    name: self@.meta.entries[id as int].name,
                },
            },
    {
        let record = self.meta.entries[id].duplicate();
        let dir = match self.meta.entries[id].as_directory() {
            Ok(d) => d,
            Err(e) => {
                return Err(e);
            },
        };
        let ids = dir.ids();
        assert(refs_ok(self@.meta.entries[id as int], self@.meta.entries.len() as int));
        let children = self.collect_records(&ids);
        Ok((record, children))
    }

    /// Stamps the directory record as accessed and returns copies of the
    /// records of its entries in listing order, or `NotDirectory` with its
    /// name.
    pub fn read_directory(&mut self, record_id: usize) -> (r: Result<Vec<Record>, StoreError>)
        requires
            old(self)@.wf(),
            record_id < old(self)@.meta.entries.len(),
        ensures
            final(self)@.wf(),
            exists|a: u64| final(self)@ == #[trigger] accessed_spec(old(self)@, record_id as int, a),
            match old(self)@.meta.entries[record_id as int].inner {
                InnerView::Directory(l) => r matches Ok(v) && records_view(v@) == records_at(
                    final(self)@.meta.entries,
                    listing_ids(l),
                ),
                _ => r matches Err(e) && e@ == ErrorView::NotDirectory {
                    name: old(self)@.meta.entries[record_id as int].name,
                },
            },
    {
        self.touch_accessed(record_id);
        assert(self@.meta.entries[record_id as int].inner == old(self)@.meta.entries[record_id as int].inner);
        assert(self@.meta.wf()) by {
            assert forall|i: int| 0 <= i < self@.meta.entries.len() implies refs_ok(
                #[trigger] self@.meta.entries[i],
                self@.meta.entries.len() as int,
            ) by {
                assert(refs_ok(old(self)@.meta.entries[i], old(self)@.meta.entries.len() as int));
            }
        }
        let ids = match self.meta.entries[record_id].as_directory() {
            Ok(d) => d.ids(),
            Err(e) => {
                return Err(e);
            },
        };
        assert(refs_ok(self@.meta.entries[record_id as int], self@.meta.entries.len() as int));
        Ok(self.collect_records(&ids))
    }

    /// Renames the entry `old_name` of the working directory to `new_name`.
    pub fn rename(&mut self, old_name: &str, new_name: &str) -> (r: Result<(), StoreError>)
        requires
            old(self)@.wf(),
            old(self)@.has_working_dir(),
        ensures
            final(self)@.wf(),
            exists|m: u64|
                (final(self)@, unit_result_view(r)) == #[trigger] rename_spec(
                    old(self)@,
                    old_name@,
                    new_name@,
                    m,
                ),
    {
        let ghost t = self@;
        let w = self.working_dir_id;
        assert(refs_ok(t.meta.entries[w as int], t.meta.entries.len() as int));
        let removed = match self.working_dir_mut() {
            Ok(wd) => wd.remove(old_name),
            Err(e) => {
                assert((self@, unit_result_view(Err(e))) == rename_spec(t, old_name@, new_name@, 0));
                return Err(e);
            },
        };
        let id = match removed {
            Some(id) => id,
            None => {
                assert(self@.meta.entries =~= t.meta.entries);
                let e = StoreError::NotFound { name: old_name.to_owned() };
                assert((self@, unit_result_view(Err(e))) == rename_spec(t, old_name@, new_name@, 0));
                return Err(e);
            },
        };
        assert(id < self@.meta.entries.len());
        let ghost t1 = self@;
        match self.working_dir_mut() {
            Ok(wd) => {
                wd.insert(new_name.to_owned(), id);
            },
            Err(e) => {
                return Err(e);
            },
        }
        assert(self@.meta.entries.len() == t1.meta.entries.len());
        let ghost l = t.meta.entries[w as int].inner->Directory_0;
        let ghost e1 = t.meta.entries.update(
            w as int,
            RecordView {
                inner: InnerView::Directory(listing_insert(listing_remove(l, old_name@), new_name@, id)),
                ..t.meta.entries[w as int]
            },
        );
        assert(self@.meta.entries =~= e1);
        let now = crate::filetime::now();
        proof {
            lemma_records_view_update(self.meta.entries@, id as int);
        }
        self.meta.entries[id].name = new_name.to_owned();
        proof {
            lemma_records_view_update(self.meta.entries@, id as int);
        }
        self.meta.entries[id].file_times.set_modified(now.modified);
        assert(self@.meta.entries =~= e1.update(
            id as int,
            RecordView {
                name: new_name@,
                file_times: FileTimes { modified: now.modified, ..e1[id as int].file_times },
                ..e1[id as int]
            },
        ));
        assert((self@, unit_result_view(Ok(()))) == rename_spec(t, old_name@, new_name@, now.modified));
        Ok(())
    }

    /// Moves the record `record_id` from the working directory into the
    /// directory that the path `to` names from the root record 0 (the root
    /// itself for an empty path).
    pub fn send(&mut self, record_id: usize, to: &[String]) -> (r: Result<(), StoreError>)
        requires
            old(self)@.wf(),
            old(self)@.has_working_dir(),
            record_id < old(self)@.meta.entries.len(),
        ensures
            final(self)@.wf(),
            (final(self)@, unit_result_view(r)) == send_spec(old(self)@, record_id as int, strings_view(to@)),
    {
        let ghost t = self@;
        let ghost parts = strings_view(to@);
        let name = self.meta.entries[record_id].name.clone();
        let rid = self.meta.entries[record_id].id;
        assert(refs_ok(t.meta.entries[record_id as int], t.meta.entries.len() as int));
        let removed = match self.working_dir_mut() {
            Ok(wd) => wd.remove(name.as_str()),
            Err(e) => {
                return Err(e);
            },
        };
        if removed.is_none() {
            assert(self@.meta.entries =~= t.meta.entries);
            return Err(StoreError::NotFound { name });
        }
        let ghost e1 = self@.meta.entries;
        proof {
            let w = t.working_dir_id as int;
            assert(refs_ok(t.meta.entries[w], t.meta.entries.len() as int));
            let l = t.meta.entries[w].inner->Directory_0;
            lemma_listing_ops(l, name@, rid, t.meta.entries.len() as int);
            lemma_wf_set_listing(t.meta, w, listing_remove(l, name@));
            assert(self@.meta =~= MetaView {
                entries: t.meta.entries.update(w, RecordView { inner: InnerView::Directory(listing_remove(l, name@)), ..t.meta.entries[w] }),
                ..t.meta
            });
        }
        let mut to_dir: usize = 0;
        let mut i: usize = 0;
        assert(parts.skip(0) =~= parts);
        while i < to.len()
            invariant
                i <= to.len(),
                parts == strings_view(to@),
                to_dir < self@.meta.entries.len(),
                self@.meta.entries == e1,
                self@ == t.with_entries(e1),
                self@.meta.wf(),
                walk_spec(e1, 0, parts, name@) == walk_spec(e1, to_dir, parts.skip(i as int), name@),
                t == old(self)@,
                record_id < t.meta.entries.len(),
                t.working_dir_id < t.meta.entries.len(),
                name@ == t.meta.entries[record_id as int].name,
                rid == t.meta.entries[record_id as int].id,
                t.meta.entries[t.working_dir_id as int].inner is Directory,
                listing_get(t.meta.entries[t.working_dir_id as int].inner->Directory_0, name@) is Some,
                e1 == t.meta.entries.update(
                    t.working_dir_id as int,
                    RecordView {
                        inner: InnerView::Directory(
                            listing_remove(t.meta.entries[t.working_dir_id as int].inner->Directory_0, name@),
                        ),
                        ..t.meta.entries[t.working_dir_id as int]
                    },
                ),
            decreases to.len() - i,
        {
            let ghost rest = parts.skip(i as int);
            assert(rest.drop_first() =~= parts.skip(i + 1));
            assert(rest[0] == to@[i as int]@);
            assert(refs_ok(e1[to_dir as int], e1.len() as int));
            let next = match self.meta.entries[to_dir].as_directory() {
                Ok(d) => match d.get(to[i].as_str()) {
                    Some(n) => n,
                    None => {
                        assert(walk_spec(e1, to_dir, rest, name@) == Err::<usize, ErrorView>(ErrorView::NotFound { name: name@ }));
                        return Err(StoreError::NotFound { name });
                    },
                },
                Err(e) => {
                    assert(walk_spec(e1, to_dir, rest, name@) == Err::<usize, ErrorView>(e@));
                    return Err(e);
                },
            };
            proof {
                let l = e1[to_dir as int].inner->Directory_0;
                lemma_listing_ops(l, to@[i as int]@, 0, e1.len() as int);
            }
            to_dir = next;
            i = i + 1;
        }
        assert(parts.skip(i as int) =~= Seq::<Seq<char>>::empty());
        proof {
            lemma_records_view_update(self.meta.entries@, to_dir as int);
        }
        assert(refs_ok(e1[to_dir as int], e1.len() as int));
        proof {
            if e1[to_dir as int].inner is Directory {
                let l = e1[to_dir as int].inner->Directory_0;
                lemma_listing_ops(l, name@, rid, e1.len() as int);
                lemma_wf_set_listing(self@.meta, to_dir as int, listing_insert(l, name@, rid));
            }
        }
        match self.meta.entries[to_dir].as_directory_mut() {
            Ok(d) => {
                d.insert(name, rid);
            },
            Err(e) => {
                return Err(e);
            },
        }
        Ok(())
    }

    /// Copies of the pinned records, in the order in which the set of pinned
    /// ids is walked.
    pub fn get_pinned(&self) -> (r: Vec<Record>)
        requires
            forall|p: usize| self@.meta.pinned.contains(p) ==> p < self@.meta.entries.len(),
        ensures
            exists|ids: Seq<usize>|
                ids.no_duplicates() && ids.to_set() == self@.meta.pinned && records_view(r@)
                    == #[trigger] records_at(self@.meta.entries, ids),
    {
        let mut out: Vec<Record> = Vec::new();
        let ghost walked: Seq<usize> = Seq::empty();
        let ghost keys = vstd::std_specs::hash::spec_hash_keys_iter(&self.meta.pinned).remaining();
        assert(keys.unref().to_set() == self.meta.pinned@);
        assert(keys.no_duplicates());
        for id in it: self.meta.pinned.iter()
            invariant
                forall|p: usize| self@.meta.pinned.contains(p) ==> p < self@.meta.entries.len(),
                it.seq() == keys,
                keys.unref().to_set() == self@.meta.pinned,
                it.seq().unref().no_duplicates(),
                walked == it.seq().unref().take(it.index() as int),
                records_view(out@) == records_at(self@.meta.entries, walked),
        {
            assert(it.seq()[it.index() as int] == id);
            assert(it.seq().unref()[it.index() as int] == *id);
            assert(self@.meta.pinned.contains(*id));
            let rec = self.meta.entries[*id].duplicate();
            let ghost before = out@;
            out.push(rec);
            proof {
                walked = walked.push(*id);
            }
            assert(records_view(out@) =~= records_view(before).push(rec@));
            assert(records_view(out@) =~= records_at(self@.meta.entries, walked));
        }
        assert(walked =~= keys.unref());
        out
    }

    /// The size of `record` measured within `depth` levels of recursion;
    /// `None` when it goes deeper or a sum exceeds `usize`.
    pub fn get_size_within(&self, record: &Record, depth: usize) -> (r: Option<Result<usize, StoreError>>)
        requires
            self@.wf(),
            targets_below(record@, self@.meta.entries.len() as int),
        ensures
            match r {
                None => size_of(self@.meta.entries, record@, depth as nat) is None,
                Some(Ok(n)) => size_of(self@.meta.entries, record@, depth as nat) == Some(Ok::<usize, ErrorView>(n)),
                Some(Err(e)) => size_of(self@.meta.entries, record@, depth as nat) == Some(Err::<usize, ErrorView>(e@)),
            },
        decreases depth,
    {
        if depth == 0 {
            return None;
        }
        let ghost entries = self@.meta.entries;
        match &record.inner {
            RecordInner::Empty => Some(Ok(0)),
            RecordInner::File(f) => Some(Ok(f.size)),
            RecordInner::Symlink(link) => {
                let target = &self.meta.entries[link.reference_record_id];
                assert(refs_ok(entries[link.reference_record_id as int], entries.len() as int));
                if link.is_file {
                    match target.as_file() {
                        Ok(f) => Some(Ok(f.size)),
                        Err(e) => Some(Err(e)),
                    }
                } else {
                    self.get_size_within(target, depth - 1)
                }
            },
            RecordInner::Directory(dir) => {
                let ids = dir.ids();
                let ghost f = (depth - 1) as nat;
                let mut acc: usize = 0;
                let mut i: usize = 0;
                assert(ids@.take(0) =~= Seq::<usize>::empty());
                assert(size_of(entries, record@, depth as nat) == dir_size(entries, ids@, f));
                while i < ids.len()
                    invariant
                        i <= ids.len(),
                        size_of(entries, record@, depth as nat) == dir_size(entries, ids@, f),
                        self@.wf(),
                        entries == self@.meta.entries,
                        f == (depth - 1) as nat,
                        depth > 0,
                        ids_below(dir.listing(), entries.len() as int),
                        ids@ == listing_ids(dir.listing()),
                        dir_size(entries, ids@.take(i as int), f) == Some(Ok::<usize, ErrorView>(acc)),
                    decreases ids.len() - i,
                {
                    let id = ids[i];
                    assert(dir.listing()[i as int].1 == id);
                    assert(refs_ok(entries[id as int], entries.len() as int));
                    let ghost next = ids@.take(i + 1);
                    assert(next.drop_last() =~= ids@.take(i as int));
                    assert(next.last() == id);
                    match self.get_size_within(&self.meta.entries[id], depth - 1) {
                        None => {
                            proof {
                                lemma_dir_size_stops(entries, ids@, i + 1, f);
                            }
                            return None;
                        },
                        Some(Err(e)) => {
                            proof {
                                lemma_dir_size_stops(entries, ids@, i + 1, f);
                            }
                            return Some(Err(e));
                        },
                        Some(Ok(b)) => {
                            if acc > usize::MAX - b {
                                proof {
                                    lemma_dir_size_stops(entries, ids@, i + 1, f);
                                }
                                return None;
                            }
                            acc = acc + b;
                        },
                    }
                    i = i + 1;
                }
                assert(ids@.take(i as int) =~= ids@);
                Some(Ok(acc))
            },
        }
    }

    /// The size of `record`: 0 for an empty record, the contents' length for a
    /// file, the sum over the entries for a directory, the size of the target
    /// for a link.
    ///
    /// The measuring must end: no cycle of directories and links is met, no
    /// deeper than `usize::MAX` levels, and no sum exceeds `usize`.
    pub fn get_size(&self, record: &Record) -> (r: Result<usize, StoreError>)
        requires
            self@.wf(),
            targets_below(record@, self@.meta.entries.len() as int),
            size_of(self@.meta.entries, record@, usize::MAX as nat) is Some,
        ensures
            size_of(self@.meta.entries, record@, usize::MAX as nat) == Some(
                match r {
                    Ok(n) => Ok::<usize, ErrorView>(n),
                    Err(e) => Err::<usize, ErrorView>(e@),
                },
            ),
    {
        match self.get_size_within(record, usize::MAX) {
            Some(r) => r,
            None => Ok(0),
        }
    }

    /// Merges adjacent free extents of the backing store.
    fn merge_free(&mut self)
        requires
            old(self)@.wf(),
        ensures
            final(self)@.wf(),
            final(self)@ == old(self)@.with_meta(
                MetaView { free_fragments: merge_spec(old(self)@.meta.free_fragments), ..old(self)@.meta },
            ),
    {
        let merged = merge_fragments(&self.meta.free_fragments);
        self.meta.free_fragments = merged;
    }

    /// Deletes the record `record_id` from the working directory, within
    /// `depth` levels of recursion; `None` when it goes deeper, which leaves
    /// the deletion half done. The extents of deleted files that are to be
    /// overwritten with zeros are appended to `wipes`, in order.
    pub fn delete_within(&mut self, record_id: usize, wipes: &mut Vec<(usize, usize)>, depth: usize) -> (r:
        Option<Result<(), StoreError>>)
        requires
            old(self)@.wf(),
            old(self)@.has_working_dir(),
            record_id < old(self)@.meta.entries.len(),
        ensures
            final(self)@.wf(),
            final(self)@.meta.entries.len() == old(self)@.meta.entries.len(),
            r matches Some(Ok(_)) ==> deleted(old(self)@, final(self)@, record_id as int),
            match r {
                None => delete_spec(old(self)@, record_id as int, depth as nat) is None,
                Some(res) => exists|w: Seq<(usize, usize)>|
                    final(wipes)@ == old(wipes)@ + w && #[trigger] delete_spec(
                        old(self)@,
                        record_id as int,
                        depth as nat,
                    ) == Some((final(self)@, w, unit_result_view(res))),
            },
        decreases depth,
    {
        if depth == 0 {
            return None;
        }
        let ghost t = self@;
        let ghost w0 = wipes@;
        let ghost n = t.meta.entries.len();
        let record = self.meta.entries[record_id].duplicate();
        assert(refs_ok(t.meta.entries[record_id as int], n as int));
        let ghost mut step_w: Seq<(usize, usize)> = Seq::empty();
        match &record.inner {
            RecordInner::File(f) => {
                wipes.push((f.offset, f.len));
                release(&mut self.meta.free_fragments, f.offset, f.len);
                proof {
                    step_w = seq![(f.offset, f.len)];
                    assert(wipes@ =~= w0 + step_w);
                }
            },
            RecordInner::Directory(dir) => {
                let orig = self.working_dir_id;
                self.set_working_dir_id(record.id);
                let ghost td = self@;
                let ids = dir.ids();
                let ghost f = (depth - 1) as nat;
                let ghost mut acc: Seq<(usize, usize)> = Seq::empty();
                let mut i: usize = 0;
                assert(ids@.take(0) =~= Seq::<usize>::empty());
                assert(w0 + acc =~= w0);
                while i < ids.len()
                    invariant
                        i <= ids.len(),
                        depth > 0,
                        f == (depth - 1) as nat,
                        td == (TableView { working_dir_id: record.id, ..t }),
                        t == old(self)@,
                        w0 == old(wipes)@,
                        n == t.meta.entries.len(),
                        record_id < n,
                        orig == t.working_dir_id,
                        record@ == t.meta.entries[record_id as int],
                        record.inner == RecordInner::Directory(*dir),
                        ids@ == listing_ids(dir.listing()),
                        ids_below(dir.listing(), n as int),
                        self@.wf(),
                        self@.meta.entries.len() == n,
                        self@.working_dir_id == record.id,
                        record.id < n,
                        wipes@ == w0 + acc,
                        delete_all(td, ids@.take(i as int), f) == Some((self@, acc, Ok::<(), ErrorView>(()))),
                    decreases ids.len() - i,
                {
                    let id = ids[i];
                    assert(dir.listing()[i as int].1 == id);
                    let ghost next = ids@.take(i + 1);
                    assert(next.drop_last() =~= ids@.take(i as int));
                    assert(next.last() == id);
                    let ghost tb = self@;
                    let ghost wb = wipes@;
                    let res = self.delete_within(id, wipes, depth - 1);
                    match res {
                        None => {
                            proof {
                                lemma_delete_all_stops(td, ids@, i + 1, f);
                            }
                            return None;
                        },
                        Some(rr) => {
                            let ghost wc = choose|w: Seq<(usize, usize)>|
                                wipes@ == wb + w && #[trigger] delete_spec(tb, id as int, f) == Some(
                                    (self@, w, unit_result_view(rr)),
                                );
                            proof {
                                assert(wipes@ =~= w0 + (acc + wc));
                                acc = acc + wc;
                            }
                            match rr {
                                Err(e) => {
                                    proof {
                                        lemma_delete_all_stops(td, ids@, i + 1, f);
                                        assert(delete_spec(t, record_id as int, depth as nat) == Some(
                                            (self@, acc, unit_result_view(Err(e))),
                                        ));
                                    }
                                    return Some(Err(e));
                                },
                                Ok(()) => {},
                            }
                        },
                    }
                    i = i + 1;
                }
                assert(ids@.take(i as int) =~= ids@);
                self.set_working_dir_id(orig);
                proof {
                    step_w = acc;
                }
            },
            _ => {
                proof {
                    assert(wipes@ =~= w0 + step_w);
                }
            },
        }
        let ghost t1 = self@;
        assert(self@.meta.entries.len() == n);
        let removed = match self.working_dir_mut() {
            Ok(wd) => wd.remove(record.name.as_str()),
            Err(e) => {
                assert(delete_spec(t, record_id as int, depth as nat) == Some(
                    (self@, step_w, unit_result_view(Err(e))),
                ));
                return Some(Err(e));
            },
        };
        if removed.is_none() {
            assert(self@.meta.entries =~= t1.meta.entries);
            let e = StoreError::NotFound { name: record.name };
            assert(delete_spec(t, record_id as int, depth as nat) == Some(
                (self@, step_w, unit_result_view(Err(e))),
            ));
            return Some(Err(e));
        }
        assert(self@.meta.entries.len() == n);
        proof {
            let w = t1.working_dir_id as int;
            assert(refs_ok(t1.meta.entries[w], n as int));
            lemma_listing_remove_get(t1.meta.entries[w].inner->Directory_0, record.name@, record.name@);
        }
        self.meta.empty_records.push(record_id);
        self.meta.pinned.remove(&record_id);
        proof {
            lemma_records_view_update(self.meta.entries@, record_id as int);
        }
        self.meta.entries.set(record_id, Record::default());
        self.merge_free();
        assert(delete_spec(t, record_id as int, depth as nat) == Some(
            (self@, step_w, unit_result_view(Ok(()))),
        ));
        Some(Ok(()))
    }

    /// Deletes the record `record_id` from the working directory: a file's
    /// extent is given back to the free space, a directory's entries are
    /// deleted first; the record's name leaves the working directory, its id
    /// becomes reusable and unpinned, and adjacent free extents are merged.
    /// The extents of deleted files that are to be overwritten with zeros are
    /// appended to `wipes`, in order.
    ///
    /// The deleting must end: no cycle of directories is met, and no deeper
    /// than `usize::MAX` levels.
    pub fn delete(&mut self, record_id: usize, wipes: &mut Vec<(usize, usize)>) -> (r: Result<(), StoreError>)
        requires
            old(self)@.wf(),
            old(self)@.has_working_dir(),
            record_id < old(self)@.meta.entries.len(),
            delete_spec(old(self)@, record_id as int, usize::MAX as nat) is Some,
        ensures
            final(self)@.wf(),
            r is Ok ==> deleted(old(self)@, final(self)@, record_id as int),
            exists|w: Seq<(usize, usize)>|
                final(wipes)@ == old(wipes)@ + w && #[trigger] delete_spec(
                    old(self)@,
                    record_id as int,
                    usize::MAX as nat,
                ) == Some((final(self)@, w, unit_result_view(r))),
    {
        match self.delete_within(record_id, wipes, usize::MAX) {
            Some(r) => r,
            None => Ok(()),
        }
    }

    /// A new, empty table for the password `user_key`, and the PHC string of
    /// the password (salted afresh) by which it can be checked later.
    ///
    /// A random store key encrypts the contents; it is kept encrypted under the
    /// key that Argon2 derives from the password and a random salt. It fails,
    /// with `KeyDerivation`, exactly when the password is longer than Argon2
    /// takes.
    pub fn new(user_key: &str) -> (r: Result<(RecordTable, String), StoreError>)
        ensures
            r is Err <==> user_key.spec_bytes().len() > ARGON2_MAX_PASSWORD,
            match r {
                Ok((t, phc)) => {
                    &&& t@.wf()
                    &&& fresh_table(t@)
                    &&& t@.store_key.len() == 32
                    &&& key_protected(t@, user_key.spec_bytes())
                    &&& exists|salt: Seq<u8>|
                        salt.len() == 16 && phc@ == #[trigger] argon2_phc_string(user_key.spec_bytes(), salt)
                },
                Err(e) => e@ == ErrorView::KeyDerivation,
            },
    {
        let verify_salt: [u8; 16] = random_bytes::<16>();
        let salt: [u8; 16] = random_bytes::<16>();
        let password = user_key.as_bytes();
        let out = match argon2_derive(password, &salt) {
            Ok(k) => k,
            Err(_) => {
                return Err(StoreError::KeyDerivation);
            },
        };
        let phc = match argon2_phc(password, &verify_salt) {
            Ok(p) => p,
            Err(_) => {
                return Err(StoreError::PasswordHash);
            },
        };
        let store_nonce = random_nonce();
        let meta_nonce = random_nonce();
        let store_key = random_key();
        let root = Record {
            id: 0,
            name: String::new(),
            file_times: crate::filetime::now(),
            inner: RecordInner::Directory(DirectoryRecord::new()),
        };
        let sealed = match aes_encrypt(&out, &store_nonce, &store_key) {
            Ok(c) => c,
            Err(_) => {
                return Err(StoreError::Cipher);
            },
        };
        let mut entries: Vec<Record> = Vec::new();
        entries.push(root);
        let meta = Meta {
            entries,
            free_fragments: Vec::new(),
            empty_records: Vec::new(),
            end_offset: 0,
            pinned: HashSet::new(),
        };
        let table = RecordTable {
            store_key,
            working_dir_id: 0,
            meta,
            crypt: Crypt { user_salt: salt, store_key: sealed, store_nonce, meta_nonce },
        };
        assert(table@.meta.entries[0] == root@);
        assert(table@.meta.free_fragments =~= Seq::<(usize, Seq<usize>)>::empty());
        Ok((table, phc))
    }

    /// The store key that `crypt` protects, unlocked with the password
    /// `user_key`: `KeyDerivation` if no key can be derived from the
    /// password, `Cipher` if the protected key does not decrypt (a wrong
    /// password), and `None` if it decrypts to other than 32 bytes.
    pub fn unlock_store_key(user_key: &str, crypt: &Crypt) -> (r: Result<Option<[u8; 32]>, StoreError>)
        ensures
            ({
                let password = user_key.spec_bytes();
                if password.len() > ARGON2_MAX_PASSWORD {
                    r matches Err(e) && e@ == ErrorView::KeyDerivation
                } else {
                    let k = argon2_key(password, crypt@.user_salt);
                    match aes256gcm_open(k, crypt@.store_nonce, crypt@.store_key) {
                        None => r matches Err(e) && e@ == ErrorView::Cipher,
                        Some(key) => if key.len() == 32 {
                            r matches Ok(Some(a)) && a@ == key
                        } else {
                            r matches Ok(None)
                        },
                    }
                }
            }),
            forall|key: Seq<u8>|
                key.len() == 32 && user_key.spec_bytes().len() <= ARGON2_MAX_PASSWORD && crypt@.store_key
                    == #[trigger] aes256gcm_seal(
                    argon2_key(user_key.spec_bytes(), crypt@.user_salt),
                    crypt@.store_nonce,
                    key,
                ) ==> (r matches Ok(Some(a)) && a@ == key),
    {
        let out = match argon2_derive(user_key.as_bytes(), &crypt.user_salt) {
            Ok(k) => k,
            Err(_) => {
                return Err(StoreError::KeyDerivation);
            },
        };
        let key = match aes_decrypt(&out, &crypt.store_nonce, crypt.store_key.as_slice()) {
            Ok(k) => k,
            Err(_) => {
                return Err(StoreError::Cipher);
            },
        };
        if key.len() != 32 {
            return Ok(None);
        }
        let mut a = [0u8; 32];
        let mut i: usize = 0;
        while i < 32
            invariant
                i <= 32,
                key@.len() == 32,
                forall|j: int| 0 <= j < i ==> a@[j] == key@[j],
            decreases 32 - i,
        {
            a[i] = key[i];
            i = i + 1;
        }
        assert(a@ =~= key@);
        Ok(Some(a))
    }

    /// The bookkeeping's bytes decrypted from their sealed form, or `Cipher`.
    pub fn unseal_meta(store_key: &[u8; 32], crypt: &Crypt, sealed: &[u8]) -> (r: Result<Vec<u8>, StoreError>)
        ensures
            match aes256gcm_open(store_key@, crypt@.meta_nonce, sealed@) {
                Some(m) => r matches Ok(v) && v@ == m,
                None => r matches Err(e) && e@ == ErrorView::Cipher,
            },
            forall|m: Seq<u8>|
                m.len() <= crate::crypto::AES_MAX_PLAINTEXT && sealed@ == #[trigger] aes256gcm_seal(
                    store_key@,
                    crypt@.meta_nonce,
                    m,
                ) ==> (r matches Ok(v) && v@ == m),
    {
        match aes_decrypt(store_key, &crypt.meta_nonce, sealed) {
            Ok(m) => Ok(m),
            Err(_) => Err(StoreError::Cipher),
        }
    }

    /// The bookkeeping's bytes sealed under the store key with the crypt
    /// record's bookkeeping nonce, or `Cipher` if they are too long.
    pub fn seal_meta(&self, meta_bytes: &[u8]) -> (r: Result<Vec<u8>, StoreError>)
        ensures
            match r {
                Ok(c) => c@ == aes256gcm_seal(self@.store_key, self@.crypt.meta_nonce, meta_bytes@)
                    && meta_bytes@.len() <= crate::crypto::AES_MAX_PLAINTEXT,
                Err(e) => e@ == ErrorView::Cipher && meta_bytes@.len() > crate::crypto::AES_MAX_PLAINTEXT,
            },
    {
        match aes_encrypt(&self.store_key, &self.crypt.meta_nonce, meta_bytes) {
            Ok(c) => Ok(c),
            Err(_) => Err(StoreError::Cipher),
        }
    }

    /// A table from an unlocked store key, its bookkeeping and its crypt
    /// record, with the root record 0 as working directory.
    pub fn from_parts(store_key: [u8; 32], meta: Meta, crypt: Crypt) -> (r: RecordTable)
        requires
            meta@.wf(),
        ensures
            r@ == (TableView { store_key: store_key@, working_dir_id: 0, meta: meta@, crypt: crypt@ }),
    {
        RecordTable { store_key, working_dir_id: 0, meta, crypt }
    }

    /// The bookkeeping.
    pub fn meta(&self) -> (r: &Meta)
        ensures
            r@ == self@.meta,
    {
        &self.meta
    }

    /// The store key is 32 bytes long.
    pub proof fn lemma_store_key_len(&self)
        ensures
            self@.store_key.len() == 32,
    {
    }

    /// The crypt record.
    pub fn crypt(&self) -> (r: &Crypt)
        ensures
            r@ == self@.crypt,
    {
        &self.crypt
    }
}

} // verus!
