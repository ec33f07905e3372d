use libsfs::error::StoreError;
use libsfs::record::{DirectoryRecord, FileRecord, Record, RecordInner, SymlinkRecord};
use libsfs::table::{record_targets_ok, Crypt, Meta, RecordTable, StoreWrite};
use argon2::{Argon2, PasswordHash, PasswordVerifier};
use libsfs::filetime::FileTimes;
use std::collections::HashSet;

fn write_at(store: &mut Vec<u8>, w: &StoreWrite) {
    let end = w.offset + w.data.len();
    if store.len() < end {
        store.resize(end, 0);
    }
    store[w.offset..end].copy_from_slice(&w.data);
}

fn read_at(store: &[u8], offset: usize, len: usize) -> Vec<u8> {
    let mut v = vec![0u8; len];
    let avail = store.len().saturating_sub(offset).min(len);
    v[..avail].copy_from_slice(&store[offset..offset + avail]);
    v
}

fn fresh() -> RecordTable {
    RecordTable::new("hunter2").expect("new table").0
}

fn create_file(t: &mut RecordTable, store: &mut Vec<u8>, name: &str, contents: &[u8]) -> Record {
    let (file, w) = t.store_contents(contents).expect("store");
    write_at(store, &w);
    t.create(name, Some(file)).expect("create")
}

fn names(records: &[Record]) -> Vec<String> {
    records.iter().map(|r| r.name.clone()).collect()
}

#[test]
fn new_table_has_root_directory() {
    let (t, phc) = RecordTable::new("pw").unwrap();
    assert_eq!(t.record_count(), 1);
    assert_eq!(t.working_dir_id(), 0);
    let root = t.working_dir();
    assert_eq!(root.id, 0);
    assert_eq!(root.name, "");
    assert!(matches!(root.inner, RecordInner::Directory(ref d) if d.len() == 0));
    assert!(phc.starts_with("$argon2id$"));
    assert!(t.meta().is_well_formed());
    assert_eq!(t.meta().end_offset, 0);
    assert!(t.meta().free_fragments.is_empty());
}

#[test]
fn create_directory_lists_in_working_dir() {
    let mut t = fresh();
    let d = t.create("docs", None).unwrap();
    assert_eq!(d.id, 1);
    assert_eq!(d.name, "docs");
    let (root, children) = t.get_dir_entries(0).unwrap();
    assert_eq!(root.id, 0);
    assert_eq!(names(&children), vec!["docs".to_string()]);
    assert_eq!(children[0].id, 1);
    assert!(matches!(children[0].inner, RecordInner::Directory(_)));
}

#[test]
fn created_names_keep_insertion_order_and_replace() {
    let mut t = fresh();
    t.create("a", None).unwrap();
    t.create("b", None).unwrap();
    let c = t.create("a", None).unwrap();
    let (_, children) = t.get_dir_entries(0).unwrap();
    assert_eq!(names(&children), vec!["a".to_string(), "b".to_string()]);
    assert_eq!(children[0].id, c.id);
    assert_eq!(c.id, 3);
}

#[test]
fn stored_file_record_fields() {
    let mut t = fresh();
    let contents = b"hello world".to_vec();
    let (file, w) = t.store_contents(&contents).unwrap();
    assert_eq!(file.size, 11);
    assert_eq!(file.checksum, xxhash_rust::xxh3::xxh3_64(&contents));
    assert_eq!(file.offset, 0);
    assert_eq!(w.offset, 0);
    // the ciphertext does not compress, so the record counts the ciphertext
    assert!(!file.is_compressed);
    assert_eq!(file.len, contents.len() + 16);
    // the bytes to write are Snappy's compression of the ciphertext
    let ct = snap::raw::Decoder::new().decompress_vec(&w.data).unwrap();
    assert_eq!(ct.len(), contents.len() + 16);
    assert_ne!(ct, contents);
    assert!(w.data.len() > file.len);
    assert_eq!(t.meta().end_offset, file.len);
}

#[test]
fn read_back_of_uncompressed_file_fails_to_decrypt() {
    let mut t = fresh();
    let mut store = Vec::new();
    let rec = create_file(&mut t, &mut store, "f", b"some contents");
    let file = t.locate_file(rec.id).unwrap();
    let stored = read_at(&store, file.offset, file.len);
    assert_eq!(t.decode_file(rec.id, stored), Err(StoreError::Cipher));
}

#[test]
fn stored_form_reads_back_as_contents() {
    let mut t = fresh();
    let contents = b"the quick brown fox".to_vec();
    let (file, w) = t.store_contents(&contents).unwrap();
    let rec = t.create("fox", Some(file)).unwrap();
    let ciphertext = snap::raw::Decoder::new().decompress_vec(&w.data).unwrap();
    assert_eq!(t.decode_file(rec.id, ciphertext), Ok(contents));
}

#[test]
fn decode_with_wrong_checksum_is_corrupted() {
    let (t, _) = RecordTable::new("pw").unwrap();
    let crypt: Crypt = t.crypt().clone();
    let key = RecordTable::unlock_store_key("pw", &crypt).unwrap().unwrap();
    let mut t2 = RecordTable::from_parts(key, fresh_meta(), crypt.clone());
    let contents = b"abc".to_vec();
    let (mut file, w) = t2.store_contents(&contents).unwrap();
    file.checksum ^= 1;
    let rec = t2.create("abc", Some(file)).unwrap();
    let ciphertext = snap::raw::Decoder::new().decompress_vec(&w.data).unwrap();
    assert_eq!(
        t2.decode_file(rec.id, ciphertext),
        Err(StoreError::CorruptedData { name: "abc".to_string(), id: rec.id })
    );
}

#[test]
fn decode_compressed_record_with_bad_bytes_is_compression_error() {
    let mut t = fresh();
    let mut store = Vec::new();
    let (mut file, w) = t.store_contents(b"xyz").unwrap();
    write_at(&mut store, &w);
    file.is_compressed = true;
    let rec = t.create("xyz", Some(file)).unwrap();
    assert_eq!(t.decode_file(rec.id, vec![0xff, 0xff, 0xff, 0xff, 0xff, 0xff]), Err(StoreError::Compression));
}

#[test]
fn locate_file_on_directory_is_not_file() {
    let mut t = fresh();
    let d = t.create("d", None).unwrap();
    assert_eq!(t.locate_file(d.id), Err(StoreError::NotFile { name: "d".to_string() }));
}

#[test]
fn locate_file_stamps_access() {
    let mut t = fresh();
    let mut store = Vec::new();
    let rec = create_file(&mut t, &mut store, "f", b"1");
    let before = t.meta().entries[rec.id].file_times;
    t.locate_file(rec.id).unwrap();
    let after = t.meta().entries[rec.id].file_times;
    assert_eq!(before.created, after.created);
    assert!(after.accessed >= before.accessed);
}

#[test]
fn read_directory_of_file_is_not_directory() {
    let mut t = fresh();
    let mut store = Vec::new();
    let rec = create_file(&mut t, &mut store, "f", b"1");
    assert_eq!(t.read_directory(rec.id), Err(StoreError::NotDirectory { name: "f".to_string() }));
}

#[test]
fn read_directory_lists_children() {
    let mut t = fresh();
    let mut store = Vec::new();
    create_file(&mut t, &mut store, "x", b"1");
    t.create("y", None).unwrap();
    let list = t.read_directory(0).unwrap();
    assert_eq!(names(&list), vec!["x".to_string(), "y".to_string()]);
}

#[test]
fn rename_moves_name() {
    let mut t = fresh();
    let d = t.create("old", None).unwrap();
    t.rename("old", "new").unwrap();
    let (_, children) = t.get_dir_entries(0).unwrap();
    assert_eq!(names(&children), vec!["new".to_string()]);
    assert_eq!(children[0].id, d.id);
    assert_eq!(t.meta().entries[d.id].name, "new");
}

#[test]
fn rename_missing_is_not_found() {
    let mut t = fresh();
    assert_eq!(t.rename("nope", "x"), Err(StoreError::NotFound { name: "nope".to_string() }));
}

#[test]
fn send_moves_into_subdirectory() {
    let mut t = fresh();
    let dir = t.create("dir", None).unwrap();
    let f = t.create("f", None).unwrap();
    t.send(f.id, &["dir".to_string()]).unwrap();
    let (_, root_children) = t.get_dir_entries(0).unwrap();
    assert_eq!(names(&root_children), vec!["dir".to_string()]);
    let (_, dir_children) = t.get_dir_entries(dir.id).unwrap();
    assert_eq!(names(&dir_children), vec!["f".to_string()]);
}

#[test]
fn send_with_empty_path_goes_to_root() {
    let mut t = fresh();
    let dir = t.create("dir", None).unwrap();
    t.set_working_dir_id(dir.id);
    let f = t.create("f", None).unwrap();
    t.send(f.id, &[]).unwrap();
    let (_, root_children) = t.get_dir_entries(0).unwrap();
    assert_eq!(names(&root_children), vec!["dir".to_string(), "f".to_string()]);
    let (_, dir_children) = t.get_dir_entries(dir.id).unwrap();
    assert!(dir_children.is_empty());
}

#[test]
fn send_to_missing_path_reports_record_name() {
    let mut t = fresh();
    let f = t.create("f", None).unwrap();
    assert_eq!(t.send(f.id, &["missing".to_string()]), Err(StoreError::NotFound { name: "f".to_string() }));
    // the name has left the working directory
    let (_, root_children) = t.get_dir_entries(0).unwrap();
    assert!(root_children.is_empty());
}

#[test]
fn send_through_a_file_is_not_directory() {
    let mut t = fresh();
    let mut store = Vec::new();
    create_file(&mut t, &mut store, "file", b"1");
    let g = t.create("g", None).unwrap();
    assert_eq!(
        t.send(g.id, &["file".to_string(), "x".to_string()]),
        Err(StoreError::NotDirectory { name: "file".to_string() })
    );
}

#[test]
fn send_of_record_not_in_working_dir_is_not_found() {
    let mut t = fresh();
    let d = t.create("d", None).unwrap();
    t.set_working_dir_id(d.id);
    assert_eq!(t.send(d.id, &[]), Err(StoreError::NotFound { name: "d".to_string() }));
}

#[test]
fn delete_file_frees_and_resets_record() {
    let mut t = fresh();
    let mut store = Vec::new();
    let rec = create_file(&mut t, &mut store, "f", b"data");
    let file = *rec.as_file().unwrap();
    t.pin(rec.id);
    let mut wipes = Vec::new();
    t.delete(rec.id, &mut wipes).unwrap();
    assert_eq!(wipes, vec![(file.offset, file.len)]);
    assert_eq!(t.meta().entries[rec.id], Record::default());
    assert_eq!(t.meta().empty_records, vec![rec.id]);
    assert!(t.get_pinned().is_empty());
    // no group of that size existed, so the freed extent was not kept; the
    // merge then leaves the single empty extent at offset 0
    assert_eq!(t.meta().free_fragments, vec![(0usize, vec![0usize])]);
    let (_, children) = t.get_dir_entries(0).unwrap();
    assert!(children.is_empty());
}

#[test]
fn deleted_id_is_reused() {
    let mut t = fresh();
    let a = t.create("a", None).unwrap();
    let mut wipes = Vec::new();
    t.delete(a.id, &mut wipes).unwrap();
    assert!(wipes.is_empty());
    let b = t.create("b", None).unwrap();
    assert_eq!(b.id, a.id);
    assert!(t.meta().empty_records.is_empty());
}

#[test]
fn delete_directory_deletes_children() {
    let mut t = fresh();
    let mut store = Vec::new();
    let d = t.create("d", None).unwrap();
    t.set_working_dir_id(d.id);
    let f1 = create_file(&mut t, &mut store, "one", b"1111");
    let f2 = create_file(&mut t, &mut store, "two", b"22");
    t.set_working_dir_id(0);
    let mut wipes = Vec::new();
    t.delete(d.id, &mut wipes).unwrap();
    let e1 = *f1.as_file().unwrap();
    let e2 = *f2.as_file().unwrap();
    assert_eq!(wipes, vec![(e1.offset, e1.len), (e2.offset, e2.len)]);
    assert_eq!(t.meta().empty_records, vec![f1.id, f2.id, d.id]);
    assert_eq!(t.working_dir_id(), 0);
    assert_eq!(t.record_count(), 4);
}

#[test]
fn delete_missing_name_is_not_found() {
    let mut t = fresh();
    let d = t.create("d", None).unwrap();
    t.set_working_dir_id(d.id);
    let mut wipes = Vec::new();
    assert_eq!(t.delete(d.id, &mut wipes), Err(StoreError::NotFound { name: "d".to_string() }));
}

#[test]
fn freed_extents_without_a_group_are_not_kept() {
    let mut t = fresh();
    let mut store = Vec::new();
    let a = create_file(&mut t, &mut store, "a", b"aaaa");
    let b = create_file(&mut t, &mut store, "b", b"bbbb");
    let end = t.meta().end_offset;
    let mut wipes = Vec::new();
    t.delete(a.id, &mut wipes).unwrap();
    t.delete(b.id, &mut wipes).unwrap();
    assert_eq!(t.meta().free_fragments, vec![(0usize, vec![0usize])]);
    // the next file goes to the end of the store
    let (c_file, w) = t.store_contents(b"cccc").unwrap();
    assert_eq!(w.offset, end);
    assert_eq!(c_file.offset, end);
    assert_eq!(t.meta().end_offset, end + c_file.len);
}

#[test]
fn kept_free_extent_is_reused() {
    let mut meta = fresh_meta();
    meta.free_fragments = vec![(100usize, vec![500usize])];
    meta.end_offset = 1000;
    let (t0, _) = RecordTable::new("pw").unwrap();
    let crypt = t0.crypt().clone();
    let key = RecordTable::unlock_store_key("pw", &crypt).unwrap().unwrap();
    let mut t = RecordTable::from_parts(key, meta, crypt);
    let (file, w) = t.store_contents(b"small").unwrap();
    assert_eq!(file.offset, 500);
    assert_eq!(w.offset, 500);
    assert_eq!(t.meta().end_offset, 1000);
    assert_eq!(t.meta().free_fragments, vec![(100usize, vec![])]);
}

#[test]
fn pin_unpin_get_pinned() {
    let mut t = fresh();
    let a = t.create("a", None).unwrap();
    let b = t.create("b", None).unwrap();
    t.pin(a.id);
    t.pin(b.id);
    let mut pinned: Vec<usize> = t.get_pinned().iter().map(|r| r.id).collect();
    pinned.sort();
    assert_eq!(pinned, vec![a.id, b.id]);
    t.unpin(a.id);
    let pinned: Vec<usize> = t.get_pinned().iter().map(|r| r.id).collect();
    assert_eq!(pinned, vec![b.id]);
    t.unpin(b.id);
    assert!(t.get_pinned().is_empty());
}

#[test]
fn sizes_of_records() {
    let mut t = fresh();
    let mut store = Vec::new();
    let d = t.create("d", None).unwrap();
    t.set_working_dir_id(d.id);
    create_file(&mut t, &mut store, "one", b"12345");
    create_file(&mut t, &mut store, "two", b"123");
    t.set_working_dir_id(0);
    let f = create_file(&mut t, &mut store, "three", b"1234567");
    let root = t.working_dir().clone();
    assert_eq!(t.get_size(&f), Ok(7));
    assert_eq!(t.get_size(&t.meta().entries[d.id].clone()), Ok(8));
    assert_eq!(t.get_size(&root), Ok(15));
    assert_eq!(t.get_size(&Record::default()), Ok(0));
    assert_eq!(t.get_size_within(&root, 0), None);
    assert_eq!(t.get_size_within(&root, 1), None);
    assert_eq!(t.get_size_within(&root, 3), Some(Ok(15)));
}

fn record(id: usize, name: &str, inner: RecordInner) -> Record {
    Record { id, name: name.to_string(), file_times: FileTimes::default(), inner }
}

fn file_of_size(size: usize) -> RecordInner {
    RecordInner::File(FileRecord { checksum: 0, offset: 0, len: 0, nonce: [0; 12], is_compressed: false, size })
}

fn fresh_meta() -> Meta {
    Meta {
        entries: vec![record(0, "", RecordInner::Directory(DirectoryRecord::new()))],
        free_fragments: Vec::new(),
        empty_records: Vec::new(),
        end_offset: 0,
        pinned: HashSet::new(),
    }
}

fn table_with(entries: Vec<Record>) -> RecordTable {
    let (t, _) = RecordTable::new("pw").unwrap();
    let crypt = t.crypt().clone();
    let key = RecordTable::unlock_store_key("pw", &crypt).unwrap().unwrap();
    let meta = Meta { entries, free_fragments: Vec::new(), empty_records: Vec::new(), end_offset: 0, pinned: HashSet::new() };
    assert!(meta.is_well_formed());
    RecordTable::from_parts(key, meta, crypt)
}

#[test]
fn sizes_through_links() {
    let root = DirectoryRecord::from_pairs(vec![("f".to_string(), 1), ("l".to_string(), 2), ("m".to_string(), 3)]);
    let t = table_with(vec![
        record(0, "", RecordInner::Directory(root)),
        record(1, "f", file_of_size(10)),
        record(2, "l", RecordInner::Symlink(SymlinkRecord { reference_record_id: 1, is_file: true })),
        record(3, "m", RecordInner::Symlink(SymlinkRecord { reference_record_id: 2, is_file: false })),
    ]);
    assert_eq!(t.get_size(&t.meta().entries[2].clone()), Ok(10));
    assert_eq!(t.get_size(&t.meta().entries[3].clone()), Ok(10));
    assert_eq!(t.get_size(&t.meta().entries[0].clone()), Ok(30));
}

#[test]
fn file_link_to_directory_is_not_file() {
    let t = table_with(vec![
        record(0, "", RecordInner::Directory(DirectoryRecord::new())),
        record(1, "l", RecordInner::Symlink(SymlinkRecord { reference_record_id: 0, is_file: true })),
    ]);
    assert_eq!(t.get_size(&t.meta().entries[1].clone()), Err(StoreError::NotFile { name: "".to_string() }));
}

#[test]
fn cyclic_links_never_settle() {
    let t = table_with(vec![
        record(0, "", RecordInner::Directory(DirectoryRecord::new())),
        record(1, "a", RecordInner::Symlink(SymlinkRecord { reference_record_id: 1, is_file: false })),
    ]);
    assert_eq!(t.get_size_within(&t.meta().entries[1].clone(), 1000), None);
}

#[test]
fn ill_formed_meta_is_detected() {
    let mut meta = fresh_meta();
    assert!(meta.is_well_formed());
    meta.empty_records.push(5);
    assert!(!meta.is_well_formed());
    let mut meta = fresh_meta();
    meta.free_fragments = vec![(4, vec![1]), (4, vec![2])];
    assert!(!meta.is_well_formed());
    let mut meta = fresh_meta();
    meta.free_fragments = vec![(4, vec![usize::MAX])];
    assert!(!meta.is_well_formed());
    let mut meta = fresh_meta();
    meta.entries.push(record(1, "bad", RecordInner::Directory(DirectoryRecord::from_pairs(vec![("x".to_string(), 9)]))));
    assert!(!meta.is_well_formed());
}

#[test]
fn unlock_with_right_and_wrong_password() {
    let (t, _) = RecordTable::new("right").unwrap();
    let crypt = t.crypt().clone();
    let key = RecordTable::unlock_store_key("right", &crypt).unwrap().unwrap();
    assert_eq!(RecordTable::unlock_store_key("wrong", &crypt), Err(StoreError::Cipher));
    // the unlocked key decrypts what the table encrypts
    let sealed = t.seal_meta(b"bookkeeping").unwrap();
    assert_eq!(RecordTable::unseal_meta(&key, &crypt, &sealed), Ok(b"bookkeeping".to_vec()));
    assert_eq!(sealed.len(), b"bookkeeping".len() + 16);
}

#[test]
fn unseal_of_tampered_meta_is_cipher_error() {
    let (t, _) = RecordTable::new("pw").unwrap();
    let crypt = t.crypt().clone();
    let key = RecordTable::unlock_store_key("pw", &crypt).unwrap().unwrap();
    let mut sealed = t.seal_meta(b"meta").unwrap();
    sealed[0] ^= 1;
    assert_eq!(RecordTable::unseal_meta(&key, &crypt, &sealed), Err(StoreError::Cipher));
}

#[test]
fn fresh_stores_get_fresh_salts_and_keys() {
    let (a, _) = RecordTable::new("pw").unwrap();
    let (b, _) = RecordTable::new("pw").unwrap();
    assert_ne!(a.crypt().user_salt, b.crypt().user_salt);
    assert_ne!(a.crypt().store_key, b.crypt().store_key);
    assert_eq!(a.crypt().store_key.len(), 48);
}

#[test]
fn as_directory_mut_inserts() {
    let mut r = record(0, "root", RecordInner::Directory(DirectoryRecord::new()));
    r.as_directory_mut().unwrap().insert("x".to_string(), 7);
    assert_eq!(r.as_directory().unwrap().get("x"), Some(7));
    let mut f = record(1, "f", file_of_size(1));
    assert_eq!(f.as_directory_mut().err(), Some(StoreError::NotDirectory { name: "f".to_string() }));
    assert_eq!(f.as_directory().err(), Some(StoreError::NotDirectory { name: "f".to_string() }));
    assert!(f.as_file().is_ok());
}

#[test]
fn empty_file_has_size_zero_and_tag_only() {
    let mut t = fresh();
    let mut store = Vec::new();
    let rec = create_file(&mut t, &mut store, "empty", b"");
    let file = *rec.as_file().unwrap();
    assert_eq!(file.size, 0);
    assert_eq!(file.len, 16);
    assert_eq!(t.get_size(&rec), Ok(0));
}

#[test]
fn get_dir_entries_of_file_is_not_directory() {
    let mut t = fresh();
    let mut store = Vec::new();
    let rec = create_file(&mut t, &mut store, "f", b"1");
    assert_eq!(t.get_dir_entries(rec.id).err(), Some(StoreError::NotDirectory { name: "f".to_string() }));
}

#[test]
fn working_dir_mut_changes_working_directory() {
    let mut t = fresh();
    t.working_dir_mut().unwrap().insert("ghost".to_string(), 0);
    assert_eq!(t.working_dir().as_directory().unwrap().get("ghost"), Some(0));
    let (_, children) = t.get_dir_entries(0).unwrap();
    assert_eq!(names(&children), vec!["".to_string()]);
    let f = t.create("plain", None).unwrap();
    let mut store = Vec::new();
    let file = create_file(&mut t, &mut store, "file", b"x");
    t.set_working_dir_id(file.id);
    assert_eq!(t.working_dir_mut().err(), Some(StoreError::NotDirectory { name: "file".to_string() }));
    // creating in a working directory that is no directory stores the record but fails
    assert_eq!(t.create("lost", None), Err(StoreError::NotDirectory { name: "file".to_string() }));
    assert_eq!(t.record_count(), f.id + 3);
}

#[test]
fn new_table_key_file_checks_the_password() {
    let (_, phc) = RecordTable::new("open sesame").unwrap();
    let hash = PasswordHash::new(&phc).unwrap();
    assert!(Argon2::default().verify_password(b"open sesame", &hash).is_ok());
    assert!(Argon2::default().verify_password(b"open sesame!", &hash).is_err());
    let (_, other) = RecordTable::new("open sesame").unwrap();
    assert_ne!(phc, other);
}

#[test]
fn new_table_accepts_the_empty_password() {
    let (t, phc) = RecordTable::new("").unwrap();
    assert_eq!(t.record_count(), 1);
    let hash = PasswordHash::new(&phc).unwrap();
    assert!(Argon2::default().verify_password(b"", &hash).is_ok());
}

#[test]
fn size_of_a_record_outside_the_table() {
    let root = DirectoryRecord::from_pairs(vec![("f".to_string(), 1)]);
    let t = table_with(vec![record(0, "", RecordInner::Directory(root)), record(1, "f", file_of_size(10))]);
    let link = record(99, "l", RecordInner::Symlink(SymlinkRecord { reference_record_id: 1, is_file: true }));
    assert!(record_targets_ok(&link, t.record_count()));
    assert_eq!(t.get_size(&link), Ok(10));
    let far = RecordInner::File(FileRecord {
        checksum: 0,
        offset: usize::MAX,
        len: 5,
        nonce: [0; 12],
        is_compressed: false,
        size: 7,
    });
    assert_eq!(t.get_size(&record(1000, "far", far)), Ok(7));
    let dangling = record(0, "d", RecordInner::Symlink(SymlinkRecord { reference_record_id: 2, is_file: false }));
    assert!(!record_targets_ok(&dangling, t.record_count()));
    let dir = record(5, "d", RecordInner::Directory(DirectoryRecord::from_pairs(vec![("x".to_string(), 7)])));
    assert!(!record_targets_ok(&dir, t.record_count()));
}

#[test]
fn create_then_delete_restores_working_directory() {
    let mut t = fresh();
    t.create("keep", None).unwrap();
    let before = t.working_dir().clone();
    let made = t.create("tmp", None).unwrap();
    let mut wipes = Vec::new();
    assert_eq!(t.delete(made.id, &mut wipes), Ok(()));
    assert!(wipes.is_empty());
    assert_eq!(t.working_dir(), &before);
    assert_eq!(t.meta().entries[made.id], Record::default());
    assert_eq!(t.meta().empty_records.last(), Some(&made.id));
}


#[test]
fn creating_a_file_grows_the_working_directory() {
    let mut t = fresh();
    let mut store = Vec::new();
    create_file(&mut t, &mut store, "a", b"12345");
    let before = t.get_size(&t.working_dir().clone()).unwrap();
    assert_eq!(before, 5);
    let rec = create_file(&mut t, &mut store, "b", b"abc");
    assert_eq!(t.get_size(&rec), Ok(3));
    assert_eq!(t.get_size(&t.working_dir().clone()), Ok(before + 3));
}

#[test]
fn deleting_a_file_keeps_reusable_ids_distinct_and_empty() {
    let mut t = fresh();
    let mut store = Vec::new();
    let a = create_file(&mut t, &mut store, "a", b"aa");
    let b = create_file(&mut t, &mut store, "b", b"bbb");
    let mut wipes = Vec::new();
    t.delete(a.id, &mut wipes).unwrap();
    t.delete(b.id, &mut wipes).unwrap();
    assert_eq!(t.meta().empty_records, vec![a.id, b.id]);
    for &id in &t.meta().empty_records {
        assert_eq!(t.meta().entries[id], Record::default());
    }
}

#[test]
fn create_into_the_record_it_adds() {
    let mut t = fresh();
    t.set_working_dir_id(1);
    let made = t.create("a", None).unwrap();
    assert_eq!(made.id, 1);
    let (dir, children) = t.get_dir_entries(1).unwrap();
    assert_eq!(dir.name, "a");
    assert_eq!(children.len(), 1);
    assert_eq!(children[0].id, 1);
}

#[test]
fn create_file_into_the_record_it_adds_is_not_directory() {
    let mut t = fresh();
    t.set_working_dir_id(1);
    let file = FileRecord { checksum: 0, offset: 0, len: 0, nonce: [0; 12], is_compressed: false, size: 0 };
    assert_eq!(t.create("f", Some(file)), Err(StoreError::NotDirectory { name: "f".to_string() }));
    assert_eq!(t.record_count(), 2);
}

#[test]
fn rename_there_and_back() {
    let mut t = fresh();
    let a = t.create("a", None).unwrap();
    t.create("z", None).unwrap();
    assert_eq!(t.rename("a", "b"), Ok(()));
    assert_eq!(t.rename("b", "a"), Ok(()));
    let (_, children) = t.get_dir_entries(0).unwrap();
    let mut got: Vec<(String, usize)> = children.iter().map(|r| (r.name.clone(), r.id)).collect();
    got.sort();
    assert_eq!(got, vec![("a".to_string(), a.id), ("z".to_string(), a.id + 1)]);
    assert_eq!(t.meta().entries[a.id].name, "a");
}

#[test]
fn deleting_a_directory_keeps_reusable_ids_distinct_and_empty() {
    let mut t = fresh();
    let mut store = Vec::new();
    let d = t.create("d", None).unwrap();
    t.set_working_dir_id(d.id);
    create_file(&mut t, &mut store, "x", b"xx");
    t.create("sub", None).unwrap();
    t.set_working_dir_id(0);
    let mut wipes = Vec::new();
    t.delete(d.id, &mut wipes).unwrap();
    let empties = t.meta().empty_records.clone();
    assert_eq!(empties.len(), 3);
    for (i, &id) in empties.iter().enumerate() {
        assert!(!empties[i + 1..].contains(&id));
        assert_eq!(t.meta().entries[id], Record::default());
    }
}

#[test]
fn creating_an_empty_file_in_a_reused_slot_keeps_the_size() {
    let mut t = fresh();
    let mut store = Vec::new();
    create_file(&mut t, &mut store, "a", b"1234");
    let gone = t.create("gone", None).unwrap();
    let mut wipes = Vec::new();
    t.delete(gone.id, &mut wipes).unwrap();
    let before = t.get_size(&t.working_dir().clone()).unwrap();
    let rec = create_file(&mut t, &mut store, "e", b"");
    assert_eq!(rec.id, gone.id);
    assert_eq!(t.get_size(&t.working_dir().clone()), Ok(before));
}
