use propdump_cell::aw::Object;
use propdump_cell::ctree::{
    error, init, insert_or_append, Call, DatAddr, DatFile, Error, IdxFile, Insert, OpenDat,
    OpenIdx, Reply, Single, Step, DUPLICATE_KEY, KEY_OUT_OF_ORDER,
};
use propdump_cell::loader::{BulkLoader, Drain, Finish, Load, Loaded};
use propdump_cell::writer::{make_cell_key, CellWrite, ObjectWriter};
use std::collections::BTreeMap;

const IDX: IdxFile = IdxFile(7, 6);
const DAT: DatFile = DatFile(3);

/// A record store in memory that answers calls as the engine would.
struct Store {
    index: BTreeMap<Vec<u8>, i32>,
    records: BTreeMap<i32, Vec<u8>>,
    next_addr: i32,
    last_loaded: Option<Vec<u8>>,
    calls: Vec<Call>,
    /// The call, counted from zero, that is answered by `answer` instead.
    fault: Option<(usize, Reply)>,
}

impl Store {
    fn new() -> Store {
        Store {
            index: BTreeMap::new(),
            records: BTreeMap::new(),
            next_addr: 100,
            last_loaded: None,
            calls: Vec::new(),
            fault: None,
        }
    }

    fn with(entries: &[(&[u8], &[u8])]) -> Store {
        let mut store = Store::new();
        for (key, data) in entries {
            let addr = store.next_addr;
            store.next_addr += 16;
            store.records.insert(addr, data.to_vec());
            store.index.insert(key.to_vec(), addr);
        }
        store
    }

    fn get(&self, key: &[u8]) -> Option<Vec<u8>> {
        self.index.get(key).map(|addr| self.records[addr].clone())
    }

    fn perform(&mut self, call: Call) -> Reply {
        let nth = self.calls.len();
        self.calls.push(call.clone());
        if let Some((at, reply)) = self.fault.clone() {
            if at == nth {
                return reply;
            }
        }
        match call {
            Call::InitCTree { .. } => Reply::Status(0),
            Call::AvailableFileNbr { .. } => Reply::Status(4),
            Call::OpenCtFile { .. } => Reply::Status(0),
            Call::CloseCtFile { .. } => Reply::Status(0),
            Call::GetCtFileInfo { .. } => Reply::Long(6),
            Call::NewVData { datno, varlen } => {
                assert_eq!(datno, DAT.0);
                let addr = self.next_addr;
                self.next_addr += 16;
                self.records.insert(addr, vec![0; varlen as usize]);
                Reply::Long(addr)
            }
            Call::WriteVData { datno, recbyt, data } => {
                assert_eq!(datno, DAT.0);
                match self.records.get_mut(&recbyt.0) {
                    Some(slot) => {
                        *slot = data;
                        Reply::Status(0)
                    }
                    None => Reply::Status(29),
                }
            }
            Call::VDataLength { recbyt, .. } => match self.records.get(&recbyt.0) {
                Some(data) => Reply::Long(data.len() as i32),
                None => Reply::Long(0),
            },
            Call::ReadVData { recbyt, len, .. } => match self.records.get(&recbyt.0) {
                Some(data) if data.len() == len as usize => Reply::Data(0, data.clone()),
                _ => Reply::Data(29, Vec::new()),
            },
            Call::ReleaseVData { recbyt, .. } => match self.records.remove(&recbyt.0) {
                Some(_) => Reply::Status(0),
                None => Reply::Status(29),
            },
            Call::AddKey { keyno, key, recbyt, typadd } => {
                assert_eq!(keyno, IDX.0);
                assert_eq!(typadd, 0);
                assert_eq!(key.len(), IDX.1);
                if self.index.contains_key(&key) {
                    Reply::Status(DUPLICATE_KEY)
                } else {
                    self.index.insert(key, recbyt.0);
                    Reply::Status(0)
                }
            }
            Call::GetKey { key, .. } => Reply::Long(self.index.get(&key).copied().unwrap_or(0)),
            Call::DeleteKey { key, recbyt, .. } => {
                if self.index.get(&key) == Some(&recbyt.0) {
                    self.index.remove(&key);
                    Reply::Status(0)
                } else {
                    Reply::Status(4)
                }
            }
            Call::FirstKey { keylen, .. } => match self.index.iter().next() {
                Some((key, addr)) => Reply::Entry(*addr, key.clone()),
                None => Reply::Entry(0, vec![0; keylen]),
            },
            Call::LoadKey { key, recbyt, first, .. } => {
                let in_order = first
                    || match &self.last_loaded {
                        Some(last) => *last < key,
                        None => true,
                    };
                if in_order {
                    self.index.insert(key.clone(), recbyt.0);
                    self.last_loaded = Some(key);
                    Reply::Status(0)
                } else {
                    Reply::Status(KEY_OUT_OF_ORDER)
                }
            }
            Call::EndLoad { key, .. } => {
                assert_eq!(key, vec![0u8; IDX.1]);
                self.last_loaded = None;
                Reply::Status(0)
            }
        }
    }
}

fn run<S, T>(
    store: &mut Store,
    first: Step<S, T>,
    resume: fn(S, Reply) -> Step<S, T>,
) -> Result<T, Error> {
    let mut step = first;
    loop {
        match step {
            Step::Done(result) => return result,
            Step::Ask(state, call) => {
                let reply = store.perform(call);
                step = resume(state, reply);
            }
        }
    }
}

fn insert(store: &mut Store, key: &[u8], data: &[u8]) -> Result<(), Error> {
    run(store, insert_or_append(&IDX, &DAT, key, data), Insert::resume)
}

fn put(store: &mut Store, write: Option<CellWrite>) {
    if let Some(w) = write {
        insert(store, &w.key, &w.data).unwrap();
    }
}

fn names(calls: &[Call]) -> Vec<&'static str> {
    calls
        .iter()
        .map(|call| match call {
            Call::InitCTree { .. } => "InitCTree",
            Call::AvailableFileNbr { .. } => "AvailableFileNbr",
            Call::OpenCtFile { .. } => "OpenCtFile",
            Call::CloseCtFile { .. } => "CloseCtFile",
            Call::GetCtFileInfo { .. } => "GetCtFileInfo",
            Call::NewVData { .. } => "NewVData",
            Call::WriteVData { .. } => "WriteVData",
            Call::VDataLength { .. } => "VDataLength",
            Call::ReadVData { .. } => "ReadVData",
            Call::ReleaseVData { .. } => "ReleaseVData",
            Call::AddKey { .. } => "AddKey",
            Call::GetKey { .. } => "GetKey",
            Call::DeleteKey { .. } => "DeleteKey",
            Call::FirstKey { .. } => "FirstKey",
            Call::LoadKey { .. } => "LoadKey",
            Call::EndLoad { .. } => "EndLoad",
        })
        .collect()
}

fn object_at(x: i32, z: i32, name: &[u8]) -> Object {
    Object {
        type_: 0,
        id: 0,
        number: 0,
        citnum: 1,
        time: 2,
        x,
        y: 0,
        z,
        yaw: 0,
        tilt: 0,
        roll: 0,
        name: name.to_vec(),
        desc: vec![],
        action: vec![],
        data: vec![],
    }
}

fn record(o: &Object) -> Vec<u8> {
    let mut out = Vec::new();
    o.write(&mut out).unwrap();
    out
}

fn joined(a: &[u8], b: &[u8]) -> Vec<u8> {
    let mut out = a.to_vec();
    out.extend_from_slice(b);
    out
}

#[test]
fn status_zero_is_success() {
    assert_eq!(error(0), Ok(()));
}

#[test]
fn any_other_status_is_its_own_error() {
    assert_eq!(error(5), Err(Error::CTree(5)));
    assert_eq!(error(-1), Err(Error::CTree(-1)));
    assert_eq!(error(DUPLICATE_KEY), Err(Error::CTree(2)));
}

#[test]
fn check_key_takes_the_exact_length_only() {
    assert_eq!(IDX.check_key(b"abcdef"), Ok(()));
    assert_eq!(IDX.check_key(b"abcde"), Err(Error::BadKeyLength));
    assert_eq!(IDX.check_key(b"abcdefg"), Err(Error::BadKeyLength));
    assert_eq!(IDX.check_key(b""), Err(Error::BadKeyLength));
}

#[test]
fn insert_into_an_empty_store_adds_the_record() {
    let mut store = Store::new();
    assert_eq!(insert(&mut store, b"key001", b"payload"), Ok(()));
    assert_eq!(store.get(b"key001"), Some(b"payload".to_vec()));
    assert_eq!(store.records.len(), 1);
    assert_eq!(names(&store.calls), vec!["NewVData", "WriteVData", "AddKey"]);
}

#[test]
fn insert_asks_for_a_record_as_long_as_the_payload() {
    match insert_or_append(&IDX, &DAT, b"key001", b"12345") {
        Step::Ask(_, Call::NewVData { datno, varlen }) => {
            assert_eq!(datno, 3);
            assert_eq!(varlen, 5);
        }
        other => panic!("unexpected first step {:?}", other),
    }
}

#[test]
fn insert_under_a_held_key_appends() {
    let mut store = Store::new();
    insert(&mut store, b"key001", b"old").unwrap();
    store.calls.clear();
    assert_eq!(insert(&mut store, b"key001", b"new"), Ok(()));
    assert_eq!(store.get(b"key001"), Some(b"oldnew".to_vec()));
    assert_eq!(store.records.len(), 1);
    assert_eq!(store.index.len(), 1);
    assert_eq!(
        names(&store.calls),
        vec![
            "NewVData",
            "WriteVData",
            "AddKey",
            "ReleaseVData",
            "GetKey",
            "VDataLength",
            "ReadVData",
            "DeleteKey",
            "ReleaseVData",
            "NewVData",
            "WriteVData",
            "AddKey",
        ]
    );
}

#[test]
fn insert_keeps_all_payloads_in_call_order() {
    let mut store = Store::new();
    insert(&mut store, b"key001", b"one,").unwrap();
    insert(&mut store, b"key002", b"other").unwrap();
    insert(&mut store, b"key001", b"two,").unwrap();
    insert(&mut store, b"key001", b"three").unwrap();
    assert_eq!(store.get(b"key001"), Some(b"one,two,three".to_vec()));
    assert_eq!(store.get(b"key002"), Some(b"other".to_vec()));
    assert_eq!(store.records.len(), 2);
}

#[test]
fn insert_of_an_empty_payload_keeps_the_old_one() {
    let mut store = Store::new();
    insert(&mut store, b"key001", b"old").unwrap();
    insert(&mut store, b"key001", b"").unwrap();
    assert_eq!(store.get(b"key001"), Some(b"old".to_vec()));
}

#[test]
fn insert_with_a_key_of_the_wrong_length_fails_before_the_key_is_added() {
    let mut store = Store::new();
    assert_eq!(insert(&mut store, b"short", b"payload"), Err(Error::BadKeyLength));
    assert_eq!(names(&store.calls), vec!["NewVData", "WriteVData"]);
    assert!(store.index.is_empty());
}

#[test]
fn a_record_in_the_reserved_range_is_given_back() {
    let mut store = Store::new();
    store.next_addr = i32::MAX - 21_999;
    assert_eq!(insert(&mut store, b"key001", b"payload"), Err(Error::OutOfSpace));
    assert_eq!(names(&store.calls), vec!["NewVData", "ReleaseVData"]);
    assert!(store.records.is_empty());
    assert!(store.index.is_empty());
}

#[test]
fn out_of_space_does_not_look_at_the_status_of_the_release() {
    let mut store = Store::new();
    store.next_addr = i32::MAX - 5;
    store.fault = Some((1, Reply::Status(33)));
    assert_eq!(insert(&mut store, b"key001", b"payload"), Err(Error::OutOfSpace));
}

#[test]
fn the_last_address_below_the_reserved_range_is_used() {
    let mut store = Store::new();
    store.next_addr = i32::MAX - 22_000;
    assert_eq!(insert(&mut store, b"key001", b"payload"), Ok(()));
    assert_eq!(store.index[&b"key001".to_vec()], i32::MAX - 22_000);
}

#[test]
fn no_address_for_a_new_record_is_status_zero() {
    let mut store = Store::new();
    store.fault = Some((0, Reply::Long(0)));
    assert_eq!(insert(&mut store, b"key001", b"payload"), Err(Error::CTree(0)));
    assert_eq!(store.calls.len(), 1);
}

#[test]
fn a_failed_write_is_fatal() {
    let mut store = Store::new();
    store.fault = Some((1, Reply::Status(37)));
    assert_eq!(insert(&mut store, b"key001", b"payload"), Err(Error::CTree(37)));
    assert_eq!(store.calls.len(), 2);
}

#[test]
fn a_status_of_add_key_other_than_duplicate_is_fatal() {
    let mut store = Store::new();
    store.fault = Some((2, Reply::Status(5)));
    assert_eq!(insert(&mut store, b"key001", b"payload"), Err(Error::CTree(5)));
    assert_eq!(store.calls.len(), 3);
}

#[test]
fn a_duplicate_that_cannot_be_found_is_status_zero() {
    let mut store = Store::with(&[(b"key001", b"old")]);
    store.fault = Some((4, Reply::Long(0)));
    assert_eq!(insert(&mut store, b"key001", b"new"), Err(Error::CTree(0)));
    assert_eq!(store.calls.len(), 5);
}

#[test]
fn a_second_duplicate_is_fatal() {
    let mut store = Store::with(&[(b"key001", b"old")]);
    store.fault = Some((11, Reply::Status(DUPLICATE_KEY)));
    assert_eq!(insert(&mut store, b"key001", b"new"), Err(Error::CTree(2)));
    assert_eq!(store.calls.len(), 12);
}

#[test]
fn each_failed_step_of_the_merge_is_fatal() {
    for at in [3usize, 7, 8, 10] {
        let mut store = Store::with(&[(b"key001", b"old")]);
        store.fault = Some((at, Reply::Status(40)));
        assert_eq!(insert(&mut store, b"key001", b"new"), Err(Error::CTree(40)));
        assert_eq!(store.calls.len(), at + 1);
    }
    let mut store = Store::with(&[(b"key001", b"old")]);
    store.fault = Some((6, Reply::Data(36, Vec::new())));
    assert_eq!(insert(&mut store, b"key001", b"new"), Err(Error::CTree(36)));
}

#[test]
fn a_negative_length_is_status_zero() {
    let mut store = Store::with(&[(b"key001", b"old")]);
    store.fault = Some((5, Reply::Long(-1)));
    assert_eq!(insert(&mut store, b"key001", b"new"), Err(Error::CTree(0)));
    assert_eq!(store.calls.len(), 6);
}

#[test]
fn a_reply_of_the_wrong_kind_is_status_zero() {
    let mut store = Store::new();
    store.fault = Some((0, Reply::Status(0)));
    assert_eq!(insert(&mut store, b"key001", b"payload"), Err(Error::CTree(0)));
    let mut store = Store::new();
    store.fault = Some((1, Reply::Long(0)));
    assert_eq!(insert(&mut store, b"key001", b"payload"), Err(Error::CTree(0)));
    let mut store = Store::new();
    store.fault = Some((2, Reply::Entry(1, Vec::new())));
    assert_eq!(insert(&mut store, b"key001", b"payload"), Err(Error::CTree(0)));
}

#[test]
fn relink_adds_the_key_to_a_written_record() {
    let mut store = Store::new();
    store.records.insert(500, b"parked".to_vec());
    let step = Insert::relink(&IDX, &DAT, b"key001".to_vec(), DatAddr(500));
    assert_eq!(run(&mut store, step, Insert::resume), Ok(()));
    assert_eq!(store.index[&b"key001".to_vec()], 500);
    assert_eq!(names(&store.calls), vec!["AddKey"]);
}

#[test]
fn relink_under_a_held_key_reads_the_record_back_and_appends() {
    let mut store = Store::with(&[(b"key001", b"old")]);
    store.records.insert(500, b"parked".to_vec());
    let step = Insert::relink(&IDX, &DAT, b"key001".to_vec(), DatAddr(500));
    assert_eq!(run(&mut store, step, Insert::resume), Ok(()));
    assert_eq!(store.get(b"key001"), Some(b"oldparked".to_vec()));
    assert_eq!(store.records.len(), 1);
    assert_eq!(
        names(&store.calls)[..5],
        ["AddKey", "VDataLength", "ReadVData", "ReleaseVData", "GetKey"]
    );
}

#[test]
fn relink_with_a_key_of_the_wrong_length_asks_nothing() {
    match Insert::relink(&IDX, &DAT, b"toolongkey".to_vec(), DatAddr(500)) {
        Step::Done(Err(Error::BadKeyLength)) => {}
        other => panic!("unexpected step {:?}", other),
    }
}

#[test]
fn the_key_of_a_cell_is_tag_x_and_z() {
    assert_eq!(make_cell_key(1, -1), vec![1u8, 0, 1, 0, 0xff, 0xff]);
    assert_eq!(make_cell_key(0, 0), vec![1u8, 0, 0, 0, 0, 0]);
    assert_eq!(make_cell_key(0x0102, -2), vec![1u8, 0, 2, 1, 0xfe, 0xff]);
    assert_eq!(make_cell_key(i16::MIN, i16::MAX), vec![1u8, 0, 0, 0x80, 0xff, 0x7f]);
}

#[test]
fn consecutive_objects_of_a_cell_share_one_write() {
    let a = object_at(1500, 2500, b"a");
    let b = object_at(1999, 2000, b"b");
    let mut writer = ObjectWriter::new();
    let mut store = Store::new();
    put(&mut store, writer.add_object(&a).unwrap());
    put(&mut store, writer.add_object(&b).unwrap());
    assert!(store.calls.is_empty());
    put(&mut store, writer.finish());
    assert_eq!(store.get(&make_cell_key(1, 2)), Some(joined(&record(&a), &record(&b))));
    assert_eq!(names(&store.calls), vec!["NewVData", "WriteVData", "AddKey"]);
}

#[test]
fn separated_objects_of_a_cell_are_merged_in_the_store() {
    let a = object_at(1500, 2500, b"a");
    let c = object_at(-1500, 2500, b"c");
    let b = object_at(1999, 2000, b"b");
    let mut writer = ObjectWriter::new();
    let mut store = Store::new();
    let mut writes = 0;
    for o in [&a, &c, &b] {
        let out = writer.add_object(o).unwrap();
        writes += out.is_some() as usize;
        put(&mut store, out);
    }
    let out = writer.finish();
    writes += out.is_some() as usize;
    put(&mut store, out);
    assert_eq!(writes, 3);
    assert_eq!(store.get(&make_cell_key(1, 2)), Some(joined(&record(&a), &record(&b))));
    assert_eq!(store.get(&make_cell_key(-1, 2)), Some(record(&c)));
    assert_eq!(store.index.len(), 2);
    assert_eq!(store.records.len(), 2);
}

#[test]
fn a_cell_that_was_stored_before_keeps_its_old_objects_first() {
    let a = object_at(10, 10, b"a");
    let mut store = Store::with(&[(&[1u8, 0, 0, 0, 0, 0], b"before")]);
    let mut writer = ObjectWriter::new();
    put(&mut store, writer.add_object(&a).unwrap());
    put(&mut store, writer.finish());
    assert_eq!(store.get(&make_cell_key(0, 0)), Some(joined(b"before", &record(&a))));
}

#[test]
fn the_first_object_opens_a_buffer_and_hands_nothing_out() {
    let mut writer = ObjectWriter::new();
    assert!(writer.add_object(&object_at(0, 0, b"a")).unwrap().is_none());
}

#[test]
fn an_object_of_another_cell_hands_the_open_buffer_out() {
    let a = object_at(0, 0, b"a");
    let b = object_at(1000, 0, b"b");
    let mut writer = ObjectWriter::new();
    writer.add_object(&a).unwrap();
    let out = writer.add_object(&b).unwrap().unwrap();
    assert_eq!(out.key, make_cell_key(0, 0));
    assert_eq!(out.data, record(&a));
    let last = writer.finish().unwrap();
    assert_eq!(last.key, make_cell_key(1, 0));
    assert_eq!(last.data, record(&b));
}

#[test]
fn flushing_with_no_open_buffer_does_nothing() {
    let mut writer = ObjectWriter::new();
    assert!(writer.write_current_cell().is_none());
    assert!(writer.write_current_cell().is_none());
    writer.add_object(&object_at(0, 0, b"a")).unwrap();
    assert!(writer.write_current_cell().is_some());
    assert!(writer.write_current_cell().is_none());
    assert!(writer.finish().is_none());
}

#[test]
fn a_flush_in_between_splits_the_buffer() {
    let a = object_at(0, 0, b"a");
    let b = object_at(1, 1, b"b");
    let mut writer = ObjectWriter::new();
    let mut store = Store::new();
    put(&mut store, writer.add_object(&a).unwrap());
    put(&mut store, writer.write_current_cell());
    put(&mut store, writer.add_object(&b).unwrap());
    put(&mut store, writer.finish());
    assert_eq!(store.get(&make_cell_key(0, 0)), Some(joined(&record(&a), &record(&b))));
}

#[test]
fn an_object_that_cannot_be_written_leaves_the_writer_as_it_was() {
    let a = object_at(0, 0, b"a");
    let mut bad = object_at(5000, 5000, b"");
    bad.desc = vec![b'x'; 256];
    let mut writer = ObjectWriter::new();
    writer.add_object(&a).unwrap();
    assert_eq!(writer.add_object(&bad).unwrap_err(), Error::FieldTooLarge);
    let out = writer.finish().unwrap();
    assert_eq!(out.key, make_cell_key(0, 0));
    assert_eq!(out.data, record(&a));
}

#[test]
fn objects_left_and_right_of_zero_share_cell_zero() {
    let a = object_at(0, -500, b"a");
    let b = object_at(-400, -500, b"b");
    let mut writer = ObjectWriter::new();
    assert!(writer.add_object(&a).unwrap().is_none());
    assert!(writer.add_object(&b).unwrap().is_none());
    let out = writer.finish().unwrap();
    assert_eq!(out.key, make_cell_key(0, 0));
    assert_eq!(out.data, joined(&record(&a), &record(&b)));
}

fn make_loader(store: &mut Store) -> BulkLoader {
    run(store, BulkLoader::new(&IDX, &DAT), Drain::resume).unwrap()
}

fn load(store: &mut Store, loader: &mut BulkLoader, key: &[u8], data: &[u8]) -> bool {
    let end = run(store, loader.load(key, data), Load::resume).unwrap();
    let in_order = matches!(end, Loaded::InOrder);
    loader.settle(end);
    in_order
}

fn finish(store: &mut Store, loader: BulkLoader) {
    run(store, loader.finish(), Finish::resume).unwrap();
}

#[test]
fn keys_in_ascending_order_all_take_the_fast_path() {
    let mut store = Store::new();
    let mut loader = make_loader(&mut store);
    let keys: [&[u8]; 4] = [b"key001", b"key002", b"key010", b"kez000"];
    for key in keys {
        assert!(load(&mut store, &mut loader, key, key));
    }
    assert_eq!(loader.deferrals(), 0);
    assert_eq!(store.index.len(), 4);
    store.calls.clear();
    finish(&mut store, loader);
    assert_eq!(names(&store.calls), vec!["EndLoad"]);
    for key in keys {
        assert_eq!(store.get(key), Some(key.to_vec()));
    }
}

#[test]
fn the_first_load_tells_the_store_so() {
    let mut store = Store::new();
    let mut loader = make_loader(&mut store);
    load(&mut store, &mut loader, b"key005", b"a");
    load(&mut store, &mut loader, b"key001", b"b");
    load(&mut store, &mut loader, b"key007", b"c");
    let flags: Vec<bool> = store
        .calls
        .iter()
        .filter_map(|call| match call {
            Call::LoadKey { first, .. } => Some(*first),
            _ => None,
        })
        .collect();
    assert_eq!(flags, vec![true, false, false]);
}

#[test]
fn a_refused_first_load_leaves_the_next_one_first() {
    let mut store = Store::new();
    let mut loader = make_loader(&mut store);
    store.fault = Some((3, Reply::Status(KEY_OUT_OF_ORDER)));
    assert!(!load(&mut store, &mut loader, b"key005", b"a"));
    assert!(load(&mut store, &mut loader, b"key001", b"b"));
    let flags: Vec<bool> = store
        .calls
        .iter()
        .filter_map(|call| match call {
            Call::LoadKey { first, .. } => Some(*first),
            _ => None,
        })
        .collect();
    assert_eq!(flags, vec![true, true]);
    assert_eq!(loader.deferrals(), 1);
}

#[test]
fn keys_out_of_order_are_deferred_and_inserted_at_the_finish() {
    let mut store = Store::new();
    let mut loader = make_loader(&mut store);
    let taken: Vec<bool> = [
        (b"key003", b"3a"),
        (b"key001", b"1a"),
        (b"key005", b"5a"),
        (b"key003", b"3b"),
        (b"key004", b"4a"),
        (b"key005", b"5b"),
        (b"key009", b"9a"),
        (b"key001", b"1b"),
    ]
    .iter()
    .map(|(key, data)| load(&mut store, &mut loader, &key[..], &data[..]))
    .collect();
    assert_eq!(taken, vec![true, false, true, false, false, false, true, false]);
    assert_eq!(loader.deferrals(), 5);
    assert_eq!(store.index.len(), 3);
    finish(&mut store, loader);
    assert_eq!(store.index.len(), 5);
    assert_eq!(store.records.len(), 5);
    assert_eq!(store.get(b"key001"), Some(b"1a1b".to_vec()));
    assert_eq!(store.get(b"key003"), Some(b"3a3b".to_vec()));
    assert_eq!(store.get(b"key004"), Some(b"4a".to_vec()));
    assert_eq!(store.get(b"key005"), Some(b"5a5b".to_vec()));
    assert_eq!(store.get(b"key009"), Some(b"9a".to_vec()));
}

#[test]
fn making_a_loader_drains_the_index_and_the_finish_puts_it_back() {
    let mut store = Store::with(&[(b"key002", b"two"), (b"key001", b"one")]);
    let addr_of_one = store.index[&b"key001".to_vec()];
    let mut loader = make_loader(&mut store);
    assert!(store.index.is_empty());
    assert_eq!(store.records.len(), 2);
    assert_eq!(loader.deferrals(), 2);
    assert_eq!(
        names(&store.calls),
        vec!["FirstKey", "DeleteKey", "FirstKey", "DeleteKey", "FirstKey"]
    );
    assert!(load(&mut store, &mut loader, b"key005", b"five"));
    assert!(store.get(b"key001").is_none());
    finish(&mut store, loader);
    assert_eq!(store.get(b"key001"), Some(b"one".to_vec()));
    assert_eq!(store.index[&b"key001".to_vec()], addr_of_one);
    assert_eq!(store.get(b"key002"), Some(b"two".to_vec()));
    assert_eq!(store.get(b"key005"), Some(b"five".to_vec()));
}

#[test]
fn a_drained_key_that_is_loaded_again_holds_both_payloads() {
    let mut store = Store::with(&[(b"key001", b"old")]);
    let mut loader = make_loader(&mut store);
    assert!(load(&mut store, &mut loader, b"key001", b"new"));
    assert!(!load(&mut store, &mut loader, b"key001", b"late"));
    finish(&mut store, loader);
    assert_eq!(store.get(b"key001"), Some(b"newoldlate".to_vec()));
    assert_eq!(store.records.len(), 1);
}

#[test]
fn a_loader_on_an_empty_index_asks_once() {
    let mut store = Store::new();
    let loader = make_loader(&mut store);
    assert_eq!(loader.deferrals(), 0);
    assert_eq!(names(&store.calls), vec!["FirstKey"]);
}

#[test]
fn draining_stops_at_the_first_failure() {
    let mut store = Store::with(&[(b"key001", b"one")]);
    store.fault = Some((1, Reply::Status(4)));
    let made = run(&mut store, BulkLoader::new(&IDX, &DAT), Drain::resume);
    assert_eq!(made.unwrap_err(), Error::CTree(4));
    let mut store = Store::new();
    store.fault = Some((0, Reply::Entry(9, b"abc".to_vec())));
    let made = run(&mut store, BulkLoader::new(&IDX, &DAT), Drain::resume);
    assert_eq!(made.unwrap_err(), Error::BadKeyLength);
    let mut store = Store::new();
    store.fault = Some((0, Reply::Status(0)));
    let made = run(&mut store, BulkLoader::new(&IDX, &DAT), Drain::resume);
    assert_eq!(made.unwrap_err(), Error::CTree(0));
}

#[test]
fn a_load_fails_as_an_insert_does() {
    let mut store = Store::new();
    let loader = make_loader(&mut store);
    store.calls.clear();
    store.next_addr = i32::MAX - 1;
    let end = run(&mut store, loader.load(b"key001", b"x"), Load::resume);
    assert_eq!(end.unwrap_err(), Error::OutOfSpace);
    assert_eq!(names(&store.calls), vec!["NewVData", "ReleaseVData"]);
    store.next_addr = 100;
    store.calls.clear();
    let end = run(&mut store, loader.load(b"short", b"x"), Load::resume);
    assert_eq!(end.unwrap_err(), Error::BadKeyLength);
    assert_eq!(names(&store.calls), vec!["NewVData", "WriteVData"]);
    store.calls.clear();
    store.fault = Some((2, Reply::Status(17)));
    let end = run(&mut store, loader.load(b"key001", b"x"), Load::resume);
    assert_eq!(end.unwrap_err(), Error::CTree(17));
    store.calls.clear();
    store.fault = Some((0, Reply::Long(0)));
    let end = run(&mut store, loader.load(b"key001", b"x"), Load::resume);
    assert_eq!(end.unwrap_err(), Error::CTree(0));
    store.calls.clear();
    store.fault = Some((1, Reply::Status(9)));
    let end = run(&mut store, loader.load(b"key001", b"x"), Load::resume);
    assert_eq!(end.unwrap_err(), Error::CTree(9));
}

#[test]
fn the_finish_stops_at_the_first_failure() {
    let mut store = Store::with(&[(b"key001", b"one"), (b"key002", b"two")]);
    let loader = make_loader(&mut store);
    store.calls.clear();
    store.fault = Some((0, Reply::Status(12)));
    let end = run(&mut store, loader.finish(), Finish::resume);
    assert_eq!(end.unwrap_err(), Error::CTree(12));
    assert_eq!(store.calls.len(), 1);

    let mut store = Store::with(&[(b"key001", b"one"), (b"key002", b"two")]);
    let loader = make_loader(&mut store);
    store.calls.clear();
    store.fault = Some((1, Reply::Status(13)));
    let end = run(&mut store, loader.finish(), Finish::resume);
    assert_eq!(end.unwrap_err(), Error::CTree(13));
    assert_eq!(names(&store.calls), vec!["EndLoad", "AddKey"]);
    assert!(store.index.is_empty());
}

#[test]
fn the_writer_can_feed_the_loader() {
    let a = object_at(1500, 2500, b"a");
    let c = object_at(-1500, 2500, b"c");
    let b = object_at(1999, 2000, b"b");
    let mut store = Store::with(&[(&[1u8, 0, 9, 0, 9, 0], b"kept")]);
    let mut loader = make_loader(&mut store);
    let mut writer = ObjectWriter::new();
    let mut writes = Vec::new();
    for o in [&a, &c, &b] {
        writes.extend(writer.add_object(o).unwrap());
    }
    writes.extend(writer.finish());
    for w in &writes {
        load(&mut store, &mut loader, &w.key, &w.data);
    }
    finish(&mut store, loader);
    assert_eq!(store.get(&make_cell_key(1, 2)), Some(joined(&record(&a), &record(&b))));
    assert_eq!(store.get(&make_cell_key(-1, 2)), Some(record(&c)));
    assert_eq!(store.get(&[1u8, 0, 9, 0, 9, 0]), Some(b"kept".to_vec()));
}

#[test]
fn init_starts_the_engine_with_its_three_numbers() {
    let mut store = Store::new();
    assert_eq!(run(&mut store, init(), Single::resume), Ok(()));
    match &store.calls[..] {
        [Call::InitCTree { bufs: 3, fils: 2, sect: 32 }] => {}
        other => panic!("unexpected calls {:?}", other),
    }
    let mut store = Store::new();
    store.fault = Some((0, Reply::Status(10)));
    assert_eq!(run(&mut store, init(), Single::resume), Err(Error::CTree(10)));
    let mut store = Store::new();
    store.fault = Some((0, Reply::Long(0)));
    assert_eq!(run(&mut store, init(), Single::resume), Err(Error::CTree(0)));
}

#[test]
fn a_data_file_opens_under_the_free_number() {
    let mut store = Store::new();
    let dat = run(&mut store, DatFile::open(b"cell.dat".to_vec()), OpenDat::resume).unwrap();
    assert_eq!(dat, DatFile(4));
    match &store.calls[..] {
        [Call::AvailableFileNbr { numfils: 1 }, Call::OpenCtFile { filno: 4, filnam, filmod: 0 }] => {
            assert_eq!(filnam, b"cell.dat");
        }
        other => panic!("unexpected calls {:?}", other),
    }
}

#[test]
fn an_index_file_opens_with_its_key_length() {
    let mut store = Store::new();
    let idx = run(&mut store, IdxFile::open(b"cell.idx".to_vec()), OpenIdx::resume).unwrap();
    assert_eq!(idx, IdxFile(4, 6));
    match &store.calls[..] {
        [Call::AvailableFileNbr { numfils: 1 }, Call::OpenCtFile { filno: 4, filmod: 0, .. }, Call::GetCtFileInfo { filno: 4, mode: 1 }] =>
            {}
        other => panic!("unexpected calls {:?}", other),
    }
}

#[test]
fn opening_fails_without_a_free_number_or_with_a_status() {
    let mut store = Store::new();
    store.fault = Some((0, Reply::Status(-1)));
    let dat = run(&mut store, DatFile::open(b"cell.dat".to_vec()), OpenDat::resume);
    assert_eq!(dat.unwrap_err(), Error::CTree(-1));
    assert_eq!(store.calls.len(), 1);
    let mut store = Store::new();
    store.fault = Some((1, Reply::Status(12)));
    let idx = run(&mut store, IdxFile::open(b"cell.idx".to_vec()), OpenIdx::resume);
    assert_eq!(idx.unwrap_err(), Error::CTree(12));
    assert_eq!(store.calls.len(), 2);
    let mut store = Store::new();
    store.fault = Some((1, Reply::Long(12)));
    let dat = run(&mut store, DatFile::open(b"cell.dat".to_vec()), OpenDat::resume);
    assert_eq!(dat.unwrap_err(), Error::CTree(0));
}

#[test]
fn closing_asks_for_the_file_by_its_number() {
    let mut store = Store::new();
    assert_eq!(run(&mut store, DAT.close(), Single::resume), Ok(()));
    assert_eq!(run(&mut store, IDX.close(), Single::resume), Ok(()));
    match &store.calls[..] {
        [Call::CloseCtFile { filno: 3, filmod: 0 }, Call::CloseCtFile { filno: 7, filmod: 0 }] => {}
        other => panic!("unexpected calls {:?}", other),
    }
    store.fault = Some((2, Reply::Status(24)));
    assert_eq!(run(&mut store, DAT.close(), Single::resume), Err(Error::CTree(24)));
}

/// A small generator of numbers that look random and are the same each time.
fn scramble(state: &mut u64) -> u64 {
    *state = state.wrapping_mul(6364136223846793005).wrapping_add(1442695040888963407);
    *state >> 33
}

#[test]
fn many_inserts_keep_every_payload_in_order() {
    let mut state = 7u64;
    let mut store = Store::new();
    let mut expected: BTreeMap<Vec<u8>, Vec<u8>> = BTreeMap::new();
    for round in 0..300u32 {
        let key = vec![b'k', b'e', b'y', 0, 0, (scramble(&mut state) % 7) as u8];
        let len = (scramble(&mut state) % 5) as usize;
        let data: Vec<u8> = (0..len).map(|i| (round as usize * 5 + i) as u8).collect();
        insert(&mut store, &key, &data).unwrap();
        expected.entry(key).or_default().extend_from_slice(&data);
    }
    assert_eq!(store.index.len(), expected.len());
    assert_eq!(store.records.len(), expected.len());
    for (key, data) in &expected {
        assert_eq!(store.get(key).as_ref(), Some(data));
    }
}

#[test]
fn many_loads_keep_every_payload_in_order() {
    let mut state = 11u64;
    for _ in 0..20 {
        let mut store = Store::new();
        let mut expected: BTreeMap<Vec<u8>, Vec<u8>> = BTreeMap::new();
        let mut loader = make_loader(&mut store);
        let mut last: Option<Vec<u8>> = None;
        let mut deferred = 0;
        for round in 0..60u32 {
            let key = vec![b'k', b'e', b'y', 0, 0, (scramble(&mut state) % 9) as u8];
            let data = vec![round as u8, 0xff];
            let in_order = match &last {
                Some(last) => *last < key,
                None => true,
            };
            assert_eq!(load(&mut store, &mut loader, &key, &data), in_order);
            if in_order {
                last = Some(key.clone());
            } else {
                deferred += 1;
            }
            expected.entry(key).or_default().extend_from_slice(&data);
        }
        assert_eq!(loader.deferrals(), deferred);
        finish(&mut store, loader);
        assert_eq!(store.index.len(), expected.len());
        assert_eq!(store.records.len(), expected.len());
        for (key, data) in &expected {
            assert_eq!(store.get(key).as_ref(), Some(data));
        }
    }
}

#[test]
fn many_objects_end_up_in_their_cells_in_order() {
    let mut state = 3u64;
    let mut store = Store::new();
    let mut writer = ObjectWriter::new();
    let mut expected: BTreeMap<Vec<u8>, Vec<u8>> = BTreeMap::new();
    for round in 0..200u32 {
        let x = (scramble(&mut state) % 3000) as i32 - 1500;
        let z = (scramble(&mut state) % 3000) as i32 - 1500;
        let o = object_at(x, z, &round.to_le_bytes());
        let loc = o.location();
        expected
            .entry(make_cell_key(loc.cell_x, loc.cell_z))
            .or_default()
            .extend_from_slice(&record(&o));
        put(&mut store, writer.add_object(&o).unwrap());
    }
    put(&mut store, writer.finish());
    assert_eq!(store.index.len(), expected.len());
    assert_eq!(store.records.len(), expected.len());
    for (key, data) in &expected {
        assert_eq!(store.get(key).as_ref(), Some(data));
    }
}
