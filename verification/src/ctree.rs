//! The record store as this library sees it: errors, file handles, the calls
//! a driver performs on the store, and the insert that merges on collision.
//!
//! Nothing here reaches the store. An operation is a step machine: it asks
//! for one [`Call`], the driver performs it and hands the [`Reply`] to
//! `resume`, until the machine is [`Step::Done`].
use vstd::prelude::*;

verus! {

/// Status with which the store refuses to add a key that the index holds.
pub const DUPLICATE_KEY: i16 = 2;

/// Status with which the store refuses to load a key that does not come after
/// the key loaded before it.
pub const KEY_OUT_OF_ORDER: i16 = 58;

/// So many addresses below the largest one are reserved: a record the store
/// places there tells that the data file is full.
pub const RESERVED_ADDRESSES: i32 = 22000;

/// Why an operation of this library failed.
#[derive(Copy, Clone, Debug, PartialEq, Eq, Structural)]
pub enum Error {
    /// The store answered a call with this status, which is fatal here.
    /// Status 0 stands for an answer that contradicts what the store said
    /// before: no address for a new record, no entry under a key it had just
    /// called a duplicate, a reply of the wrong kind.
    CTree(i16),
    /// The store placed a record in its reserved top range, or the record
    /// would be longer than an address can count: the data file is full.
    OutOfSpace,
    /// A key does not have the length the index was created with.
    BadKeyLength,
    /// A field of an object is longer than its length prefix can say.
    FieldTooLarge,
}

/// Turns a status of the store into a result: zero is success, anything else
/// is the error that carries the status.
pub fn error(errcode: i16) -> (r: Result<(), Error>)
    ensures
        r == status(errcode),
{
    if errcode == 0 {
        Ok(())
    } else {
        Err(Error::CTree(errcode))
    }
}

/// Address of a record in a data file. Zero is no address.
#[derive(Copy, Clone, Debug, PartialEq, Eq, Structural)]
pub struct DatAddr(pub i32);

/// An open data file, by its file number.
#[derive(Copy, Clone, Debug, PartialEq, Eq, Structural)]
pub struct DatFile(pub i16);

/// An open index file: its file number and the length of its keys.
#[derive(Copy, Clone, Debug, PartialEq, Eq, Structural)]
pub struct IdxFile(pub i16, pub usize);

impl IdxFile {
    /// Accepts a key of exactly the index's key length, and no other.
    pub fn check_key(&self, key: &[u8]) -> (r: Result<(), Error>)
        ensures
            r == (if key@.len() == self.1 {
                Ok::<(), Error>(())
            } else {
                Err(Error::BadKeyLength)
            }),
    {
        if key.len() == self.1 {
            Ok(())
        } else {
            Err(Error::BadKeyLength)
        }
    }
}

/// One call on the store, with its arguments.
#[derive(Clone, Debug)]
pub enum Call {
    /// Start the engine. Answered by a status.
    InitCTree { bufs: i16, fils: i16, sect: i16 },
    /// Ask for a free file number. Answered by a status: the number, or -1.
    AvailableFileNbr { numfils: i16 },
    /// Open the named file under a file number. Answered by a status.
    OpenCtFile { filno: i16, filnam: Vec<u8>, filmod: i16 },
    /// Close a file. Answered by a status.
    CloseCtFile { filno: i16, filmod: i16 },
    /// Ask one fact of an open file. Answered by a long.
    GetCtFileInfo { filno: i16, mode: i16 },
    /// Allocate a record of `varlen` bytes. Answered by a long: its address,
    /// or zero.
    NewVData { datno: i16, varlen: i32 },
    /// Fill a record. Answered by a status.
    WriteVData { datno: i16, recbyt: DatAddr, data: Vec<u8> },
    /// Ask how long a record is. Answered by a long.
    VDataLength { datno: i16, recbyt: DatAddr },
    /// Read the `len` bytes of a record. Answered by data.
    ReadVData { datno: i16, recbyt: DatAddr, len: i32 },
    /// Give a record back. The index is not touched. Answered by a status.
    ReleaseVData { datno: i16, recbyt: DatAddr },
    /// Add a key that leads to a record. Answered by a status, which is
    /// `DUPLICATE_KEY` if the index holds the key.
    AddKey { keyno: i16, key: Vec<u8>, recbyt: DatAddr, typadd: i16 },
    /// Look a key up. Answered by a long: the address it leads to, or zero.
    GetKey { keyno: i16, key: Vec<u8> },
    /// Delete a key that leads to the record named. Answered by a status.
    DeleteKey { keyno: i16, key: Vec<u8>, recbyt: DatAddr },
    /// Ask for the first key in the order of the index, whose keys are
    /// `keylen` bytes long. Answered by an entry.
    FirstKey { keyno: i16, keylen: usize },
    /// Load a key through the ordered fast path; `first` tells the first load
    /// of a session from the later ones. Answered by a status, which is
    /// `KEY_OUT_OF_ORDER` if the key does not come after the one before.
    LoadKey { keyno: i16, key: Vec<u8>, recbyt: DatAddr, first: bool },
    /// End the session of ordered loads. The key is a stand-in of the right
    /// length, all zero, that is not loaded. Answered by a status.
    EndLoad { keyno: i16, key: Vec<u8> },
}

/// What the store answered.
#[derive(Clone, Debug)]
pub enum Reply {
    /// The status of a call: zero for success.
    Status(i16),
    /// An address or a length.
    Long(i32),
    /// A status, and the bytes read if it is zero.
    Data(i16, Vec<u8>),
    /// An address and the key that leads to it; address zero if there is no
    /// such entry.
    Entry(i32, Vec<u8>),
}

/// Where an operation stands: it asks for a call, or it is over.
#[derive(Debug)]
pub enum Step<S, T> {
    /// Perform the call and resume the state with the store's reply.
    Ask(S, Call),
    /// The operation is over, with this result.
    Done(Result<T, Error>),
}

/// A call as a mathematical value.
pub enum CallView {
    InitCTree { bufs: i16, fils: i16, sect: i16 },
    AvailableFileNbr { numfils: i16 },
    OpenCtFile { filno: i16, filnam: Seq<u8>, filmod: i16 },
    CloseCtFile { filno: i16, filmod: i16 },
    GetCtFileInfo { filno: i16, mode: i16 },
    NewVData { datno: i16, varlen: i32 },
    WriteVData { datno: i16, recbyt: DatAddr, data: Seq<u8> },
    VDataLength { datno: i16, recbyt: DatAddr },
    ReadVData { datno: i16, recbyt: DatAddr, len: i32 },
    ReleaseVData { datno: i16, recbyt: DatAddr },
    AddKey { keyno: i16, key: Seq<u8>, recbyt: DatAddr, typadd: i16 },
    GetKey { keyno: i16, key: Seq<u8> },
    DeleteKey { keyno: i16, key: Seq<u8>, recbyt: DatAddr },
    FirstKey { keyno: i16, keylen: usize },
    LoadKey { keyno: i16, key: Seq<u8>, recbyt: DatAddr, first: bool },
    EndLoad { keyno: i16, key: Seq<u8> },
}

/// A reply as a mathematical value.
pub enum ReplyView {
    Status(i16),
    Long(i32),
    Data(i16, Seq<u8>),
    Entry(i32, Seq<u8>),
}

/// A step as a mathematical value.
pub enum StepView<S, T> {
    Ask(S, CallView),
    Done(Result<T, Error>),
}

impl View for Call {
    type V = CallView;

    open spec fn view(&self) -> CallView {
        match *self {
            Call::InitCTree { bufs, fils, sect } => CallView::InitCTree { bufs, fils, sect },
            Call::AvailableFileNbr { numfils } => CallView::AvailableFileNbr { numfils },
            Call::OpenCtFile { filno, filnam, filmod } => CallView::OpenCtFile {
                filno,
                filnam: filnam@,
                filmod,
            },
            Call::CloseCtFile { filno, filmod } => CallView::CloseCtFile { filno, filmod },
            Call::GetCtFileInfo { filno, mode } => CallView::GetCtFileInfo { filno, mode },
            Call::NewVData { datno, varlen } => CallView::NewVData { datno, varlen },
            Call::WriteVData { datno, recbyt, data } => CallView::WriteVData {
                datno,
                recbyt,
                data: data@,
            },
            Call::VDataLength { datno, recbyt } => CallView::VDataLength { datno, recbyt },
            Call::ReadVData { datno, recbyt, len } => CallView::ReadVData { datno, recbyt, len },
            Call::ReleaseVData { datno, recbyt } => CallView::ReleaseVData { datno, recbyt },
            Call::AddKey { keyno, key, recbyt, typadd } => CallView::AddKey {
                keyno,
                key: key@,
                recbyt,
                typadd,
            },
            Call::GetKey { keyno, key } => CallView::GetKey { keyno, key: key@ },
            Call::DeleteKey { keyno, key, recbyt } => CallView::DeleteKey {
                keyno,
                key: key@,
                recbyt,
            },
            Call::FirstKey { keyno, keylen } => CallView::FirstKey { keyno, keylen },
            Call::LoadKey { keyno, key, recbyt, first } => CallView::LoadKey {
                keyno,
                key: key@,
                recbyt,
                first,
            },
            Call::EndLoad { keyno, key } => CallView::EndLoad { keyno, key: key@ },
        }
    }
}

impl View for Reply {
    type V = ReplyView;

    open spec fn view(&self) -> ReplyView {
        match *self {
            Reply::Status(code) => ReplyView::Status(code),
            Reply::Long(value) => ReplyView::Long(value),
            Reply::Data(code, bytes) => ReplyView::Data(code, bytes@),
            Reply::Entry(recbyt, key) => ReplyView::Entry(recbyt, key@),
        }
    }
}

impl<S: View, T: View> View for Step<S, T> {
    type V = StepView<S::V, T::V>;

    open spec fn view(&self) -> StepView<S::V, T::V> {
        match *self {
            Step::Ask(state, call) => StepView::Ask(state@, call@),
            Step::Done(Ok(out)) => StepView::Done(Ok(out@)),
            Step::Done(Err(e)) => StepView::Done(Err(e)),
        }
    }
}

/// Which call an insert is waiting on.
#[derive(Copy, Clone, Debug, PartialEq, Eq, Structural)]
pub enum Phase {
    /// A record for the payload was asked for.
    Alloc,
    /// The record lay in the reserved range and is being given back.
    Exhausted,
    /// The payload is being written to the new record.
    Write,
    /// The key is being added to the index.
    Add,
    /// The key is a duplicate and the length of the record that was to go
    /// under it is being asked, to read its payload back.
    SizeNew,
    /// That record is being read.
    ReadNew,
    /// That record is being given back.
    ReleaseNew,
    /// The record that the key leads to is being looked up.
    Find,
    /// Its length is being asked.
    SizeOld,
    /// It is being read.
    ReadOld,
    /// The key is being deleted from the index.
    Delete,
    /// The old record is being given back.
    ReleaseOld,
}

/// An insert under way: puts a payload under a key, behind whatever the key
/// holds already.
#[derive(Debug)]
pub struct Insert {
    idx: IdxFile,
    dat: DatFile,
    key: Vec<u8>,
    data: Vec<u8>,
    phase: Phase,
    addr: DatAddr,
    old: DatAddr,
    merged: bool,
    held: bool,
}

/// An insert under way, as a mathematical value.
pub struct InsertView {
    pub idx: IdxFile,
    pub dat: DatFile,
    /// The key to insert under.
    pub key: Seq<u8>,
    /// The payload: what is to stand under the key once the insert is done.
    /// After a collision this is the old payload followed by the new one.
    pub data: Seq<u8>,
    pub phase: Phase,
    /// The record that holds, or is to hold, the payload.
    pub addr: DatAddr,
    /// The record found under the key after a collision.
    pub old: DatAddr,
    /// True once old and new payload were joined: a second collision is fatal.
    pub merged: bool,
    /// False while the payload is known only as the content of `addr`.
    pub held: bool,
}

/// True if the store placed a new record in its reserved top range.
pub open spec fn exhausted(a: i32) -> bool {
    a > i32::MAX - RESERVED_ADDRESSES
}

impl InsertView {
    /// Asks for a record as long as the payload, unless no address can count
    /// that far.
    pub open spec fn allocate(self) -> StepView<InsertView, ()> {
        if self.data.len() > i32::MAX {
            StepView::Done(Err(Error::OutOfSpace))
        } else {
            StepView::Ask(
                InsertView { phase: Phase::Alloc, ..self },
                CallView::NewVData { datno: self.dat.0, varlen: self.data.len() as i32 },
            )
        }
    }

    /// Asks to add the key, leading to `addr`, unless the key has the wrong
    /// length.
    pub open spec fn add_key(self) -> StepView<InsertView, ()> {
        if self.key.len() != self.idx.1 {
            StepView::Done(Err(Error::BadKeyLength))
        } else {
            StepView::Ask(
                InsertView { phase: Phase::Add, ..self },
                CallView::AddKey { keyno: self.idx.0, key: self.key, recbyt: self.addr, typadd: 0 },
            )
        }
    }

    /// Asks to give the record at `addr` back, and goes to `phase`.
    pub open spec fn release(self, phase: Phase, addr: DatAddr) -> StepView<InsertView, ()> {
        StepView::Ask(
            InsertView { phase, ..self },
            CallView::ReleaseVData { datno: self.dat.0, recbyt: addr },
        )
    }

    /// Asks how long the record at `addr` is, and goes to `phase`.
    pub open spec fn size(self, phase: Phase, addr: DatAddr) -> StepView<InsertView, ()> {
        StepView::Ask(
            InsertView { phase, ..self },
            CallView::VDataLength { datno: self.dat.0, recbyt: addr },
        )
    }

    /// Asks to read the `len` bytes at `addr`, and goes to `phase`; a negative
    /// length is no length.
    pub open spec fn read(self, phase: Phase, addr: DatAddr, len: i32) -> StepView<InsertView, ()> {
        if len < 0 {
            StepView::Done(Err(Error::CTree(0)))
        } else {
            StepView::Ask(
                InsertView { phase, ..self },
                CallView::ReadVData { datno: self.dat.0, recbyt: addr, len },
            )
        }
    }

    /// What the insert does with the store's reply to the call it asked for.
    ///
    /// A status other than zero ends the insert with that status as its
    /// error, with two exceptions: `DUPLICATE_KEY` on the first attempt to
    /// add the key starts the merge, and the status of giving back a record
    /// from the reserved range is not looked at. A reply of another kind than
    /// the call asks for ends it with status 0.
    pub open spec fn next(self, reply: ReplyView) -> StepView<InsertView, ()> {
        match (self.phase, reply) {
            (Phase::Alloc, ReplyView::Long(a)) => {
                if a == 0 {
                    StepView::Done(Err(Error::CTree(0)))
                } else if exhausted(a) {
                    InsertView { addr: DatAddr(a), ..self }.release(Phase::Exhausted, DatAddr(a))
                } else {
                    StepView::Ask(
                        InsertView { phase: Phase::Write, addr: DatAddr(a), ..self },
                        CallView::WriteVData {
                            datno: self.dat.0,
                            recbyt: DatAddr(a),
                            data: self.data,
                        },
                    )
                }
            },
            (Phase::Exhausted, _) => StepView::Done(Err(Error::OutOfSpace)),
            (Phase::Write, ReplyView::Status(code)) => {
                if code != 0 {
                    StepView::Done(Err(Error::CTree(code)))
                } else {
                    self.add_key()
                }
            },
            (Phase::Add, ReplyView::Status(code)) => {
                if code == 0 {
                    StepView::Done(Ok(()))
                } else if code == DUPLICATE_KEY && !self.merged {
                    if self.held {
                        self.release(Phase::ReleaseNew, self.addr)
                    } else {
                        self.size(Phase::SizeNew, self.addr)
                    }
                } else {
                    StepView::Done(Err(Error::CTree(code)))
                }
            },
            (Phase::SizeNew, ReplyView::Long(len)) => self.read(Phase::ReadNew, self.addr, len),
            (Phase::ReadNew, ReplyView::Data(code, bytes)) => {
                if code != 0 {
                    StepView::Done(Err(Error::CTree(code)))
                } else {
                    InsertView { data: bytes, held: true, ..self }.release(
                        Phase::ReleaseNew,
                        self.addr,
                    )
                }
            },
            (Phase::ReleaseNew, ReplyView::Status(code)) => {
                if code != 0 {
                    StepView::Done(Err(Error::CTree(code)))
                } else {
                    StepView::Ask(
                        InsertView { phase: Phase::Find, ..self },
                        CallView::GetKey { keyno: self.idx.0, key: self.key },
                    )
                }
            },
            (Phase::Find, ReplyView::Long(a)) => {
                if a == 0 {
                    StepView::Done(Err(Error::CTree(0)))
                } else {
                    InsertView { old: DatAddr(a), ..self }.size(Phase::SizeOld, DatAddr(a))
                }
            },
            (Phase::SizeOld, ReplyView::Long(len)) => self.read(Phase::ReadOld, self.old, len),
            (Phase::ReadOld, ReplyView::Data(code, bytes)) => {
                if code != 0 {
                    StepView::Done(Err(Error::CTree(code)))
                } else {
                    StepView::Ask(
                        InsertView { data: bytes + self.data, phase: Phase::Delete, ..self },
                        CallView::DeleteKey { keyno: self.idx.0, key: self.key, recbyt: self.old },
                    )
                }
            },
            (Phase::Delete, ReplyView::Status(code)) => {
                if code != 0 {
                    StepView::Done(Err(Error::CTree(code)))
                } else {
                    self.release(Phase::ReleaseOld, self.old)
                }
            },
            (Phase::ReleaseOld, ReplyView::Status(code)) => {
                if code != 0 {
                    StepView::Done(Err(Error::CTree(code)))
                } else {
                    InsertView { merged: true, ..self }.allocate()
                }
            },
            _ => StepView::Done(Err(Error::CTree(0))),
        }
    }
}

/// The first step of an insert of `data` under `key`.
pub open spec fn insert_start(idx: IdxFile, dat: DatFile, key: Seq<u8>, data: Seq<u8>) -> StepView<
    InsertView,
    (),
> {
    InsertView {
        idx,
        dat,
        key,
        data,
        phase: Phase::Alloc,
        addr: DatAddr(0),
        old: DatAddr(0),
        merged: false,
        held: true,
    }.allocate()
}

/// The first step of an insert, under `key`, of the payload that the record
/// at `addr` holds already.
pub open spec fn relink_start(idx: IdxFile, dat: DatFile, key: Seq<u8>, addr: DatAddr) -> StepView<
    InsertView,
    (),
> {
    InsertView {
        idx,
        dat,
        key,
        data: Seq::empty(),
        phase: Phase::Add,
        addr,
        old: DatAddr(0),
        merged: false,
        held: false,
    }.add_key()
}

impl View for Insert {
    type V = InsertView;

    closed spec fn view(&self) -> InsertView {
        InsertView {
            idx: self.idx,
            dat: self.dat,
            key: self.key@,
            data: self.data@,
            phase: self.phase,
            addr: self.addr,
            old: self.old,
            merged: self.merged,
            held: self.held,
        }
    }
}

impl Insert {
    fn allocate(self) -> (step: Step<Insert, ()>)
        ensures
            step@ == self@.allocate(),
    {
        if self.data.len() > i32::MAX as usize {
            Step::Done(Err(Error::OutOfSpace))
        } else {
            let call = Call::NewVData { datno: self.dat.0, varlen: self.data.len() as i32 };
            Step::Ask(Insert { phase: Phase::Alloc, ..self }, call)
        }
    }

    fn add_key(self) -> (step: Step<Insert, ()>)
        ensures
            step@ == self@.add_key(),
    {
        match self.idx.check_key(self.key.as_slice()) {
            Err(e) => Step::Done(Err(e)),
            Ok(()) => {
                let call = Call::AddKey {
                    keyno: self.idx.0,
                    key: self.key.clone(),
                    recbyt: self.addr,
                    typadd: 0,
                };
                Step::Ask(Insert { phase: Phase::Add, ..self }, call)
            },
        }
    }

    fn release(self, phase: Phase, addr: DatAddr) -> (step: Step<Insert, ()>)
        ensures
            step@ == self@.release(phase, addr),
    {
        let call = Call::ReleaseVData { datno: self.dat.0, recbyt: addr };
        Step::Ask(Insert { phase, ..self }, call)
    }

    fn size(self, phase: Phase, addr: DatAddr) -> (step: Step<Insert, ()>)
        ensures
            step@ == self@.size(phase, addr),
    {
        let call = Call::VDataLength { datno: self.dat.0, recbyt: addr };
        Step::Ask(Insert { phase, ..self }, call)
    }

    fn read(self, phase: Phase, addr: DatAddr, len: i32) -> (step: Step<Insert, ()>)
        ensures
            step@ == self@.read(phase, addr, len),
    {
        if len < 0 {
            Step::Done(Err(Error::CTree(0)))
        } else {
            let call = Call::ReadVData { datno: self.dat.0, recbyt: addr, len };
            Step::Ask(Insert { phase, ..self }, call)
        }
    }

    /// Takes the store's reply to the call that this insert asked for, and
    /// says what comes next.
    pub fn resume(self, reply: Reply) -> (step: Step<Insert, ()>)
        ensures
            step@ == self@.next(reply@),
    {
        match (self.phase, reply) {
            (Phase::Alloc, Reply::Long(a)) => {
                if a == 0 {
                    Step::Done(Err(Error::CTree(0)))
                } else if a > i32::MAX - RESERVED_ADDRESSES {
                    Insert { addr: DatAddr(a), ..self }.release(Phase::Exhausted, DatAddr(a))
                } else {
                    let call = Call::WriteVData {
                        datno: self.dat.0,
                        recbyt: DatAddr(a),
                        data: self.data.clone(),
                    };
                    Step::Ask(Insert { phase: Phase::Write, addr: DatAddr(a), ..self }, call)
                }
            },
            (Phase::Exhausted, _) => Step::Done(Err(Error::OutOfSpace)),
            (Phase::Write, Reply::Status(code)) => {
                match error(code) {
                    Err(e) => Step::Done(Err(e)),
                    Ok(()) => self.add_key(),
                }
            },
            (Phase::Add, Reply::Status(code)) => {
                if code == 0 {
                    Step::Done(Ok(()))
                } else if code == DUPLICATE_KEY && !self.merged {
                    let addr = self.addr;
                    if self.held {
                        self.release(Phase::ReleaseNew, addr)
                    } else {
                        self.size(Phase::SizeNew, addr)
                    }
                } else {
                    Step::Done(Err(Error::CTree(code)))
                }
            },
            (Phase::SizeNew, Reply::Long(len)) => {
                let addr = self.addr;
                self.read(Phase::ReadNew, addr, len)
            },
            (Phase::ReadNew, Reply::Data(code, bytes)) => {
                match error(code) {
                    Err(e) => Step::Done(Err(e)),
                    Ok(()) => {
                        let addr = self.addr;
                        Insert { data: bytes, held: true, ..self }.release(Phase::ReleaseNew, addr)
                    },
                }
            },
            (Phase::ReleaseNew, Reply::Status(code)) => {
                match error(code) {
                    Err(e) => Step::Done(Err(e)),
                    Ok(()) => {
                        let call = Call::GetKey { keyno: self.idx.0, key: self.key.clone() };
                        Step::Ask(Insert { phase: Phase::Find, ..self }, call)
                    },
                }
            },
            (Phase::Find, Reply::Long(a)) => {
                if a == 0 {
                    Step::Done(Err(Error::CTree(0)))
                } else {
                    Insert { old: DatAddr(a), ..self }.size(Phase::SizeOld, DatAddr(a))
                }
            },
            (Phase::SizeOld, Reply::Long(len)) => {
                let old = self.old;
                self.read(Phase::ReadOld, old, len)
            },
            (Phase::ReadOld, Reply::Data(code, bytes)) => {
                match error(code) {
                    Err(e) => Step::Done(Err(e)),
                    Ok(()) => {
                        let mut joined = bytes;
                        joined.extend_from_slice(self.data.as_slice());
                        let call = Call::DeleteKey {
                            keyno: self.idx.0,
                            key: self.key.clone(),
                            recbyt: self.old,
                        };
                        proof {
                            assert(joined@ =~= bytes@ + self.data@);
                        }
                        Step::Ask(Insert { data: joined, phase: Phase::Delete, ..self }, call)
                    },
                }
            },
            (Phase::Delete, Reply::Status(code)) => {
                match error(code) {
                    Err(e) => Step::Done(Err(e)),
                    Ok(()) => {
                        let old = self.old;
                        self.release(Phase::ReleaseOld, old)
                    },
                }
            },
            (Phase::ReleaseOld, Reply::Status(code)) => {
                match error(code) {
                    Err(e) => Step::Done(Err(e)),
                    Ok(()) => Insert { merged: true, ..self }.allocate(),
                }
            },
            _ => Step::Done(Err(Error::CTree(0))),
        }
    }

    /// Begins the insert, under `key`, of the payload that the record at
    /// `addr` holds already: the key is added as it is, and the record is read
    /// back only if the key turns out to be a duplicate.
    pub fn relink(idx: &IdxFile, dat: &DatFile, key: Vec<u8>, addr: DatAddr) -> (step: Step<
        Insert,
        (),
    >)
        ensures
            step@ == relink_start(*idx, *dat, key@, addr),
    {
        Insert {
            idx: *idx,
            dat: *dat,
            key,
            data: Vec::new(),
            phase: Phase::Add,
            addr,
            old: DatAddr(0),
            merged: false,
            held: false,
        }.add_key()
    }
}

/// Begins to put `data` under `key`: as a new record if the index does not
/// hold the key, else behind the payload that the key leads to, in one record
/// that takes the place of the old one.
///
/// The step returned asks for the first call; hand each reply of the store to
/// [`Insert::resume`] until the step is `Done`.
pub fn insert_or_append(idx: &IdxFile, dat: &DatFile, key: &[u8], data: &[u8]) -> (step: Step<
    Insert,
    (),
>)
    ensures
        step@ == insert_start(*idx, *dat, key@, data@),
{
    Insert {
        idx: *idx,
        dat: *dat,
        key: vstd::slice::slice_to_vec(key),
        data: vstd::slice::slice_to_vec(data),
        phase: Phase::Alloc,
        addr: DatAddr(0),
        old: DatAddr(0),
        merged: false,
        held: true,
    }.allocate()
}

impl View for DatFile {
    type V = DatFile;

    open spec fn view(&self) -> DatFile {
        *self
    }
}

impl View for IdxFile {
    type V = IdxFile;

    open spec fn view(&self) -> IdxFile {
        *self
    }
}

/// What a status means as a result.
pub open spec fn status(code: i16) -> Result<(), Error> {
    if code == 0 {
        Ok(())
    } else {
        Err(Error::CTree(code))
    }
}

/// An operation of a single call that is answered by a status: the start of
/// the engine, or the closing of a file.
#[derive(Debug)]
pub struct Single {}

impl View for Single {
    type V = ();

    open spec fn view(&self) -> () {
        ()
    }
}

/// What such an operation makes of the reply: the status as a result.
pub open spec fn single_next(reply: ReplyView) -> StepView<(), ()> {
    match reply {
        ReplyView::Status(code) => StepView::Done(status(code)),
        _ => StepView::Done(Err(Error::CTree(0))),
    }
}

impl Single {
    /// Takes the store's reply, and ends the operation with it.
    pub fn resume(self, reply: Reply) -> (step: Step<Single, ()>)
        ensures
            step@ == single_next(reply@),
    {
        match reply {
            Reply::Status(code) => Step::Done(error(code)),
            _ => Step::Done(Err(Error::CTree(0))),
        }
    }
}

/// Begins to start the engine, with three buffers, two files and sectors of
/// 32 units.
pub fn init() -> (step: Step<Single, ()>)
    ensures
        step@ == StepView::<(), ()>::Ask((), CallView::InitCTree { bufs: 3, fils: 2, sect: 32 }),
{
    Step::Ask(Single {  }, Call::InitCTree { bufs: 3, fils: 2, sect: 32 })
}

/// The opening of a data file, under way.
#[derive(Debug)]
pub struct OpenDat {
    filnam: Vec<u8>,
    filno: Option<i16>,
}

/// The opening of a data file as a mathematical value.
pub struct OpenDatView {
    /// The name of the file.
    pub filnam: Seq<u8>,
    /// The file number, once the store has named a free one.
    pub filno: Option<i16>,
}

impl View for OpenDat {
    type V = OpenDatView;

    closed spec fn view(&self) -> OpenDatView {
        OpenDatView { filnam: self.filnam@, filno: self.filno }
    }
}

/// Asks to open the file named under the number `n`, unless `n` is -1: the
/// store had no free number.
pub open spec fn open_call(filnam: Seq<u8>, n: i16) -> Result<CallView, Error> {
    if n == -1 {
        Err(Error::CTree(-1i16))
    } else {
        Ok(CallView::OpenCtFile { filno: n, filnam, filmod: 0 })
    }
}

impl OpenDatView {
    /// What the opening of a data file does with the store's reply.
    ///
    /// The file is opened under the free number that the store names. That
    /// number being -1, and a status other than zero for the opening, end it
    /// in failure.
    pub open spec fn next(self, reply: ReplyView) -> StepView<OpenDatView, DatFile> {
        match (self.filno, reply) {
            (None, ReplyView::Status(n)) => match open_call(self.filnam, n) {
                Ok(call) => StepView::Ask(OpenDatView { filno: Some(n), ..self }, call),
                Err(e) => StepView::Done(Err(e)),
            },
            (Some(n), ReplyView::Status(code)) => {
                if code != 0 {
                    StepView::Done(Err(Error::CTree(code)))
                } else {
                    StepView::Done(Ok(DatFile(n)))
                }
            },
            _ => StepView::Done(Err(Error::CTree(0))),
        }
    }
}

impl OpenDat {
    /// Takes the store's reply to the call asked for, and says what comes
    /// next.
    pub fn resume(self, reply: Reply) -> (step: Step<OpenDat, DatFile>)
        ensures
            step@ == self@.next(reply@),
    {
        match (self.filno, reply) {
            (None, Reply::Status(n)) => {
                if n == -1 {
                    Step::Done(Err(Error::CTree(-1)))
                } else {
                    let call = Call::OpenCtFile { filno: n, filnam: self.filnam.clone(), filmod: 0 };
                    Step::Ask(OpenDat { filno: Some(n), ..self }, call)
                }
            },
            (Some(n), Reply::Status(code)) => {
                match error(code) {
                    Err(e) => Step::Done(Err(e)),
                    Ok(()) => Step::Done(Ok(DatFile(n))),
                }
            },
            _ => Step::Done(Err(Error::CTree(0))),
        }
    }
}

/// The opening of an index file, under way.
#[derive(Debug)]
pub struct OpenIdx {
    filnam: Vec<u8>,
    filno: Option<i16>,
    opened: bool,
}

/// The opening of an index file as a mathematical value.
pub struct OpenIdxView {
    /// The name of the file.
    pub filnam: Seq<u8>,
    /// The file number, once the store has named a free one.
    pub filno: Option<i16>,
    /// True once the file is open and its key length is asked.
    pub opened: bool,
}

impl View for OpenIdx {
    type V = OpenIdxView;

    closed spec fn view(&self) -> OpenIdxView {
        OpenIdxView { filnam: self.filnam@, filno: self.filno, opened: self.opened }
    }
}

impl OpenIdxView {
    /// What the opening of an index file does with the store's reply.
    ///
    /// The file is opened as a data file is. Its key length is then asked,
    /// and taken as the store reports it.
    pub open spec fn next(self, reply: ReplyView) -> StepView<OpenIdxView, IdxFile> {
        match (self.filno, self.opened, reply) {
            (None, _, ReplyView::Status(n)) => match open_call(self.filnam, n) {
                Ok(call) => StepView::Ask(OpenIdxView { filno: Some(n), ..self }, call),
                Err(e) => StepView::Done(Err(e)),
            },
            (Some(n), false, ReplyView::Status(code)) => {
                if code != 0 {
                    StepView::Done(Err(Error::CTree(code)))
                } else {
                    StepView::Ask(
                        OpenIdxView { opened: true, ..self },
                        CallView::GetCtFileInfo { filno: n, mode: 1 },
                    )
                }
            },
            (Some(n), true, ReplyView::Long(len)) => StepView::Done(Ok(IdxFile(n, len as usize))),
            _ => StepView::Done(Err(Error::CTree(0))),
        }
    }
}

impl OpenIdx {
    /// Takes the store's reply to the call asked for, and says what comes
    /// next.
    pub fn resume(self, reply: Reply) -> (step: Step<OpenIdx, IdxFile>)
        ensures
            step@ == self@.next(reply@),
    {
        match (self.filno, self.opened, reply) {
            (None, _, Reply::Status(n)) => {
                if n == -1 {
                    Step::Done(Err(Error::CTree(-1)))
                } else {
                    let call = Call::OpenCtFile { filno: n, filnam: self.filnam.clone(), filmod: 0 };
                    Step::Ask(OpenIdx { filno: Some(n), ..self }, call)
                }
            },
            (Some(n), false, Reply::Status(code)) => {
                match error(code) {
                    Err(e) => Step::Done(Err(e)),
                    Ok(()) => {
                        let call = Call::GetCtFileInfo { filno: n, mode: 1 };
                        Step::Ask(OpenIdx { opened: true, ..self }, call)
                    },
                }
            },
            (Some(n), true, Reply::Long(len)) => {
                Step::Done(Ok(IdxFile(n, #[verifier::truncate] (len as usize))))
            },
            _ => Step::Done(Err(Error::CTree(0))),
        }
    }
}

impl DatFile {
    /// Begins to open the data file named: a free file number is asked for.
    pub fn open(filename: Vec<u8>) -> (step: Step<OpenDat, DatFile>)
        ensures
            step@ == StepView::<OpenDatView, DatFile>::Ask(
                OpenDatView { filnam: filename@, filno: None },
                CallView::AvailableFileNbr { numfils: 1 },
            ),
    {
        Step::Ask(OpenDat { filnam: filename, filno: None }, Call::AvailableFileNbr { numfils: 1 })
    }

    /// Begins to close the file.
    pub fn close(self) -> (step: Step<Single, ()>)
        ensures
            step@ == StepView::<(), ()>::Ask(
                (),
                CallView::CloseCtFile { filno: self.0, filmod: 0 },
            ),
    {
        Step::Ask(Single {  }, Call::CloseCtFile { filno: self.0, filmod: 0 })
    }
}

impl IdxFile {
    /// Begins to open the index file named: a free file number is asked for.
    /// The opening ends with the file number and the key length that the
    /// store reports.
    pub fn open(filename: Vec<u8>) -> (step: Step<OpenIdx, IdxFile>)
        ensures
            step@ == StepView::<OpenIdxView, IdxFile>::Ask(
                OpenIdxView { filnam: filename@, filno: None, opened: false },
                CallView::AvailableFileNbr { numfils: 1 },
            ),
    {
        Step::Ask(
            OpenIdx { filnam: filename, filno: None, opened: false },
            Call::AvailableFileNbr { numfils: 1 },
        )
    }

    /// Begins to close the file.
    pub fn close(self) -> (step: Step<Single, ()>)
        ensures
            step@ == StepView::<(), ()>::Ask(
                (),
                CallView::CloseCtFile { filno: self.0, filmod: 0 },
            ),
    {
        Step::Ask(Single {  }, Call::CloseCtFile { filno: self.0, filmod: 0 })
    }
}

} // verus!
