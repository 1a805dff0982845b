//! The bulk loader: puts payloads into the store through its ordered fast
//! path, and keeps what the fast path refuses for a later, ordinary insert.
//!
//! A loader lives in three stretches. Making it drains the index: every entry
//! is taken out and queued. Then payloads are loaded; a key that does not
//! come after the one loaded before is refused by the store and queued too.
//! Finishing ends the session of loads and inserts the queue, in order.
//!
//! The types keep the stretches apart. There is no loader before
//! [`BulkLoader::new`] is called; while the index is drained there is a
//! [`Drain`], which ends with the [`BulkLoader`]; that one loads, one [`Load`]
//! at a time; [`BulkLoader::finish`] takes the loader away and gives a
//! [`Finish`], which ends with nothing left.
use crate::ctree::{
    error, exhausted, relink_start, Call, CallView, DatAddr, DatFile, Error, IdxFile, Insert,
    InsertView, Reply, ReplyView, Step, StepView, KEY_OUT_OF_ORDER,
};
use vstd::prelude::*;

verus! {

/// A key and the record that is to go under it once the loader is finished.
#[derive(Clone, Debug)]
pub struct DeferredEntry {
    pub key: Vec<u8>,
    pub addr: DatAddr,
}

/// A deferred entry as a mathematical value.
pub struct DeferredView {
    pub key: Seq<u8>,
    pub addr: DatAddr,
}

impl View for DeferredEntry {
    type V = DeferredView;

    open spec fn view(&self) -> DeferredView {
        DeferredView { key: self.key@, addr: self.addr }
    }
}

/// The entries of a queue as mathematical values.
pub open spec fn queue_view(queue: Seq<DeferredEntry>) -> Seq<DeferredView> {
    queue.map_values(|e: DeferredEntry| e@)
}

/// A loader between two operations.
#[derive(Debug)]
pub struct BulkLoader {
    idx: IdxFile,
    dat: DatFile,
    deferred: Vec<DeferredEntry>,
    first: bool,
}

/// A loader as a mathematical value.
pub struct LoaderView {
    pub idx: IdxFile,
    pub dat: DatFile,
    /// What waits for the finish, oldest first.
    pub deferred: Seq<DeferredView>,
    /// True until the fast path has taken a key.
    pub first: bool,
}

impl View for BulkLoader {
    type V = LoaderView;

    closed spec fn view(&self) -> LoaderView {
        LoaderView {
            idx: self.idx,
            dat: self.dat,
            deferred: queue_view(self.deferred@),
            first: self.first,
        }
    }
}

/// The making of a loader, under way.
#[derive(Debug)]
pub struct Drain {
    idx: IdxFile,
    dat: DatFile,
    deferred: Vec<DeferredEntry>,
    found: Option<DeferredEntry>,
}

/// The making of a loader as a mathematical value.
pub struct DrainView {
    pub idx: IdxFile,
    pub dat: DatFile,
    /// The entries taken out of the index so far.
    pub deferred: Seq<DeferredView>,
    /// The entry that is being deleted; none while the first key is asked.
    pub found: Option<DeferredView>,
}

impl View for Drain {
    type V = DrainView;

    closed spec fn view(&self) -> DrainView {
        DrainView {
            idx: self.idx,
            dat: self.dat,
            deferred: queue_view(self.deferred@),
            found: match self.found {
                Some(e) => Some(e@),
                None => None,
            },
        }
    }
}

/// The first step of making a loader: the first key is asked for.
pub open spec fn drain_start(idx: IdxFile, dat: DatFile) -> StepView<DrainView, LoaderView> {
    StepView::Ask(
        DrainView { idx, dat, deferred: Seq::empty(), found: None },
        CallView::FirstKey { keyno: idx.0, keylen: idx.1 },
    )
}

impl DrainView {
    /// What the making of a loader does with the store's reply.
    ///
    /// Each entry that the store names as its first is deleted from the index
    /// and queued, until the store names none; the loader is then made. A key
    /// of the wrong length, a status other than zero and a reply of the wrong
    /// kind end it in failure.
    pub open spec fn next(self, reply: ReplyView) -> StepView<DrainView, LoaderView> {
        match (self.found, reply) {
            (None, ReplyView::Entry(a, key)) => {
                if a == 0 {
                    StepView::Done(
                        Ok(
                            LoaderView {
                                idx: self.idx,
                                dat: self.dat,
                                deferred: self.deferred,
                                first: true,
                            },
                        ),
                    )
                } else if key.len() != self.idx.1 {
                    StepView::Done(Err(Error::BadKeyLength))
                } else {
                    StepView::Ask(
                        DrainView { found: Some(DeferredView { key, addr: DatAddr(a) }), ..self },
                        CallView::DeleteKey { keyno: self.idx.0, key, recbyt: DatAddr(a) },
                    )
                }
            },
            (Some(e), ReplyView::Status(code)) => {
                if code != 0 {
                    StepView::Done(Err(Error::CTree(code)))
                } else {
                    StepView::Ask(
                        DrainView { deferred: self.deferred.push(e), found: None, ..self },
                        CallView::FirstKey { keyno: self.idx.0, keylen: self.idx.1 },
                    )
                }
            },
            _ => StepView::Done(Err(Error::CTree(0))),
        }
    }
}

impl Drain {
    /// Takes the store's reply to the call asked for, and says what comes
    /// next.
    pub fn resume(self, reply: Reply) -> (step: Step<Drain, BulkLoader>)
        ensures
            step@ == self@.next(reply@),
    {
        match (self.found, reply) {
            (None, Reply::Entry(a, key)) => {
                if a == 0 {
                    Step::Done(
                        Ok(
                            BulkLoader {
                                idx: self.idx,
                                dat: self.dat,
                                deferred: self.deferred,
                                first: true,
                            },
                        ),
                    )
                } else {
                    match self.idx.check_key(key.as_slice()) {
                        Err(e) => Step::Done(Err(e)),
                        Ok(()) => {
                            let call = Call::DeleteKey {
                                keyno: self.idx.0,
                                key: key.clone(),
                                recbyt: DatAddr(a),
                            };
                            let found = Some(DeferredEntry { key, addr: DatAddr(a) });
                            Step::Ask(
                                Drain {
                                    idx: self.idx,
                                    dat: self.dat,
                                    deferred: self.deferred,
                                    found,
                                },
                                call,
                            )
                        },
                    }
                }
            },
            (Some(e), Reply::Status(code)) => {
                match error(code) {
                    Err(err) => Step::Done(Err(err)),
                    Ok(()) => {
                        let mut deferred = self.deferred;
                        let ghost before = deferred@;
                        deferred.push(e);
                        proof {
                            assert(queue_view(deferred@) =~= queue_view(before).push(e@));
                        }
                        Step::Ask(
                            Drain { idx: self.idx, dat: self.dat, deferred, found: None },
                            Call::FirstKey { keyno: self.idx.0, keylen: self.idx.1 },
                        )
                    },
                }
            },
            _ => Step::Done(Err(Error::CTree(0))),
        }
    }
}

/// How a load ended.
#[derive(Clone, Debug)]
pub enum Loaded {
    /// The fast path took the key.
    InOrder,
    /// The store refused the key as out of order; the record waits in this
    /// entry.
    Deferred(DeferredEntry),
}

/// The end of a load as a mathematical value.
pub enum LoadedView {
    InOrder,
    Deferred(DeferredView),
}

impl View for Loaded {
    type V = LoadedView;

    open spec fn view(&self) -> LoadedView {
        match *self {
            Loaded::InOrder => LoadedView::InOrder,
            Loaded::Deferred(e) => LoadedView::Deferred(e@),
        }
    }
}

/// Which call a load is waiting on.
#[derive(Copy, Clone, Debug, PartialEq, Eq, Structural)]
pub enum LoadPhase {
    /// A record for the payload was asked for.
    Alloc,
    /// The record lay in the reserved range and is being given back.
    Exhausted,
    /// The payload is being written.
    Write,
    /// The key is being offered to the fast path.
    Offer,
}

/// A load under way.
#[derive(Debug)]
pub struct Load {
    idx: IdxFile,
    dat: DatFile,
    first: bool,
    key: Vec<u8>,
    data: Vec<u8>,
    phase: LoadPhase,
    addr: DatAddr,
}

/// A load under way, as a mathematical value.
pub struct LoadView {
    pub idx: IdxFile,
    pub dat: DatFile,
    /// True if the fast path has taken no key yet.
    pub first: bool,
    pub key: Seq<u8>,
    pub data: Seq<u8>,
    pub phase: LoadPhase,
    /// The record that holds, or is to hold, the payload.
    pub addr: DatAddr,
}

impl View for Load {
    type V = LoadView;

    closed spec fn view(&self) -> LoadView {
        LoadView {
            idx: self.idx,
            dat: self.dat,
            first: self.first,
            key: self.key@,
            data: self.data@,
            phase: self.phase,
            addr: self.addr,
        }
    }
}

impl LoadView {
    /// What a load does with the store's reply.
    ///
    /// The record is made and written as for an insert. The key then goes to
    /// the fast path: status zero ends the load in order, `KEY_OUT_OF_ORDER`
    /// ends it deferred, both in success. Any other status, a key of the
    /// wrong length, a record in the reserved range and a reply of the wrong
    /// kind end it in failure.
    pub open spec fn next(self, reply: ReplyView) -> StepView<LoadView, LoadedView> {
        match (self.phase, reply) {
            (LoadPhase::Alloc, ReplyView::Long(a)) => {
                if a == 0 {
                    StepView::Done(Err(Error::CTree(0)))
                } else if exhausted(a) {
                    StepView::Ask(
                        LoadView { phase: LoadPhase::Exhausted, addr: DatAddr(a), ..self },
                        CallView::ReleaseVData { datno: self.dat.0, recbyt: DatAddr(a) },
                    )
                } else {
                    StepView::Ask(
                        LoadView { phase: LoadPhase::Write, addr: DatAddr(a), ..self },
                        CallView::WriteVData {
                            datno: self.dat.0,
                            recbyt: DatAddr(a),
                            data: self.data,
                        },
                    )
                }
            },
            (LoadPhase::Exhausted, _) => StepView::Done(Err(Error::OutOfSpace)),
            (LoadPhase::Write, ReplyView::Status(code)) => {
                if code != 0 {
                    StepView::Done(Err(Error::CTree(code)))
                } else if self.key.len() != self.idx.1 {
                    StepView::Done(Err(Error::BadKeyLength))
                } else {
                    StepView::Ask(
                        LoadView { phase: LoadPhase::Offer, ..self },
                        CallView::LoadKey {
                            keyno: self.idx.0,
                            key: self.key,
                            recbyt: self.addr,
                            first: self.first,
                        },
                    )
                }
            },
            (LoadPhase::Offer, ReplyView::Status(code)) => {
                if code == 0 {
                    StepView::Done(Ok(LoadedView::InOrder))
                } else if code == KEY_OUT_OF_ORDER {
                    StepView::Done(
                        Ok(LoadedView::Deferred(DeferredView { key: self.key, addr: self.addr })),
                    )
                } else {
                    StepView::Done(Err(Error::CTree(code)))
                }
            },
            _ => StepView::Done(Err(Error::CTree(0))),
        }
    }
}

impl Load {
    /// Takes the store's reply to the call asked for, and says what comes
    /// next.
    pub fn resume(self, reply: Reply) -> (step: Step<Load, Loaded>)
        ensures
            step@ == self@.next(reply@),
    {
        match (self.phase, reply) {
            (LoadPhase::Alloc, Reply::Long(a)) => {
                if a == 0 {
                    Step::Done(Err(Error::CTree(0)))
                } else if a > i32::MAX - crate::ctree::RESERVED_ADDRESSES {
                    let call = Call::ReleaseVData { datno: self.dat.0, recbyt: DatAddr(a) };
                    Step::Ask(Load { phase: LoadPhase::Exhausted, addr: DatAddr(a), ..self }, call)
                } else {
                    let call = Call::WriteVData {
                        datno: self.dat.0,
                        recbyt: DatAddr(a),
                        data: self.data.clone(),
                    };
                    Step::Ask(Load { phase: LoadPhase::Write, addr: DatAddr(a), ..self }, call)
                }
            },
            (LoadPhase::Exhausted, _) => Step::Done(Err(Error::OutOfSpace)),
            (LoadPhase::Write, Reply::Status(code)) => {
                match error(code) {
                    Err(e) => Step::Done(Err(e)),
                    Ok(()) => match self.idx.check_key(self.key.as_slice()) {
                        Err(e) => Step::Done(Err(e)),
                        Ok(()) => {
                            let call = Call::LoadKey {
                                keyno: self.idx.0,
                                key: self.key.clone(),
                                recbyt: self.addr,
                                first: self.first,
                            };
                            Step::Ask(Load { phase: LoadPhase::Offer, ..self }, call)
                        },
                    },
                }
            },
            (LoadPhase::Offer, Reply::Status(code)) => {
                if code == 0 {
                    Step::Done(Ok(Loaded::InOrder))
                } else if code == KEY_OUT_OF_ORDER {
                    Step::Done(Ok(Loaded::Deferred(DeferredEntry { key: self.key, addr: self.addr })))
                } else {
                    Step::Done(Err(Error::CTree(code)))
                }
            },
            _ => Step::Done(Err(Error::CTree(0))),
        }
    }
}

/// The finish of a loader, under way.
#[derive(Debug)]
pub struct Finish {
    idx: IdxFile,
    dat: DatFile,
    queue: Vec<DeferredEntry>,
    at: usize,
    current: Option<Insert>,
}

/// The finish of a loader as a mathematical value.
pub struct FinishView {
    pub idx: IdxFile,
    pub dat: DatFile,
    /// The whole queue, oldest entry first.
    pub queue: Seq<DeferredView>,
    /// How many entries of the queue have been taken up.
    pub at: nat,
    /// The insert of the entry taken up last; none while the session of
    /// loads is being ended.
    pub current: Option<InsertView>,
}

impl View for Finish {
    type V = FinishView;

    closed spec fn view(&self) -> FinishView {
        FinishView {
            idx: self.idx,
            dat: self.dat,
            queue: queue_view(self.queue@),
            at: self.at as nat,
            current: match self.current {
                Some(ins) => Some(ins@),
                None => None,
            },
        }
    }
}

impl FinishView {
    /// Takes up the next entry of the queue, or is done if none is left.
    pub open spec fn replay(self) -> StepView<FinishView, ()> {
        if self.at >= self.queue.len() {
            StepView::Done(Ok(()))
        } else {
            let e = self.queue[self.at as int];
            match relink_start(self.idx, self.dat, e.key, e.addr) {
                StepView::Ask(ins, call) => StepView::Ask(
                    FinishView { at: self.at + 1, current: Some(ins), ..self },
                    call,
                ),
                StepView::Done(result) => StepView::Done(result),
            }
        }
    }

    /// What the finish does with the store's reply.
    ///
    /// Once the session of loads is ended, each entry of the queue is put
    /// under its key by the insert that merges on collision, oldest entry
    /// first. The first failure ends the finish.
    pub open spec fn next(self, reply: ReplyView) -> StepView<FinishView, ()> {
        match self.current {
            None => match reply {
                ReplyView::Status(code) => if code != 0 {
                    StepView::Done(Err(Error::CTree(code)))
                } else {
                    self.replay()
                },
                _ => StepView::Done(Err(Error::CTree(0))),
            },
            Some(ins) => match ins.next(reply) {
                StepView::Ask(ins, call) => StepView::Ask(
                    FinishView { current: Some(ins), ..self },
                    call,
                ),
                StepView::Done(Err(e)) => StepView::Done(Err(e)),
                StepView::Done(Ok(_)) => self.replay(),
            },
        }
    }
}

impl Finish {
    fn replay(self) -> (step: Step<Finish, ()>)
        ensures
            step@ == self@.replay(),
    {
        if self.at >= self.queue.len() {
            Step::Done(Ok(()))
        } else {
            let key = self.queue[self.at].key.clone();
            let addr = self.queue[self.at].addr;
            match Insert::relink(&self.idx, &self.dat, key, addr) {
                Step::Ask(ins, call) => Step::Ask(
                    Finish { at: self.at + 1, current: Some(ins), ..self },
                    call,
                ),
                Step::Done(result) => Step::Done(result),
            }
        }
    }

    /// Takes the store's reply to the call asked for, and says what comes
    /// next.
    pub fn resume(self, reply: Reply) -> (step: Step<Finish, ()>)
        ensures
            step@ == self@.next(reply@),
    {
        let Finish { idx, dat, queue, at, current } = self;
        match current {
            None => match reply {
                Reply::Status(code) => match error(code) {
                    Err(e) => Step::Done(Err(e)),
                    Ok(()) => Finish { idx, dat, queue, at, current: None }.replay(),
                },
                _ => Step::Done(Err(Error::CTree(0))),
            },
            Some(ins) => match ins.resume(reply) {
                Step::Ask(ins, call) => Step::Ask(
                    Finish { idx, dat, queue, at, current: Some(ins) },
                    call,
                ),
                Step::Done(Err(e)) => Step::Done(Err(e)),
                Step::Done(Ok(_)) => Finish { idx, dat, queue, at, current: None }.replay(),
            },
        }
    }
}

impl LoaderView {
    /// The first step of a load of `data` under `key`.
    pub open spec fn load(self, key: Seq<u8>, data: Seq<u8>) -> StepView<LoadView, LoadedView> {
        if data.len() > i32::MAX {
            StepView::Done(Err(Error::OutOfSpace))
        } else {
            StepView::Ask(
                LoadView {
                    idx: self.idx,
                    dat: self.dat,
                    first: self.first,
                    key,
                    data,
                    phase: LoadPhase::Alloc,
                    addr: DatAddr(0),
                },
                CallView::NewVData { datno: self.dat.0, varlen: data.len() as i32 },
            )
        }
    }

    /// The loader once a load has ended as `end`: a key taken in order is
    /// the first no longer, a deferred entry joins the queue.
    pub open spec fn settled(self, end: LoadedView) -> LoaderView {
        match end {
            LoadedView::InOrder => LoaderView { first: false, ..self },
            LoadedView::Deferred(e) => LoaderView { deferred: self.deferred.push(e), ..self },
        }
    }

    /// The first step of the finish: the session of loads is ended.
    pub open spec fn finish(self) -> StepView<FinishView, ()> {
        StepView::Ask(
            FinishView {
                idx: self.idx,
                dat: self.dat,
                queue: self.deferred,
                at: 0,
                current: None,
            },
            CallView::EndLoad { keyno: self.idx.0, key: Seq::new(self.idx.1 as nat, |i: int| 0u8) },
        )
    }
}

/// A key of `len` zero bytes.
fn zeros(len: usize) -> (key: Vec<u8>)
    ensures
        key@ == Seq::new(len as nat, |i: int| 0u8),
{
    let mut key: Vec<u8> = Vec::new();
    while key.len() < len
        invariant
            key@.len() <= len,
            forall|i: int| 0 <= i < key@.len() ==> key@[i] == 0,
        decreases len - key@.len(),
    {
        key.push(0);
    }
    proof {
        assert(key@ =~= Seq::new(len as nat, |i: int| 0u8));
    }
    key
}

impl BulkLoader {
    /// Begins to make a loader on an index and its data file. Making it
    /// empties the index: each entry is deleted and queued, in the order of
    /// the index.
    pub fn new(idx: &IdxFile, dat: &DatFile) -> (step: Step<Drain, BulkLoader>)
        ensures
            step@ == drain_start(*idx, *dat),
    {
        let drain = Drain { idx: *idx, dat: *dat, deferred: Vec::new(), found: None };
        proof {
            assert(queue_view(drain.deferred@) =~= Seq::empty());
        }
        Step::Ask(drain, Call::FirstKey { keyno: idx.0, keylen: idx.1 })
    }

    /// Begins to load `data` under `key`. The loader itself changes only when
    /// the end of the load is handed to [`BulkLoader::settle`].
    pub fn load(&self, key: &[u8], data: &[u8]) -> (step: Step<Load, Loaded>)
        ensures
            step@ == self@.load(key@, data@),
    {
        if data.len() > i32::MAX as usize {
            Step::Done(Err(Error::OutOfSpace))
        } else {
            let call = Call::NewVData { datno: self.dat.0, varlen: data.len() as i32 };
            Step::Ask(
                Load {
                    idx: self.idx,
                    dat: self.dat,
                    first: self.first,
                    key: vstd::slice::slice_to_vec(key),
                    data: vstd::slice::slice_to_vec(data),
                    phase: LoadPhase::Alloc,
                    addr: DatAddr(0),
                },
                call,
            )
        }
    }

    /// Takes note of how a load ended.
    pub fn settle(&mut self, end: Loaded)
        ensures
            final(self)@ == old(self)@.settled(end@),
    {
        match end {
            Loaded::InOrder => {
                self.first = false;
            },
            Loaded::Deferred(e) => {
                let ghost before = self.deferred@;
                self.deferred.push(e);
                proof {
                    assert(queue_view(self.deferred@) =~= queue_view(before).push(e@));
                }
            },
        }
    }

    /// How many entries wait for the finish.
    pub fn deferrals(&self) -> (n: usize)
        ensures
            n == self@.deferred.len(),
    {
        self.deferred.len()
    }

    /// Begins the finish: ends the session of loads, then inserts the queue.
    pub fn finish(self) -> (step: Step<Finish, ()>)
        ensures
            step@ == self@.finish(),
    {
        let key = zeros(self.idx.1);
        let call = Call::EndLoad { keyno: self.idx.0, key };
        Step::Ask(
            Finish { idx: self.idx, dat: self.dat, queue: self.deferred, at: 0, current: None },
            call,
        )
    }
}

} // verus!
