//! What this library takes a record store to be, and what its operations
//! achieve on every store of that kind.
//!
//! A [`Store`] is one index file and one data file as mathematical maps.
//! [`answers`] says which replies such a store may give to a call and what the
//! call does to it; a store is free to fail any call with a status of its own.
//! [`runs`] follows an operation through a whole exchange with a store. The
//! laws below hold of every exchange, whatever addresses the store hands out.
use crate::ctree::{
    exhausted, insert_start, relink_start, CallView, DatAddr, DatFile, Error, IdxFile,
    InsertView, Phase, ReplyView, StepView, DUPLICATE_KEY, KEY_OUT_OF_ORDER,
};
use vstd::prelude::*;

verus! {

/// An index file and a data file.
pub struct Store {
    /// File number of the index.
    pub keyno: i16,
    /// File number of the data file.
    pub datno: i16,
    /// The keys of the index, each with the address it leads to.
    pub index: Map<Seq<u8>, DatAddr>,
    /// The records in use, by address.
    pub records: Map<DatAddr, Seq<u8>>,
    /// The key that the ordered fast path took last, in a session of loads.
    pub last: Option<Seq<u8>>,
}

/// True if `a` comes before `b` in the order of the index: byte by byte, and
/// a proper prefix before what it is a prefix of.
pub open spec fn key_lt(a: Seq<u8>, b: Seq<u8>) -> bool
    decreases a.len(),
{
    if b.len() == 0 {
        false
    } else if a.len() == 0 {
        true
    } else if a[0] != b[0] {
        a[0] < b[0]
    } else {
        key_lt(a.skip(1), b.skip(1))
    }
}

impl Store {
    /// True if every key leads to a record in use, no two keys lead to the
    /// same record, and no record has address zero.
    pub open spec fn wf(self) -> bool {
        &&& forall|k: Seq<u8>| #[trigger]
            self.index.contains_key(k) ==> self.records.contains_key(self.index[k])
        &&& forall|k1: Seq<u8>, k2: Seq<u8>|
            #![trigger self.index[k1], self.index[k2]]
            self.index.contains_key(k1) && self.index.contains_key(k2) && k1 != k2
                ==> self.index[k1] != self.index[k2]
        &&& !self.records.contains_key(DatAddr(0))
    }

    /// True if the store is well-formed and made of these two files.
    pub open spec fn serves(self, idx: IdxFile, dat: DatFile) -> bool {
        self.wf() && self.keyno == idx.0 && self.datno == dat.0
    }

    /// True if the store keeps each record of `kept` as it is there, with no
    /// key that leads to it.
    pub open spec fn parks(self, kept: Map<DatAddr, Seq<u8>>) -> bool {
        forall|a: DatAddr| #[trigger]
            kept.contains_key(a) ==> self.records.contains_key(a) && self.records[a] == kept[a]
                && self.unlinked(a)
    }

    /// True if no key leads to the record at `a`.
    pub open spec fn unlinked(self, a: DatAddr) -> bool {
        forall|k: Seq<u8>| #[trigger] self.index.contains_key(k) ==> self.index[k] != a
    }

    /// What the store holds from its user's side: each key with the payload
    /// it leads to.
    pub open spec fn contents(self) -> Map<Seq<u8>, Seq<u8>> {
        Map::new(|k: Seq<u8>| self.index.contains_key(k), |k: Seq<u8>| self.records[self.index[k]])
    }

    /// True if `key` may go through the ordered fast path now.
    pub open spec fn in_order(self, key: Seq<u8>, first: bool) -> bool {
        first || self.last is None || key_lt(self.last->Some_0, key)
    }
}

/// A payload on its way to the store, and the key it is to go under.
pub struct Put {
    pub key: Seq<u8>,
    pub data: Seq<u8>,
}

/// The contents once `data` has been put under `key`, behind what the key
/// held before.
pub open spec fn merge(c: Map<Seq<u8>, Seq<u8>>, key: Seq<u8>, data: Seq<u8>) -> Map<
    Seq<u8>,
    Seq<u8>,
> {
    if c.contains_key(key) {
        c.insert(key, c[key] + data)
    } else {
        c.insert(key, data)
    }
}

/// The contents of a store once each of `puts` has been put into it, in
/// order, each behind what its key held before.
pub open spec fn merge_all(c: Map<Seq<u8>, Seq<u8>>, puts: Seq<Put>) -> Map<Seq<u8>, Seq<u8>>
    decreases puts.len(),
{
    if puts.len() == 0 {
        c
    } else {
        merge(merge_all(c, puts.drop_last()), puts.last().key, puts.last().data)
    }
}

/// The payload under `key`, or nothing where the key is not held.
pub open spec fn held(c: Map<Seq<u8>, Seq<u8>>, key: Seq<u8>) -> Seq<u8> {
    if c.contains_key(key) {
        c[key]
    } else {
        Seq::empty()
    }
}

/// Putting one more is merging it into what the puts before made.
pub proof fn lemma_merge_all_push(c: Map<Seq<u8>, Seq<u8>>, puts: Seq<Put>, p: Put)
    ensures
        merge_all(c, puts + seq![p]) == merge(merge_all(c, puts), p.key, p.data),
        merge_all(c, puts + Seq::<Put>::empty()) == merge_all(c, puts),
        merge_all(c, Seq::<Put>::empty()) == c,
{
    assert((puts + seq![p]).drop_last() =~= puts);
    assert(puts + Seq::<Put>::empty() =~= puts);
}

/// The payloads of those of `puts` that go under `key`, joined in the order
/// of `puts`.
pub open spec fn payloads_for(puts: Seq<Put>, key: Seq<u8>) -> Seq<u8>
    decreases puts.len(),
{
    if puts.len() == 0 {
        Seq::empty()
    } else if puts.last().key == key {
        payloads_for(puts.drop_last(), key) + puts.last().data
    } else {
        payloads_for(puts.drop_last(), key)
    }
}

/// True if one of `puts` goes under `key`.
pub open spec fn puts_under(puts: Seq<Put>, key: Seq<u8>) -> bool {
    exists|i: int| 0 <= i < puts.len() && (#[trigger] puts[i]).key == key
}

/// After a row of puts a key holds what it held before and then the payloads
/// put under it, in their order; and it is held if it was held before or
/// something was put under it.
pub proof fn lemma_merge_all_key(c: Map<Seq<u8>, Seq<u8>>, puts: Seq<Put>, key: Seq<u8>)
    ensures
        held(merge_all(c, puts), key) == held(c, key) + payloads_for(puts, key),
        merge_all(c, puts).contains_key(key) <==> c.contains_key(key) || puts_under(puts, key),
    decreases puts.len(),
{
    if puts.len() == 0 {
        assert(held(c, key) + Seq::<u8>::empty() =~= held(c, key));
    } else {
        let before = puts.drop_last();
        lemma_merge_all_key(c, before, key);
        let last = puts.last();
        if last.key == key {
            assert(puts[puts.len() - 1].key == key);
            assert(held(c, key) + (payloads_for(before, key) + last.data) =~= held(c, key)
                + payloads_for(before, key) + last.data);
            assert(Seq::<u8>::empty() + last.data =~= last.data);
        } else {
            if puts_under(puts, key) {
                let i = choose|i: int| 0 <= i < puts.len() && (#[trigger] puts[i]).key == key;
                assert(before[i].key == key);
            }
        }
        if puts_under(before, key) {
            let i = choose|i: int| 0 <= i < before.len() && (#[trigger] before[i]).key == key;
            assert(puts[i].key == key);
        }
    }
}

/// Putting two rows one after the other is putting their concatenation.
pub proof fn lemma_merge_all_concat(c: Map<Seq<u8>, Seq<u8>>, a: Seq<Put>, b: Seq<Put>)
    ensures
        merge_all(merge_all(c, a), b) == merge_all(c, a + b),
    decreases b.len(),
{
    if b.len() == 0 {
        assert(a + b =~= a);
    } else {
        lemma_merge_all_concat(c, a, b.drop_last());
        assert((a + b).drop_last() =~= a + b.drop_last());
        assert((a + b).last() == b.last());
    }
}

/// The payloads under a key, of two rows one after the other.
pub proof fn lemma_payloads_for_concat(a: Seq<Put>, b: Seq<Put>, key: Seq<u8>)
    ensures
        payloads_for(a + b, key) == payloads_for(a, key) + payloads_for(b, key),
    decreases b.len(),
{
    if b.len() == 0 {
        assert(a + b =~= a);
        assert(payloads_for(a, key) + Seq::<u8>::empty() =~= payloads_for(a, key));
    } else {
        lemma_payloads_for_concat(a, b.drop_last(), key);
        assert((a + b).drop_last() =~= a + b.drop_last());
        assert((a + b).last() == b.last());
        if b.last().key == key {
            assert(payloads_for(a, key) + (payloads_for(b.drop_last(), key) + b.last().data)
                =~= payloads_for(a, key) + payloads_for(b.drop_last(), key) + b.last().data);
        }
    }
}

/// True if a store in state `pre` may answer `call` with `reply` and be in
/// state `post` afterwards.
///
/// A status other than zero, and address zero for a new record, is a failure
/// of the store's own, and nothing is said of the store after it; the two
/// statuses that refuse a key leave the store as it was. A call on another
/// file than the store's two is not constrained.
pub open spec fn answers(pre: Store, call: CallView, reply: ReplyView, post: Store) -> bool {
    match (call, reply) {
        (CallView::NewVData { datno, varlen }, ReplyView::Long(a)) => datno == pre.datno && a != 0
            ==> {
            &&& !pre.records.contains_key(DatAddr(a))
            &&& post.records[DatAddr(a)].len() == varlen
            &&& post == Store {
                records: pre.records.insert(DatAddr(a), post.records[DatAddr(a)]),
                ..pre
            }
        },
        (CallView::WriteVData { datno, recbyt, data }, ReplyView::Status(code)) => datno
            == pre.datno && code == 0 ==> {
            &&& pre.records.contains_key(recbyt)
            &&& post == Store { records: pre.records.insert(recbyt, data), ..pre }
        },
        (CallView::VDataLength { datno, recbyt }, ReplyView::Long(len)) => datno == pre.datno ==> {
            &&& post == pre
            &&& pre.records.contains_key(recbyt) ==> len == pre.records[recbyt].len()
        },
        (CallView::ReadVData { datno, recbyt, len }, ReplyView::Data(code, bytes)) => datno
            == pre.datno ==> {
            &&& post == pre
            &&& code == 0 ==> pre.records.contains_key(recbyt)
            &&& code == 0 && len == pre.records[recbyt].len() ==> bytes == pre.records[recbyt]
        },
        (CallView::ReleaseVData { datno, recbyt }, ReplyView::Status(code)) => datno == pre.datno
            && code == 0 ==> post == Store { records: pre.records.remove(recbyt), ..pre },
        (CallView::AddKey { keyno, key, recbyt, typadd }, ReplyView::Status(code)) => keyno
            == pre.keyno ==> {
            &&& code == 0 ==> !pre.index.contains_key(key) && post == Store {
                index: pre.index.insert(key, recbyt),
                ..pre
            }
            &&& code == DUPLICATE_KEY ==> pre.index.contains_key(key) && post == pre
        },
        (CallView::GetKey { keyno, key }, ReplyView::Long(a)) => keyno == pre.keyno ==> {
            &&& post == pre
            &&& a == (if pre.index.contains_key(key) {
                pre.index[key].0
            } else {
                0
            })
        },
        (CallView::DeleteKey { keyno, key, recbyt }, ReplyView::Status(code)) => keyno == pre.keyno
            && code == 0 ==> {
            &&& pre.index.contains_key(key)
            &&& pre.index[key] == recbyt
            &&& post == Store { index: pre.index.remove(key), ..pre }
        },
        (CallView::FirstKey { keyno, keylen }, ReplyView::Entry(a, key)) => keyno == pre.keyno ==> {
            &&& post == pre
            &&& a == 0 ==> forall|k: Seq<u8>| !pre.index.contains_key(k)
            &&& a != 0 ==> {
                &&& pre.index.contains_key(key)
                &&& pre.index[key] == DatAddr(a)
                &&& forall|k: Seq<u8>| #[trigger]
                    pre.index.contains_key(k) ==> k == key || key_lt(key, k)
            }
        },
        (CallView::LoadKey { keyno, key, recbyt, first }, ReplyView::Status(code)) => keyno
            == pre.keyno ==> {
            &&& code == 0 ==> pre.in_order(key, first) && post == Store {
                index: pre.index.insert(key, recbyt),
                last: Some(key),
                ..pre
            }
            &&& code == KEY_OUT_OF_ORDER ==> !pre.in_order(key, first) && post == pre
        },
        (CallView::EndLoad { keyno, key }, ReplyView::Status(code)) => keyno == pre.keyno && code == 0
            ==> post == Store { last: None, ..pre },
        (CallView::InitCTree { .. }, ReplyView::Status(_)) => post == pre,
        (CallView::AvailableFileNbr { .. }, ReplyView::Status(_)) => post == pre,
        (CallView::OpenCtFile { .. }, ReplyView::Status(_)) => post == pre,
        (CallView::CloseCtFile { .. }, ReplyView::Status(_)) => post == pre,
        (CallView::GetCtFileInfo { .. }, ReplyView::Long(_)) => post == pre,
        _ => false,
    }
}

/// One turn of an exchange: what the store replied, and the store after it.
pub struct Turn {
    pub reply: ReplyView,
    pub store: Store,
}

/// Follows an operation from `step`, on a store in state `store`, through the
/// turns of `trace`. The result is the operation's result and the store at the
/// end, if `trace` is a whole exchange: each reply is one that the store may
/// give to the call asked for, and the operation is done exactly when the
/// trace is used up. Otherwise the result is `None`.
pub open spec fn runs<S, T>(
    next: spec_fn(S, ReplyView) -> StepView<S, T>,
    step: StepView<S, T>,
    store: Store,
    trace: Seq<Turn>,
) -> Option<(Result<T, Error>, Store)>
    decreases trace.len(),
{
    match step {
        StepView::Done(result) => if trace.len() == 0 {
            Some((result, store))
        } else {
            None
        },
        StepView::Ask(state, call) => if trace.len() == 0 {
            None
        } else if answers(store, call, trace[0].reply, trace[0].store) {
            runs(next, next(state, trace[0].reply), trace[0].store, trace.skip(1))
        } else {
            None
        },
    }
}

/// How an insert is followed through an exchange.
pub open spec fn insert_next() -> spec_fn(InsertView, ReplyView) -> StepView<InsertView, ()> {
    |s: InsertView, r: ReplyView| s.next(r)
}

/// What holds between an insert under way and the store, if the store is to
/// hold `goal` once the insert is done.
pub open spec fn insert_inv(
    step: StepView<InsertView, ()>,
    st: Store,
    idx: IdxFile,
    dat: DatFile,
    kept: Map<DatAddr, Seq<u8>>,
    goal: Map<Seq<u8>, Seq<u8>>,
) -> bool {
    match step {
        StepView::Done(Ok(_)) => st.serves(idx, dat) && st.parks(kept) && st.contents() == goal,
        StepView::Done(Err(_)) => true,
        StepView::Ask(s, call) => {
            let c = st.contents();
            let fresh = st.records.contains_key(s.addr) && st.unlinked(s.addr)
                && !kept.contains_key(s.addr);
            &&& st.serves(idx, dat)
            &&& st.parks(kept)
            &&& s.idx == idx
            &&& s.dat == dat
            &&& match s.phase {
                Phase::Alloc => {
                    &&& step == s.allocate()
                    &&& s.merged ==> !c.contains_key(s.key)
                    &&& merge(c, s.key, s.data) == goal
                },
                Phase::Exhausted => true,
                Phase::Write => {
                    &&& call == CallView::WriteVData {
                        datno: s.dat.0,
                        recbyt: s.addr,
                        data: s.data,
                    }
                    &&& fresh
                    &&& s.merged ==> !c.contains_key(s.key)
                    &&& merge(c, s.key, s.data) == goal
                },
                Phase::Add => {
                    &&& step == s.add_key()
                    &&& fresh
                    &&& s.held ==> st.records[s.addr] == s.data
                    &&& s.merged ==> !c.contains_key(s.key)
                    &&& merge(c, s.key, st.records[s.addr]) == goal
                },
                Phase::SizeNew => {
                    &&& step == s.size(Phase::SizeNew, s.addr)
                    &&& fresh
                    &&& c.contains_key(s.key)
                    &&& merge(c, s.key, st.records[s.addr]) == goal
                },
                Phase::ReadNew => {
                    &&& call == CallView::ReadVData {
                        datno: s.dat.0,
                        recbyt: s.addr,
                        len: st.records[s.addr].len() as i32,
                    }
                    &&& st.records[s.addr].len() <= i32::MAX
                    &&& fresh
                    &&& c.contains_key(s.key)
                    &&& merge(c, s.key, st.records[s.addr]) == goal
                },
                Phase::ReleaseNew => {
                    &&& step == s.release(Phase::ReleaseNew, s.addr)
                    &&& fresh
                    &&& c.contains_key(s.key)
                    &&& merge(c, s.key, s.data) == goal
                },
                Phase::Find => {
                    &&& call == CallView::GetKey { keyno: s.idx.0, key: s.key }
                    &&& c.contains_key(s.key)
                    &&& merge(c, s.key, s.data) == goal
                },
                Phase::SizeOld => {
                    &&& step == s.size(Phase::SizeOld, s.old)
                    &&& c.contains_key(s.key)
                    &&& st.index[s.key] == s.old
                    &&& merge(c, s.key, s.data) == goal
                },
                Phase::ReadOld => {
                    &&& call == CallView::ReadVData {
                        datno: s.dat.0,
                        recbyt: s.old,
                        len: st.records[s.old].len() as i32,
                    }
                    &&& st.records[s.old].len() <= i32::MAX
                    &&& c.contains_key(s.key)
                    &&& st.index[s.key] == s.old
                    &&& merge(c, s.key, s.data) == goal
                },
                Phase::Delete => {
                    &&& call == CallView::DeleteKey { keyno: s.idx.0, key: s.key, recbyt: s.old }
                    &&& c.contains_key(s.key)
                    &&& st.index[s.key] == s.old
                    &&& c.insert(s.key, s.data) == goal
                },
                Phase::ReleaseOld => {
                    &&& step == s.release(Phase::ReleaseOld, s.old)
                    &&& st.unlinked(s.old)
                    &&& !kept.contains_key(s.old)
                    &&& !c.contains_key(s.key)
                    &&& c.insert(s.key, s.data) == goal
                },
            }
        },
    }
}

/// An insert that starts on a well-formed store starts within its invariant.
pub proof fn lemma_insert_start(
    idx: IdxFile,
    dat: DatFile,
    key: Seq<u8>,
    data: Seq<u8>,
    st: Store,
    kept: Map<DatAddr, Seq<u8>>,
)
    requires
        st.serves(idx, dat),
        st.parks(kept),
    ensures
        insert_inv(
            insert_start(idx, dat, key, data),
            st,
            idx,
            dat,
            kept,
            merge(st.contents(), key, data),
        ),
{
}

/// So does the insert of a record that is in use and that no key leads to.
pub proof fn lemma_relink_start(
    idx: IdxFile,
    dat: DatFile,
    key: Seq<u8>,
    addr: DatAddr,
    st: Store,
    kept: Map<DatAddr, Seq<u8>>,
)
    requires
        st.serves(idx, dat),
        st.parks(kept),
        st.records.contains_key(addr),
        st.unlinked(addr),
        !kept.contains_key(addr),
    ensures
        insert_inv(
            relink_start(idx, dat, key, addr),
            st,
            idx,
            dat,
            kept,
            merge(st.contents(), key, st.records[addr]),
        ),
{
}

/// Whatever the store answers, the insert stays within its invariant.
pub proof fn lemma_insert_step(
    s: InsertView,
    call: CallView,
    st: Store,
    idx: IdxFile,
    dat: DatFile,
    kept: Map<DatAddr, Seq<u8>>,
    goal: Map<Seq<u8>, Seq<u8>>,
    reply: ReplyView,
    post: Store,
)
    requires
        insert_inv(StepView::Ask(s, call), st, idx, dat, kept, goal),
        answers(st, call, reply, post),
    ensures
        insert_inv(s.next(reply), post, idx, dat, kept, goal),
{
    let c = st.contents();
    let step = s.next(reply);
    match step {
        StepView::Done(Err(_)) => {},
        _ => {
            match s.phase {
                Phase::Alloc => {
                    assert(post.contents() =~= c);
                },
                Phase::Exhausted => {},
                Phase::Write => {
                    assert(post.contents() =~= c);
                },
                Phase::Add => {
                    if reply == ReplyView::Status(0) {
                        assert(post.contents() =~= goal);
                    }
                },
                Phase::SizeNew => {},
                Phase::ReadNew => {},
                Phase::ReleaseNew => {
                    assert(post.contents() =~= c);
                },
                Phase::Find => {},
                Phase::SizeOld => {},
                Phase::ReadOld => {
                    assert(c.insert(s.key, c[s.key] + s.data) =~= goal);
                },
                Phase::Delete => {
                    assert(post.contents() =~= c.remove(s.key));
                    assert(c.remove(s.key).insert(s.key, s.data) =~= c.insert(s.key, s.data));
                },
                Phase::ReleaseOld => {
                    assert(post.contents() =~= c);
                },
            }
        },
    }
}

/// An exchange that starts within the invariant and ends in success ends
/// with the goal reached.
pub proof fn lemma_insert_runs(
    step: StepView<InsertView, ()>,
    st: Store,
    idx: IdxFile,
    dat: DatFile,
    kept: Map<DatAddr, Seq<u8>>,
    goal: Map<Seq<u8>, Seq<u8>>,
    trace: Seq<Turn>,
)
    requires
        insert_inv(step, st, idx, dat, kept, goal),
        runs(insert_next(), step, st, trace) matches Some((Ok(_), _)),
    ensures
        runs(insert_next(), step, st, trace)->Some_0.1.serves(idx, dat),
        runs(insert_next(), step, st, trace)->Some_0.1.parks(kept),
        runs(insert_next(), step, st, trace)->Some_0.1.contents() == goal,
    decreases trace.len(),
{
    match step {
        StepView::Done(_) => {},
        StepView::Ask(s, call) => {
            lemma_insert_step(s, call, st, idx, dat, kept, goal, trace[0].reply, trace[0].store);
            lemma_insert_runs(
                s.next(trace[0].reply),
                trace[0].store,
                idx,
                dat,
                kept,
                goal,
                trace.skip(1),
            );
        },
    }
}

/// Merge on collision. Whatever addresses the store hands out, an insert of
/// `data` under `key` that succeeds leaves exactly one record under `key`: it
/// holds what `key` held before, followed by `data`. Every other key holds
/// what it held before, and the records of `kept`, to which no key leads,
/// stay as they are.
pub proof fn law_insert_merges(
    idx: IdxFile,
    dat: DatFile,
    key: Seq<u8>,
    data: Seq<u8>,
    st: Store,
    kept: Map<DatAddr, Seq<u8>>,
    trace: Seq<Turn>,
)
    requires
        st.serves(idx, dat),
        st.parks(kept),
        runs(insert_next(), insert_start(idx, dat, key, data), st, trace) matches Some((Ok(_), _)),
    ensures
        ({
            let end = runs(insert_next(), insert_start(idx, dat, key, data), st, trace)->Some_0.1;
            &&& end.serves(idx, dat)
            &&& end.parks(kept)
            &&& end.contents() == merge(st.contents(), key, data)
        }),
{
    lemma_insert_start(idx, dat, key, data, st, kept);
    lemma_insert_runs(
        insert_start(idx, dat, key, data),
        st,
        idx,
        dat,
        kept,
        merge(st.contents(), key, data),
        trace,
    );
}

/// The same of a record that is written already: putting it under `key`
/// leaves `key` with what it held before, followed by the record's payload.
pub proof fn law_relink_merges(
    idx: IdxFile,
    dat: DatFile,
    key: Seq<u8>,
    addr: DatAddr,
    st: Store,
    kept: Map<DatAddr, Seq<u8>>,
    trace: Seq<Turn>,
)
    requires
        st.serves(idx, dat),
        st.parks(kept),
        st.records.contains_key(addr),
        st.unlinked(addr),
        !kept.contains_key(addr),
        runs(insert_next(), relink_start(idx, dat, key, addr), st, trace) matches Some((Ok(_), _)),
    ensures
        ({
            let end = runs(insert_next(), relink_start(idx, dat, key, addr), st, trace)->Some_0.1;
            &&& end.serves(idx, dat)
            &&& end.parks(kept)
            &&& end.contents() == merge(st.contents(), key, st.records[addr])
        }),
{
    lemma_relink_start(idx, dat, key, addr, st, kept);
    lemma_insert_runs(
        relink_start(idx, dat, key, addr),
        st,
        idx,
        dat,
        kept,
        merge(st.contents(), key, st.records[addr]),
        trace,
    );
}

/// How many calls an insert may still ask for, the one it waits on included.
pub open spec fn insert_budget(step: StepView<InsertView, ()>) -> nat {
    match step {
        StepView::Done(_) => 0,
        StepView::Ask(s, _) => {
            let adding: nat = if s.merged {
                1
            } else if s.held {
                10
            } else {
                12
            };
            match s.phase {
                Phase::Alloc => adding + 2,
                Phase::Exhausted => 1,
                Phase::Write => adding + 1,
                Phase::Add => adding,
                Phase::SizeNew => 11,
                Phase::ReadNew => 10,
                Phase::ReleaseNew => 9,
                Phase::Find => 8,
                Phase::SizeOld => 7,
                Phase::ReadOld => 6,
                Phase::Delete => 5,
                Phase::ReleaseOld => 4,
            }
        },
    }
}

/// No retry. Whatever the store answers, and be it no answer that a store
/// may give, each reply brings an insert nearer to its end.
pub proof fn law_insert_advances(s: InsertView, call: CallView, reply: ReplyView)
    ensures
        insert_budget(s.next(reply)) < insert_budget(StepView::Ask(s, call)),
{
}

/// An insert is over after twelve calls at most.
pub proof fn law_insert_ends(
    idx: IdxFile,
    dat: DatFile,
    key: Seq<u8>,
    data: Seq<u8>,
    st: Store,
    trace: Seq<Turn>,
)
    requires
        runs(insert_next(), insert_start(idx, dat, key, data), st, trace) is Some,
    ensures
        trace.len() <= 12,
{
    lemma_insert_trace(insert_start(idx, dat, key, data), st, trace);
}

/// An exchange is no longer than the budget of the step it begins with.
pub proof fn lemma_insert_trace(step: StepView<InsertView, ()>, st: Store, trace: Seq<Turn>)
    requires
        runs(insert_next(), step, st, trace) is Some,
    ensures
        trace.len() <= insert_budget(step),
    decreases trace.len(),
{
    match step {
        StepView::Done(_) => {},
        StepView::Ask(s, call) => {
            law_insert_advances(s, call, trace[0].reply);
            lemma_insert_trace(s.next(trace[0].reply), trace[0].store, trace.skip(1));
        },
    }
}

/// True if the store did what it was asked: it gave an address below the
/// reserved range for a new record, read what it was to read, and answered
/// with status zero, or with `DUPLICATE_KEY` where a key was to be added.
pub open spec fn obliges(call: CallView, reply: ReplyView) -> bool {
    match (call, reply) {
        (CallView::NewVData { .. }, ReplyView::Long(a)) => a != 0 && !exhausted(a),
        (CallView::AddKey { .. }, ReplyView::Status(code)) => code == 0 || code == DUPLICATE_KEY,
        (CallView::LoadKey { .. }, ReplyView::Status(code)) => code == 0 || code
            == KEY_OUT_OF_ORDER,
        (_, ReplyView::Status(code)) => code == 0,
        (_, ReplyView::Data(code, _)) => code == 0,
        _ => true,
    }
}

/// True if the store obliges at every turn of the exchange that begins with
/// `step`.
pub open spec fn obliging<S, T>(
    next: spec_fn(S, ReplyView) -> StepView<S, T>,
    step: StepView<S, T>,
    trace: Seq<Turn>,
) -> bool
    decreases trace.len(),
{
    match step {
        StepView::Done(_) => true,
        StepView::Ask(state, call) => trace.len() > 0 ==> obliges(call, trace[0].reply)
            && obliging(next, next(state, trace[0].reply), trace.skip(1)),
    }
}

/// An insert within its invariant, with a key of the right length and a goal
/// that a record can hold, is not ended in failure by a reply of a store that
/// obliges.
pub proof fn lemma_insert_step_owed(
    s: InsertView,
    call: CallView,
    st: Store,
    idx: IdxFile,
    dat: DatFile,
    kept: Map<DatAddr, Seq<u8>>,
    goal: Map<Seq<u8>, Seq<u8>>,
    reply: ReplyView,
    post: Store,
)
    requires
        insert_inv(StepView::Ask(s, call), st, idx, dat, kept, goal),
        s.phase != Phase::Exhausted,
        s.key.len() == idx.1,
        goal.contains_key(s.key),
        goal[s.key].len() <= i32::MAX,
        answers(st, call, reply, post),
        obliges(call, reply),
    ensures
        match s.next(reply) {
            StepView::Ask(after, _) => after.key == s.key && after.phase != Phase::Exhausted,
            StepView::Done(result) => result is Ok,
        },
{
    let c = st.contents();
    match s.phase {
        Phase::ReadOld => {
            assert(c.insert(s.key, c[s.key] + s.data) =~= goal);
            assert(goal[s.key] == c[s.key] + s.data);
        },
        Phase::ReleaseOld => {
            assert(c.insert(s.key, s.data)[s.key] == s.data);
        },
        _ => {},
    }
}

proof fn lemma_insert_owed(
    step: StepView<InsertView, ()>,
    st: Store,
    idx: IdxFile,
    dat: DatFile,
    kept: Map<DatAddr, Seq<u8>>,
    goal: Map<Seq<u8>, Seq<u8>>,
    key: Seq<u8>,
    trace: Seq<Turn>,
)
    requires
        insert_inv(step, st, idx, dat, kept, goal),
        step matches StepView::Ask(s, _) ==> s.key == key && s.phase != Phase::Exhausted,
        step is Done ==> step matches StepView::Done(Ok(_)),
        key.len() == idx.1,
        goal.contains_key(key),
        goal[key].len() <= i32::MAX,
        runs(insert_next(), step, st, trace) is Some,
        obliging(insert_next(), step, trace),
    ensures
        runs(insert_next(), step, st, trace) matches Some((Ok(_), _)),
    decreases trace.len(),
{
    match step {
        StepView::Done(_) => {},
        StepView::Ask(s, call) => {
            let reply = trace[0].reply;
            let post = trace[0].store;
            lemma_insert_step(s, call, st, idx, dat, kept, goal, reply, post);
            lemma_insert_step_owed(s, call, st, idx, dat, kept, goal, reply, post);
            lemma_insert_owed(s.next(reply), post, idx, dat, kept, goal, key, trace.skip(1));
        },
    }
}

/// Success is owed. An insert of `data` under a key of the right length
/// succeeds on every store that obliges, as long as what the key is to hold
/// in the end is no longer than a record can be: it fails only when the
/// store fails a call or is full.
pub proof fn law_insert_succeeds(
    idx: IdxFile,
    dat: DatFile,
    key: Seq<u8>,
    data: Seq<u8>,
    st: Store,
    trace: Seq<Turn>,
)
    requires
        st.serves(idx, dat),
        key.len() == idx.1,
        held(st.contents(), key).len() + data.len() <= i32::MAX,
        runs(insert_next(), insert_start(idx, dat, key, data), st, trace) is Some,
        obliging(insert_next(), insert_start(idx, dat, key, data), trace),
    ensures
        runs(insert_next(), insert_start(idx, dat, key, data), st, trace) matches Some((Ok(_), _)),
{
    lemma_insert_start(idx, dat, key, data, st, Map::empty());
    lemma_insert_owed(
        insert_start(idx, dat, key, data),
        st,
        idx,
        dat,
        Map::empty(),
        merge(st.contents(), key, data),
        key,
        trace,
    );
}

/// The store once a record at `a` holds `data`.
pub open spec fn with_record(st: Store, a: DatAddr, data: Seq<u8>) -> Store {
    Store { records: st.records.insert(a, data), ..st }
}

/// The store once `key` leads to `a`.
pub open spec fn with_key(st: Store, key: Seq<u8>, a: DatAddr) -> Store {
    Store { index: st.index.insert(key, a), ..st }
}

/// A plain insert. Where the index does not hold the key and the store fails
/// no call, the insert is over after three calls: the store makes a record,
/// at `a` say and filled with `fill`, the payload is written to it, and the
/// key is added.
pub proof fn law_plain_insert(
    idx: IdxFile,
    dat: DatFile,
    key: Seq<u8>,
    data: Seq<u8>,
    st: Store,
    a: DatAddr,
    fill: Seq<u8>,
)
    requires
        st.serves(idx, dat),
        key.len() == idx.1,
        data.len() <= i32::MAX,
        fill.len() == data.len(),
        !st.index.contains_key(key),
        a != DatAddr(0),
        !exhausted(a.0),
        !st.records.contains_key(a),
    ensures
        runs(
            insert_next(),
            insert_start(idx, dat, key, data),
            st,
            seq![
                Turn { reply: ReplyView::Long(a.0), store: with_record(st, a, fill) },
                Turn { reply: ReplyView::Status(0), store: with_record(st, a, data) },
                Turn {
                    reply: ReplyView::Status(0),
                    store: with_key(with_record(st, a, data), key, a),
                },
            ],
        ) == Some((Ok::<(), Error>(()), with_key(with_record(st, a, data), key, a))),
{
    let made = with_record(st, a, fill);
    let written = with_record(st, a, data);
    let linked = with_key(written, key, a);
    let t0 = Turn { reply: ReplyView::Long(a.0), store: made };
    let t1 = Turn { reply: ReplyView::Status(0), store: written };
    let t2 = Turn { reply: ReplyView::Status(0), store: linked };
    let trace = seq![t0, t1, t2];
    let s0 = insert_start(idx, dat, key, data);
    let s1 = s0->Ask_0.next(t0.reply);
    let s2 = s1->Ask_0.next(t1.reply);
    let s3 = s2->Ask_0.next(t2.reply);
    assert(a == DatAddr(a.0));
    assert(answers(st, s0->Ask_1, t0.reply, made));
    assert(made.records.insert(a, data) =~= written.records);
    assert(answers(made, s1->Ask_1, t1.reply, written));
    assert(answers(written, s2->Ask_1, t2.reply, linked));
    assert(trace.skip(1) =~= seq![t1, t2]);
    assert(seq![t1, t2].skip(1) =~= seq![t2]);
    assert(seq![t2].skip(1) =~= Seq::<Turn>::empty());
    assert(runs(insert_next(), s3, linked, Seq::<Turn>::empty()) == Some(
        (Ok::<(), Error>(()), linked),
    ));
    assert(runs(insert_next(), s2, written, seq![t2]) == Some((Ok::<(), Error>(()), linked)));
    assert(runs(insert_next(), s1, made, seq![t1, t2]) == Some((Ok::<(), Error>(()), linked)));
}

} // verus!
