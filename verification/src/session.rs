//! What the bulk loader achieves on every store: the laws of its three
//! stretches, and of a loader's whole life.
use crate::ctree::{CallView, DatAddr, DatFile, IdxFile, ReplyView, StepView};
use crate::loader::{
    drain_start, DeferredView, DrainView, FinishView, LoadPhase, LoadView, LoadedView, LoaderView,
};
use crate::model::{
    answers, held, insert_budget, insert_inv, key_lt, law_insert_advances, lemma_insert_step,
    lemma_insert_step_owed, lemma_merge_all_concat, obliges, obliging,
    lemma_merge_all_key, lemma_merge_all_push, lemma_payloads_for_concat, lemma_relink_start,
    merge, merge_all, payloads_for, puts_under, runs, Put, Store, Turn,
};
use vstd::prelude::*;

verus! {

/// No key comes before itself, and of two keys at most one comes before the
/// other.
pub proof fn lemma_key_lt_asymmetric(a: Seq<u8>, b: Seq<u8>)
    requires
        key_lt(a, b),
    ensures
        !key_lt(b, a),
        a != b,
    decreases a.len(),
{
    if a.len() > 0 && b.len() > 0 && a[0] == b[0] {
        lemma_key_lt_asymmetric(a.skip(1), b.skip(1));
        if a == b {
            assert(a.skip(1) == b.skip(1));
        }
    }
}

/// What comes before a key comes before all that the key comes before.
pub proof fn lemma_key_lt_transitive(a: Seq<u8>, b: Seq<u8>, c: Seq<u8>)
    requires
        key_lt(a, b),
        key_lt(b, c),
    ensures
        key_lt(a, c),
    decreases a.len(),
{
    if a.len() > 0 && b.len() > 0 && c.len() > 0 && a[0] == b[0] && b[0] == c[0] {
        lemma_key_lt_transitive(a.skip(1), b.skip(1), c.skip(1));
    }
}

/// True if some entry of the queue has this key.
pub open spec fn queued(queue: Seq<DeferredView>, key: Seq<u8>) -> bool {
    exists|i: int| 0 <= i < queue.len() && (#[trigger] queue[i]).key == key
}

/// True if the keys of the queue come each before the next.
pub open spec fn ascending(queue: Seq<DeferredView>) -> bool {
    forall|i: int, j: int|
        0 <= i < j < queue.len() ==> key_lt((#[trigger] queue[i]).key, (#[trigger] queue[j]).key)
}

/// True if the queue lists the entries of `index`, each once, in the order of
/// the index.
pub open spec fn lists(queue: Seq<DeferredView>, index: Map<Seq<u8>, DatAddr>) -> bool {
    &&& forall|i: int|
        0 <= i < queue.len() ==> index.contains_key((#[trigger] queue[i]).key)
            && index[queue[i].key] == queue[i].addr
    &&& forall|k: Seq<u8>| #[trigger] index.contains_key(k) ==> queued(queue, k)
    &&& ascending(queue)
}

/// How the making of a loader is followed through an exchange.
pub open spec fn drain_next() -> spec_fn(DrainView, ReplyView) -> StepView<DrainView, LoaderView> {
    |s: DrainView, r: ReplyView| s.next(r)
}

/// What holds while a loader is made on a store that was `st0`.
pub open spec fn drain_inv(
    step: StepView<DrainView, LoaderView>,
    st: Store,
    idx: IdxFile,
    dat: DatFile,
    st0: Store,
) -> bool {
    match step {
        StepView::Done(Ok(loader)) => {
            &&& st == emptied(st0)
            &&& loader == LoaderView { idx, dat, deferred: loader.deferred, first: true }
            &&& lists(loader.deferred, st0.index)
        },
        StepView::Done(Err(_)) => true,
        StepView::Ask(s, call) => {
            let d = s.deferred;
            &&& st == Store { index: st.index, ..st0 }
            &&& st.keyno == idx.0
            &&& s.idx == idx
            &&& s.dat == dat
            &&& forall|i: int|
                0 <= i < d.len() ==> st0.index.contains_key((#[trigger] d[i]).key)
                    && st0.index[d[i].key] == d[i].addr && !st.index.contains_key(d[i].key)
            &&& forall|k: Seq<u8>| #[trigger]
                st0.index.contains_key(k) ==> st.index.contains_key(k) || queued(d, k)
            &&& forall|k: Seq<u8>| #[trigger]
                st.index.contains_key(k) ==> st0.index.contains_key(k) && st.index[k]
                    == st0.index[k]
            &&& forall|i: int, k: Seq<u8>|
                #![trigger d[i], st.index.contains_key(k)]
                0 <= i < d.len() && st.index.contains_key(k) ==> key_lt(d[i].key, k)
            &&& ascending(d)
            &&& match s.found {
                None => call == CallView::FirstKey { keyno: idx.0, keylen: idx.1 },
                Some(e) => {
                    &&& call == CallView::DeleteKey { keyno: idx.0, key: e.key, recbyt: e.addr }
                    &&& st.index.contains_key(e.key)
                    &&& st.index[e.key] == e.addr
                    &&& forall|k: Seq<u8>| #[trigger]
                        st.index.contains_key(k) ==> k == e.key || key_lt(e.key, k)
                },
            }
        },
    }
}

/// Whatever the store answers, the making of a loader stays within its
/// invariant.
proof fn lemma_drain_step(
    s: DrainView,
    call: CallView,
    st: Store,
    idx: IdxFile,
    dat: DatFile,
    st0: Store,
    reply: ReplyView,
    post: Store,
)
    requires
        drain_inv(StepView::Ask(s, call), st, idx, dat, st0),
        answers(st, call, reply, post),
    ensures
        drain_inv(s.next(reply), post, idx, dat, st0),
{
    let d = s.deferred;
    match s.next(reply) {
        StepView::Done(Ok(loader)) => {
            assert(post.index =~= Map::empty());
            assert forall|k: Seq<u8>| #[trigger] st0.index.contains_key(k) implies queued(d, k) by {
                assert(!st.index.contains_key(k));
            }
        },
        StepView::Done(Err(_)) => {},
        StepView::Ask(s2, call2) => {
            match s.found {
                None => {},
                Some(e) => {
                    let d2 = d.push(e);
                    assert(s2.deferred == d2);
                    assert(post.index == st.index.remove(e.key));
                    assert forall|k: Seq<u8>| #[trigger] st0.index.contains_key(k) implies (
                    post.index.contains_key(k) || queued(d2, k)) by {
                        if k == e.key {
                            assert(d2[d.len() as int].key == k);
                        } else if queued(d, k) {
                            let i = choose|i: int| 0 <= i < d.len() && (#[trigger] d[i]).key == k;
                            assert(d2[i].key == k);
                        }
                    }
                    assert forall|i: int, j: int| 0 <= i < j < d2.len() implies key_lt(
                        (#[trigger] d2[i]).key,
                        (#[trigger] d2[j]).key,
                    ) by {
                        if j == d.len() {
                            assert(d2[i] == d[i]);
                        } else {
                            assert(d2[i] == d[i] && d2[j] == d[j]);
                        }
                    }
                    assert forall|i: int, k: Seq<u8>|
                        #![trigger d2[i], post.index.contains_key(k)]
                        0 <= i < d2.len() && post.index.contains_key(k) implies key_lt(
                        d2[i].key,
                        k,
                    ) by {
                        assert(st.index.contains_key(k));
                        if i < d.len() {
                            assert(d2[i] == d[i]);
                        }
                    }
                    assert forall|i: int| 0 <= i < d2.len() implies st0.index.contains_key(
                        (#[trigger] d2[i]).key,
                    ) && st0.index[d2[i].key] == d2[i].addr && !post.index.contains_key(
                        d2[i].key,
                    ) by {
                        if i < d.len() {
                            assert(d2[i] == d[i]);
                        }
                    }
                },
            }
        },
    }
}

/// An exchange that begins within the invariant and ends in success ends
/// with the index empty and all its entries in the queue.
proof fn lemma_drain_runs(
    step: StepView<DrainView, LoaderView>,
    st: Store,
    idx: IdxFile,
    dat: DatFile,
    st0: Store,
    trace: Seq<Turn>,
)
    requires
        drain_inv(step, st, idx, dat, st0),
        runs(drain_next(), step, st, trace) matches Some((Ok(_), _)),
    ensures
        drain_inv(
            StepView::Done(Ok(runs(drain_next(), step, st, trace)->Some_0.0->Ok_0)),
            runs(drain_next(), step, st, trace)->Some_0.1,
            idx,
            dat,
            st0,
        ),
    decreases trace.len(),
{
    match step {
        StepView::Done(_) => {},
        StepView::Ask(s, call) => {
            lemma_drain_step(s, call, st, idx, dat, st0, trace[0].reply, trace[0].store);
            lemma_drain_runs(
                s.next(trace[0].reply),
                trace[0].store,
                idx,
                dat,
                st0,
                trace.skip(1),
            );
        },
    }
}

/// Draining. Making a loader takes every entry out of the index at once: when
/// the loader is made the index is empty, no record has changed, and the
/// loader's queue lists the entries that the index had, in the order of the
/// index.
pub proof fn law_making_drains_the_index(idx: IdxFile, dat: DatFile, st: Store, trace: Seq<Turn>)
    requires
        st.keyno == idx.0,
        runs(drain_next(), drain_start(idx, dat), st, trace) matches Some((Ok(_), _)),
    ensures
        ({
            let end = runs(drain_next(), drain_start(idx, dat), st, trace)->Some_0;
            let loader = end.0->Ok_0;
            &&& end.1 == emptied(st)
            &&& loader == LoaderView { idx, dat, deferred: loader.deferred, first: true }
            &&& lists(loader.deferred, st.index)
        }),
{
    lemma_drain_runs(drain_start(idx, dat), st, idx, dat, st, trace);
}

/// How a load is followed through an exchange.
pub open spec fn load_next() -> spec_fn(LoadView, ReplyView) -> StepView<LoadView, LoadedView> {
    |s: LoadView, r: ReplyView| s.next(r)
}

/// True if `post` is what a load of `data` under `key` that ended as `end`
/// makes of the store `pre`: the payload stands in a record that was not in
/// use before, and the index has the key, leading to that record, exactly if
/// the load ended in order.
pub open spec fn loaded(
    pre: Store,
    first: bool,
    key: Seq<u8>,
    data: Seq<u8>,
    end: LoadedView,
    post: Store,
) -> bool {
    match end {
        LoadedView::InOrder => {
            let addr = post.index[key];
            &&& pre.in_order(key, first)
            &&& addr != DatAddr(0)
            &&& !pre.records.contains_key(addr)
            &&& post == Store {
                index: pre.index.insert(key, addr),
                records: pre.records.insert(addr, data),
                last: Some(key),
                ..pre
            }
        },
        LoadedView::Deferred(e) => {
            &&& !pre.in_order(key, first)
            &&& e.key == key
            &&& e.addr != DatAddr(0)
            &&& !pre.records.contains_key(e.addr)
            &&& post == Store { records: pre.records.insert(e.addr, data), ..pre }
        },
    }
}

/// What holds while `data` is loaded under `key` into a store that was `pre`.
pub open spec fn load_inv(
    step: StepView<LoadView, LoadedView>,
    st: Store,
    loader: LoaderView,
    key: Seq<u8>,
    data: Seq<u8>,
    pre: Store,
) -> bool {
    match step {
        StepView::Done(Ok(end)) => loaded(pre, loader.first, key, data, end, st) && key.len()
            == loader.idx.1,
        StepView::Done(Err(_)) => true,
        StepView::Ask(s, call) => {
            &&& loader.load(key, data) is Ask
            &&& s == LoadView { phase: s.phase, addr: s.addr, ..loader.load(key, data)->Ask_0 }
            &&& pre.keyno == loader.idx.0
            &&& pre.datno == loader.dat.0
            &&& match s.phase {
                LoadPhase::Alloc => step == loader.load(key, data) && st == pre,
                LoadPhase::Exhausted => true,
                LoadPhase::Write => {
                    &&& call == CallView::WriteVData {
                        datno: s.dat.0,
                        recbyt: s.addr,
                        data: s.data,
                    }
                    &&& s.addr != DatAddr(0)
                    &&& !pre.records.contains_key(s.addr)
                    &&& st == Store {
                        records: pre.records.insert(s.addr, st.records[s.addr]),
                        ..pre
                    }
                },
                LoadPhase::Offer => {
                    &&& call == CallView::LoadKey {
                        keyno: s.idx.0,
                        key: s.key,
                        recbyt: s.addr,
                        first: s.first,
                    }
                    &&& s.key.len() == s.idx.1
                    &&& s.addr != DatAddr(0)
                    &&& !pre.records.contains_key(s.addr)
                    &&& st == Store { records: pre.records.insert(s.addr, data), ..pre }
                },
            }
        },
    }
}

proof fn lemma_load_step(
    s: LoadView,
    call: CallView,
    st: Store,
    loader: LoaderView,
    key: Seq<u8>,
    data: Seq<u8>,
    pre: Store,
    reply: ReplyView,
    post: Store,
)
    requires
        load_inv(StepView::Ask(s, call), st, loader, key, data, pre),
        answers(st, call, reply, post),
    ensures
        load_inv(s.next(reply), post, loader, key, data, pre),
{
    match s.next(reply) {
        StepView::Done(Err(_)) => {},
        _ => {
            match s.phase {
                LoadPhase::Write => {
                    assert(post.records =~= pre.records.insert(s.addr, data));
                },
                LoadPhase::Offer => {
                    if reply == ReplyView::Status(0) {
                        assert(post.index[key] == s.addr);
                    }
                },
                _ => {},
            }
        },
    }
}

proof fn lemma_load_runs(
    step: StepView<LoadView, LoadedView>,
    st: Store,
    loader: LoaderView,
    key: Seq<u8>,
    data: Seq<u8>,
    pre: Store,
    trace: Seq<Turn>,
)
    requires
        load_inv(step, st, loader, key, data, pre),
        runs(load_next(), step, st, trace) matches Some((Ok(_), _)),
    ensures
        loaded(
            pre,
            loader.first,
            key,
            data,
            runs(load_next(), step, st, trace)->Some_0.0->Ok_0,
            runs(load_next(), step, st, trace)->Some_0.1,
        ),
        key.len() == loader.idx.1,
    decreases trace.len(),
{
    match step {
        StepView::Done(_) => {},
        StepView::Ask(s, call) => {
            lemma_load_step(s, call, st, loader, key, data, pre, trace[0].reply, trace[0].store);
            lemma_load_runs(
                s.next(trace[0].reply),
                trace[0].store,
                loader,
                key,
                data,
                pre,
                trace.skip(1),
            );
        },
    }
}

/// Loading. A load that succeeds has written the payload to a record that
/// was not in use before. It ended in order exactly if the key could go
/// through the fast path: it was the session's first, or came after the key
/// that the fast path took last; the index then has the key. Otherwise the
/// load ended deferred, with the key and the record in its entry, and the
/// index is as it was.
pub proof fn law_load(loader: LoaderView, key: Seq<u8>, data: Seq<u8>, st: Store, trace: Seq<Turn>)
    requires
        st.keyno == loader.idx.0,
        st.datno == loader.dat.0,
        runs(load_next(), loader.load(key, data), st, trace) matches Some((Ok(_), _)),
    ensures
        ({
            let end = runs(load_next(), loader.load(key, data), st, trace)->Some_0;
            &&& loaded(st, loader.first, key, data, end.0->Ok_0, end.1)
            &&& end.0->Ok_0 is InOrder <==> st.in_order(key, loader.first)
            &&& key.len() == loader.idx.1
        }),
{
    lemma_load_runs(loader.load(key, data), st, loader, key, data, st, trace);
}

/// The payloads that the entries of a queue stand for, in a store with these
/// records.
pub open spec fn puts_of(queue: Seq<DeferredView>, records: Map<DatAddr, Seq<u8>>) -> Seq<Put> {
    Seq::new(queue.len(), |j: int| Put { key: queue[j].key, data: records[queue[j].addr] })
}

/// The records of the entries from the `from`th on, as `records` has them.
pub open spec fn waiting(
    queue: Seq<DeferredView>,
    records: Map<DatAddr, Seq<u8>>,
    from: int,
) -> Map<DatAddr, Seq<u8>> {
    Map::new(
        |a: DatAddr| exists|j: int| from <= j < queue.len() && (#[trigger] queue[j]).addr == a,
        |a: DatAddr| records[a],
    )
}

/// True if no two entries of the queue name the same record.
pub open spec fn apart(queue: Seq<DeferredView>) -> bool {
    forall|i: int, j: int|
        0 <= i < j < queue.len() ==> (#[trigger] queue[i]).addr != (#[trigger] queue[j]).addr
}

/// How a finish is followed through an exchange.
pub open spec fn finish_next() -> spec_fn(FinishView, ReplyView) -> StepView<FinishView, ()> {
    |s: FinishView, r: ReplyView| s.next(r)
}

/// What holds while a queue is inserted into a store that was `st0`.
pub open spec fn finish_inv(
    step: StepView<FinishView, ()>,
    st: Store,
    idx: IdxFile,
    dat: DatFile,
    queue: Seq<DeferredView>,
    st0: Store,
) -> bool {
    let puts = puts_of(queue, st0.records);
    match step {
        StepView::Done(Ok(_)) => st.serves(idx, dat) && st.contents() == merge_all(
            st0.contents(),
            puts,
        ),
        StepView::Done(Err(_)) => true,
        StepView::Ask(s, call) => {
            &&& s.idx == idx
            &&& s.dat == dat
            &&& s.queue == queue
            &&& s.at <= queue.len()
            &&& apart(queue)
            &&& match s.current {
                None => {
                    &&& s.at == 0
                    &&& call is EndLoad
                    &&& call->EndLoad_keyno == idx.0
                    &&& st.serves(idx, dat)
                    &&& st.parks(waiting(queue, st0.records, 0))
                    &&& st.contents() == st0.contents()
                },
                Some(ins) => insert_inv(
                    StepView::Ask(ins, call),
                    st,
                    idx,
                    dat,
                    waiting(queue, st0.records, s.at as int),
                    merge_all(st0.contents(), puts.take(s.at as int)),
                ),
            }
        },
    }
}

/// Taking up the next entry keeps the finish within its invariant.
proof fn lemma_replay(s: FinishView, st: Store, st0: Store)
    requires
        s.at <= s.queue.len(),
        apart(s.queue),
        st.serves(s.idx, s.dat),
        st.parks(waiting(s.queue, st0.records, s.at as int)),
        st.contents() == merge_all(
            st0.contents(),
            puts_of(s.queue, st0.records).take(s.at as int),
        ),
    ensures
        finish_inv(s.replay(), st, s.idx, s.dat, s.queue, st0),
{
    let puts = puts_of(s.queue, st0.records);
    let at = s.at as int;
    if at >= s.queue.len() {
        assert(puts.take(at) =~= puts);
    } else {
        let e = s.queue[at];
        let later = waiting(s.queue, st0.records, at + 1);
        assert(waiting(s.queue, st0.records, at).contains_key(e.addr));
        assert forall|a: DatAddr| #[trigger] later.contains_key(a) implies st.records.contains_key(
            a,
        ) && st.records[a] == later[a] && st.unlinked(a) by {
            assert(waiting(s.queue, st0.records, at).contains_key(a));
        }
        assert(!later.contains_key(e.addr));
        lemma_relink_start(s.idx, s.dat, e.key, e.addr, st, later);
        assert(puts.take(at + 1) =~= puts.take(at) + seq![puts[at]]);
        lemma_merge_all_push(st0.contents(), puts.take(at), puts[at]);
    }
}

proof fn lemma_finish_step(
    s: FinishView,
    call: CallView,
    st: Store,
    idx: IdxFile,
    dat: DatFile,
    queue: Seq<DeferredView>,
    st0: Store,
    reply: ReplyView,
    post: Store,
)
    requires
        finish_inv(StepView::Ask(s, call), st, idx, dat, queue, st0),
        answers(st, call, reply, post),
    ensures
        finish_inv(s.next(reply), post, idx, dat, queue, st0),
{
    let puts = puts_of(queue, st0.records);
    match s.current {
        None => {
            if reply == ReplyView::Status(0) {
                assert(post.contents() =~= st.contents());
                assert(puts.take(0) =~= Seq::<Put>::empty());
                lemma_merge_all_push(st0.contents(), Seq::empty(), puts[0]);
                lemma_replay(s, post, st0);
            }
        },
        Some(ins) => {
            let kept = waiting(queue, st0.records, s.at as int);
            let goal = merge_all(st0.contents(), puts.take(s.at as int));
            lemma_insert_step(ins, call, st, idx, dat, kept, goal, reply, post);
            match ins.next(reply) {
                StepView::Done(Ok(_)) => {
                    lemma_replay(s, post, st0);
                },
                _ => {},
            }
        },
    }
}

proof fn lemma_finish_runs(
    step: StepView<FinishView, ()>,
    st: Store,
    idx: IdxFile,
    dat: DatFile,
    queue: Seq<DeferredView>,
    st0: Store,
    trace: Seq<Turn>,
)
    requires
        finish_inv(step, st, idx, dat, queue, st0),
        runs(finish_next(), step, st, trace) matches Some((Ok(_), _)),
    ensures
        runs(finish_next(), step, st, trace)->Some_0.1.serves(idx, dat),
        runs(finish_next(), step, st, trace)->Some_0.1.contents() == merge_all(
            st0.contents(),
            puts_of(queue, st0.records),
        ),
    decreases trace.len(),
{
    match step {
        StepView::Done(_) => {},
        StepView::Ask(s, call) => {
            lemma_finish_step(s, call, st, idx, dat, queue, st0, trace[0].reply, trace[0].store);
            lemma_finish_runs(
                s.next(trace[0].reply),
                trace[0].store,
                idx,
                dat,
                queue,
                st0,
                trace.skip(1),
            );
        },
    }
}

/// Finishing. Once a loader is finished, the store holds what it held when
/// the finish began, with the payload of each entry of the queue put behind
/// what the entry's key held by then, oldest entry first.
pub proof fn law_finish_inserts_the_queue(loader: LoaderView, st: Store, trace: Seq<Turn>)
    requires
        st.serves(loader.idx, loader.dat),
        st.parks(waiting(loader.deferred, st.records, 0)),
        apart(loader.deferred),
        runs(finish_next(), loader.finish(), st, trace) matches Some((Ok(_), _)),
    ensures
        ({
            let end = runs(finish_next(), loader.finish(), st, trace)->Some_0.1;
            &&& end.serves(loader.idx, loader.dat)
            &&& end.contents() == merge_all(st.contents(), puts_of(loader.deferred, st.records))
        }),
{
    lemma_finish_runs(loader.finish(), st, loader.idx, loader.dat, loader.deferred, st, trace);
}

/// Follows the loads of `puts`, one after the other, each through its own
/// exchange with the store, the loader taking note of each end. The result is
/// the loader and the store at the end if each exchange is whole and each
/// load succeeds; otherwise it is `None`.
pub open spec fn loads(
    loader: LoaderView,
    puts: Seq<Put>,
    st: Store,
    traces: Seq<Seq<Turn>>,
) -> Option<(LoaderView, Store)>
    decreases puts.len(),
{
    if traces.len() != puts.len() {
        None
    } else if puts.len() == 0 {
        Some((loader, st))
    } else {
        match loads(loader, puts.drop_last(), st, traces.drop_last()) {
            Some((mid_loader, mid)) => match runs(
                load_next(),
                mid_loader.load(puts.last().key, puts.last().data),
                mid,
                traces.last(),
            ) {
                Some((Ok(end), post)) => Some((mid_loader.settled(end), post)),
                _ => None,
            },
            None => None,
        }
    }
}

/// Which of `puts` the fast path takes and which it refuses, each in the
/// order of `puts`: it takes a put if it has taken none yet, or if the put's
/// key comes after the key it took last.
pub struct Plan {
    pub fast: Seq<Put>,
    pub late: Seq<Put>,
}

pub open spec fn plan(puts: Seq<Put>) -> Plan
    decreases puts.len(),
{
    if puts.len() == 0 {
        Plan { fast: Seq::empty(), late: Seq::empty() }
    } else {
        let before = plan(puts.drop_last());
        if before.fast.len() == 0 || key_lt(before.fast.last().key, puts.last().key) {
            Plan { fast: before.fast.push(puts.last()), ..before }
        } else {
            Plan { late: before.late.push(puts.last()), ..before }
        }
    }
}

/// What holds of a loader and the store after it has loaded `puts`, if it
/// was the loader `l0` on the store `s0` before.
pub open spec fn loads_inv(l0: LoaderView, s0: Store, puts: Seq<Put>, l: LoaderView, s: Store) -> bool {
    let p = plan(puts);
    &&& l == LoaderView { deferred: l.deferred, first: p.fast.len() == 0, ..l0 }
    &&& s.serves(l0.idx, l0.dat)
    &&& s.contents() == merge_all(Map::empty(), p.fast)
    &&& p.fast.len() > 0 ==> s.last == Some(p.fast.last().key)
    &&& forall|k: Seq<u8>| #[trigger]
        s.index.contains_key(k) ==> p.fast.len() > 0 && (k == p.fast.last().key || key_lt(
            k,
            p.fast.last().key,
        ))
    &&& puts_of(l.deferred, s.records) == puts_of(l0.deferred, s0.records) + p.late
    &&& apart(l.deferred)
    &&& s.parks(waiting(l.deferred, s.records, 0))
}

proof fn lemma_loads(
    l0: LoaderView,
    s0: Store,
    puts: Seq<Put>,
    traces: Seq<Seq<Turn>>,
)
    requires
        l0.first,
        s0.serves(l0.idx, l0.dat),
        forall|k: Seq<u8>| !s0.index.contains_key(k),
        apart(l0.deferred),
        s0.parks(waiting(l0.deferred, s0.records, 0)),
        loads(l0, puts, s0, traces) is Some,
    ensures
        loads_inv(l0, s0, puts, loads(l0, puts, s0, traces)->Some_0.0, loads(
            l0,
            puts,
            s0,
            traces,
        )->Some_0.1),
    decreases puts.len(),
{
    if puts.len() == 0 {
        assert(s0.contents() =~= Map::empty());
        assert(puts_of(l0.deferred, s0.records) + Seq::<Put>::empty() =~= puts_of(
            l0.deferred,
            s0.records,
        ));
    } else {
        lemma_loads(l0, s0, puts.drop_last(), traces.drop_last());
        let mid = loads(l0, puts.drop_last(), s0, traces.drop_last())->Some_0;
        let l = mid.0;
        let s = mid.1;
        let x = puts.last();
        law_load(l, x.key, x.data, s, traces.last());
        let out = runs(load_next(), l.load(x.key, x.data), s, traces.last())->Some_0;
        let end = out.0->Ok_0;
        let post = out.1;
        let before = plan(puts.drop_last());
        let d = l.deferred;
        match end {
            LoadedView::InOrder => {
                let addr = post.index[x.key];
                if before.fast.len() > 0 {
                    let last = before.fast.last().key;
                    lemma_key_lt_asymmetric(last, x.key);
                    if s.index.contains_key(x.key) && x.key != last {
                        lemma_key_lt_asymmetric(x.key, last);
                    }
                    assert forall|k: Seq<u8>| #[trigger] s.index.contains_key(k) implies key_lt(
                        k,
                        x.key,
                    ) by {
                        if k != last {
                            lemma_key_lt_transitive(k, last, x.key);
                        }
                    }
                }
                assert(!s.index.contains_key(x.key));
                assert(post.contents() =~= merge(s.contents(), x.key, x.data));
                lemma_merge_all_push(Map::empty(), before.fast, x);
                assert(before.fast.push(x) =~= before.fast + seq![x]);
                assert(puts_of(d, post.records) =~= puts_of(d, s.records)) by {
                    assert forall|j: int| 0 <= j < d.len() implies post.records[d[j].addr]
                        == s.records[d[j].addr] by {
                        assert(waiting(d, s.records, 0).contains_key(d[j].addr));
                    }
                }
                assert forall|a: DatAddr| #[trigger]
                    waiting(d, post.records, 0).contains_key(a) implies post.records.contains_key(
                    a,
                ) && post.records[a] == waiting(d, post.records, 0)[a] && post.unlinked(a) by {
                    assert(waiting(d, s.records, 0).contains_key(a));
                }
            },
            LoadedView::Deferred(e) => {
                let d2 = d.push(e);
                assert(post.contents() =~= s.contents());
                assert forall|j: int| 0 <= j < d.len() implies post.records[d[j].addr]
                    == s.records[d[j].addr] && d[j].addr != e.addr by {
                    assert(waiting(d, s.records, 0).contains_key(d[j].addr));
                }
                assert(puts_of(d2, post.records) =~= puts_of(d, s.records).push(x));
                assert(before.late.push(x) =~= before.late + seq![x]);
                assert(puts_of(d, s.records).push(x) =~= puts_of(l0.deferred, s0.records) + (
                before.late + seq![x]));
                assert forall|i: int, j: int| 0 <= i < j < d2.len() implies (#[trigger] d2[i]).addr
                    != (#[trigger] d2[j]).addr by {
                    if j < d.len() {
                        assert(d2[i] == d[i] && d2[j] == d[j]);
                    } else {
                        assert(d2[i] == d[i]);
                    }
                }
                assert forall|a: DatAddr| #[trigger]
                    waiting(d2, post.records, 0).contains_key(a) implies post.records.contains_key(
                    a,
                ) && post.records[a] == waiting(d2, post.records, 0)[a] && post.unlinked(a) by {
                    let j = choose|j: int| 0 <= j < d2.len() && (#[trigger] d2[j]).addr == a;
                    if j < d.len() {
                        assert(d2[j] == d[j]);
                        assert(waiting(d, s.records, 0).contains_key(a));
                    }
                }
            },
        }
    }
}

/// A loader's whole life, through its exchanges with the store: it is made,
/// loads `puts` in order, and is finished. The result is the store at the
/// end if every exchange is whole and everything succeeds; otherwise it is
/// `None`.
pub open spec fn whole_life(
    idx: IdxFile,
    dat: DatFile,
    puts: Seq<Put>,
    st: Store,
    making: Seq<Turn>,
    loading: Seq<Seq<Turn>>,
    finishing: Seq<Turn>,
) -> Option<Store> {
    match runs(drain_next(), drain_start(idx, dat), st, making) {
        Some((Ok(made), emptied)) => match loads(made, puts, emptied, loading) {
            Some((loader, filled)) => match runs(
                finish_next(),
                loader.finish(),
                filled,
                finishing,
            ) {
                Some((Ok(_), end)) => Some(end),
                _ => None,
            },
            None => None,
        },
        _ => None,
    }
}

/// The entries that the index of `st` has, in its order, each with its
/// payload: what making a loader on `st` queues.
pub open spec fn drained(idx: IdxFile, dat: DatFile, st: Store, making: Seq<Turn>) -> Seq<Put> {
    puts_of(runs(drain_next(), drain_start(idx, dat), st, making)->Some_0.0->Ok_0.deferred, st.records)
}

/// The store with nothing in its index.
pub open spec fn emptied(st: Store) -> Store {
    Store { index: Map::empty(), ..st }
}

/// A queue that lists the entries of a well-formed store names no record
/// twice, and the store, its index emptied, keeps the records of the queue.
proof fn lemma_listed_queue(queue: Seq<DeferredView>, st: Store)
    requires
        st.wf(),
        lists(queue, st.index),
    ensures
        apart(queue),
        emptied(st).parks(waiting(queue, st.records, 0)),
        emptied(st).wf(),
{
    assert forall|i: int, j: int| 0 <= i < j < queue.len() implies (#[trigger] queue[i]).addr != (
    #[trigger] queue[j]).addr by {
        lemma_key_lt_asymmetric(queue[i].key, queue[j].key);
    }
}

/// A loader's whole life. When a loader has been made on a store, has loaded
/// `puts` and has been finished, the store holds, each behind what its key
/// held by then: first the puts that the fast path took, then what the index
/// held before the loader was made, in the order of the index, then the puts
/// that the fast path refused.
///
/// The fast path refuses exactly the puts of `plan(puts).late`: those whose
/// key does not come after the key it took last. With the entries drained
/// from the index they make up the queue at the finish.
pub proof fn law_whole_life(
    idx: IdxFile,
    dat: DatFile,
    puts: Seq<Put>,
    st: Store,
    making: Seq<Turn>,
    loading: Seq<Seq<Turn>>,
    finishing: Seq<Turn>,
)
    requires
        st.serves(idx, dat),
        whole_life(idx, dat, puts, st, making, loading, finishing) is Some,
    ensures
        ({
            let made = runs(drain_next(), drain_start(idx, dat), st, making)->Some_0;
            let filled = loads(made.0->Ok_0, puts, made.1, loading)->Some_0;
            let end = whole_life(idx, dat, puts, st, making, loading, finishing)->Some_0;
            &&& lists(made.0->Ok_0.deferred, st.index)
            &&& filled.0.deferred.len() == made.0->Ok_0.deferred.len() + plan(puts).late.len()
            &&& puts_of(filled.0.deferred, filled.1.records) == drained(idx, dat, st, making)
                + plan(puts).late
            &&& end.serves(idx, dat)
            &&& end.contents() == merge_all(
                Map::empty(),
                plan(puts).fast + drained(idx, dat, st, making) + plan(puts).late,
            )
        }),
{
    law_making_drains_the_index(idx, dat, st, making);
    let made = runs(drain_next(), drain_start(idx, dat), st, making)->Some_0;
    let l0 = made.0->Ok_0;
    let s0 = made.1;
    lemma_listed_queue(l0.deferred, st);
    assert(s0.records == st.records);
    lemma_loads(l0, s0, puts, loading);
    let filled = loads(l0, puts, s0, loading)->Some_0;
    law_finish_inserts_the_queue(filled.0, filled.1, finishing);
    let p = plan(puts);
    lemma_merge_all_concat(Map::empty(), p.fast, drained(idx, dat, st, making) + p.late);
    assert(p.fast + (drained(idx, dat, st, making) + p.late) =~= p.fast + drained(
        idx,
        dat,
        st,
        making,
    ) + p.late);
    assert(puts_of(filled.0.deferred, filled.1.records).len() == filled.0.deferred.len());
    assert(drained(idx, dat, st, making).len() == l0.deferred.len());
}

/// True if the keys of `puts` come each before the next.
pub open spec fn in_key_order(puts: Seq<Put>) -> bool {
    forall|i: int, j: int|
        0 <= i < j < puts.len() ==> key_lt((#[trigger] puts[i]).key, (#[trigger] puts[j]).key)
}

/// Keys in ascending order all take the fast path: none is refused.
pub proof fn law_keys_in_order_take_the_fast_path(puts: Seq<Put>)
    requires
        in_key_order(puts),
    ensures
        plan(puts).fast == puts,
        plan(puts).late.len() == 0,
    decreases puts.len(),
{
    if puts.len() > 0 {
        let before = puts.drop_last();
        assert forall|i: int, j: int| 0 <= i < j < before.len() implies key_lt(
            (#[trigger] before[i]).key,
            (#[trigger] before[j]).key,
        ) by {
            assert(before[i] == puts[i] && before[j] == puts[j]);
        }
        law_keys_in_order_take_the_fast_path(before);
        if before.len() > 0 {
            assert(before.last() == puts[before.len() - 1]);
            assert(key_lt(puts[before.len() - 1].key, puts[puts.len() - 1].key));
        }
        assert(before.push(puts.last()) =~= puts);
    } else {
        assert(plan(puts).fast =~= puts);
    }
}

/// What the fast path refused does not come after the key it took last.
proof fn lemma_plan_late(puts: Seq<Put>)
    ensures
        plan(puts).late.len() > 0 ==> plan(puts).fast.len() > 0,
        forall|j: int|
            0 <= j < plan(puts).late.len() ==> !key_lt(
                plan(puts).fast.last().key,
                (#[trigger] plan(puts).late[j]).key,
            ),
    decreases puts.len(),
{
    if puts.len() > 0 {
        lemma_plan_late(puts.drop_last());
        let b = plan(puts.drop_last());
        let x = puts.last();
        let p = plan(puts);
        if b.fast.len() == 0 || key_lt(b.fast.last().key, x.key) {
            assert forall|j: int| 0 <= j < p.late.len() implies !key_lt(
                p.fast.last().key,
                (#[trigger] p.late[j]).key,
            ) by {
                if key_lt(x.key, p.late[j].key) {
                    lemma_key_lt_transitive(b.fast.last().key, x.key, b.late[j].key);
                }
            }
        } else {
            assert forall|j: int| 0 <= j < p.late.len() implies !key_lt(
                p.fast.last().key,
                (#[trigger] p.late[j]).key,
            ) by {
                if j < b.late.len() {
                    assert(p.late[j] == b.late[j]);
                }
            }
        }
    }
}

/// Puts of which none goes under `key` have no payload for it.
proof fn lemma_no_payloads(puts: Seq<Put>, key: Seq<u8>)
    requires
        forall|j: int| 0 <= j < puts.len() ==> (#[trigger] puts[j]).key != key,
    ensures
        payloads_for(puts, key) == Seq::<u8>::empty(),
    decreases puts.len(),
{
    if puts.len() > 0 {
        assert forall|j: int| 0 <= j < puts.drop_last().len() implies (
        #[trigger] puts.drop_last()[j]).key != key by {
            assert(puts.drop_last()[j] == puts[j]);
        }
        lemma_no_payloads(puts.drop_last(), key);
    }
}

/// Under each key the fast path took its put, if any, before it refused one:
/// what it took and then what it refused are the key's payloads in the order
/// in which they came.
pub proof fn lemma_plan_order(puts: Seq<Put>, key: Seq<u8>)
    ensures
        payloads_for(plan(puts).fast, key) + payloads_for(plan(puts).late, key) == payloads_for(
            puts,
            key,
        ),
    decreases puts.len(),
{
    if puts.len() == 0 {
        assert(Seq::<u8>::empty() + Seq::<u8>::empty() =~= Seq::<u8>::empty());
    } else {
        lemma_plan_order(puts.drop_last(), key);
        lemma_plan_late(puts.drop_last());
        let b = plan(puts.drop_last());
        let x = puts.last();
        let f = payloads_for(b.fast, key);
        let l = payloads_for(b.late, key);
        if b.fast.len() == 0 || key_lt(b.fast.last().key, x.key) {
            assert(b.fast.push(x).drop_last() =~= b.fast);
            if x.key == key {
                assert forall|j: int| 0 <= j < b.late.len() implies (#[trigger] b.late[j]).key
                    != key by {}
                lemma_no_payloads(b.late, key);
                assert(f + x.data + l =~= f + l + x.data);
            }
        } else {
            assert(b.late.push(x).drop_last() =~= b.late);
            if x.key == key {
                assert(f + (l + x.data) =~= f + l + x.data);
            }
        }
    }
}

/// The payloads that a queue in the order of the index has for a key: the
/// payload of the entry with that key, if there is one.
proof fn lemma_queue_payloads(
    queue: Seq<DeferredView>,
    records: Map<DatAddr, Seq<u8>>,
    key: Seq<u8>,
)
    requires
        ascending(queue),
    ensures
        !queued(queue, key) ==> payloads_for(puts_of(queue, records), key) == Seq::<u8>::empty(),
        forall|i: int|
            0 <= i < queue.len() && (#[trigger] queue[i]).key == key ==> payloads_for(
                puts_of(queue, records),
                key,
            ) == records[queue[i].addr],
    decreases queue.len(),
{
    if queue.len() > 0 {
        let before = queue.drop_last();
        let n = before.len() as int;
        assert forall|i: int, j: int| 0 <= i < j < before.len() implies key_lt(
            (#[trigger] before[i]).key,
            (#[trigger] before[j]).key,
        ) by {
            assert(before[i] == queue[i] && before[j] == queue[j]);
        }
        lemma_queue_payloads(before, records, key);
        assert(puts_of(queue, records).drop_last() =~= puts_of(before, records));
        let last = puts_of(queue, records).last();
        assert(last == Put { key: queue[n].key, data: records[queue[n].addr] });
        if queue[n].key == key {
            assert forall|i: int| 0 <= i < n implies (#[trigger] before[i]).key != key by {
                assert(before[i] == queue[i]);
                lemma_key_lt_asymmetric(queue[i].key, queue[n].key);
            }
            assert(!queued(before, key));
            assert(Seq::<u8>::empty() + last.data =~= last.data);
            assert forall|i: int| 0 <= i < queue.len() && (#[trigger] queue[i]).key
                == key implies payloads_for(puts_of(queue, records), key)
                == records[queue[i].addr] by {
                if i < n {
                    assert(before[i] == queue[i]);
                }
            }
        } else {
            if queued(before, key) {
                let i = choose|i: int| 0 <= i < before.len() && (#[trigger] before[i]).key == key;
                assert(queue[i].key == key);
            }
            assert forall|i: int| 0 <= i < queue.len() && (#[trigger] queue[i]).key
                == key implies payloads_for(puts_of(queue, records), key)
                == records[queue[i].addr] by {
                assert(before[i] == queue[i]);
            }
        }
    }
}

/// No payload is lost, and each key's payloads stay in order. After a
/// loader's whole life each key holds: the payload that the fast path took
/// for it, if any; then what the key held before the loader was made; then
/// the payloads that the fast path refused for it, in the order in which
/// they came. A key that held nothing before so holds all that was loaded
/// under it, in the order in which it came; and every key that something was
/// loaded under is held.
pub proof fn law_loader_keeps_every_payload(
    idx: IdxFile,
    dat: DatFile,
    puts: Seq<Put>,
    st: Store,
    making: Seq<Turn>,
    loading: Seq<Seq<Turn>>,
    finishing: Seq<Turn>,
    key: Seq<u8>,
)
    requires
        st.serves(idx, dat),
        whole_life(idx, dat, puts, st, making, loading, finishing) is Some,
    ensures
        ({
            let end = whole_life(idx, dat, puts, st, making, loading, finishing)->Some_0;
            &&& held(end.contents(), key) == payloads_for(plan(puts).fast, key) + held(
                st.contents(),
                key,
            ) + payloads_for(plan(puts).late, key)
            &&& !st.index.contains_key(key) ==> held(end.contents(), key) == payloads_for(
                puts,
                key,
            )
            &&& puts_under(puts, key) ==> end.contents().contains_key(key)
        }),
{
    law_whole_life(idx, dat, puts, st, making, loading, finishing);
    let end = whole_life(idx, dat, puts, st, making, loading, finishing)->Some_0;
    let p = plan(puts);
    let queue = runs(drain_next(), drain_start(idx, dat), st, making)->Some_0.0->Ok_0.deferred;
    let old = drained(idx, dat, st, making);
    let all = p.fast + old + p.late;
    lemma_merge_all_key(Map::empty(), all, key);
    lemma_payloads_for_concat(p.fast + old, p.late, key);
    lemma_payloads_for_concat(p.fast, old, key);
    lemma_queue_payloads(queue, st.records, key);
    lemma_plan_order(puts, key);
    let f = payloads_for(p.fast, key);
    let l = payloads_for(p.late, key);
    assert(Seq::<u8>::empty() + (f + payloads_for(old, key) + l) =~= f + payloads_for(old, key)
        + l);
    if st.index.contains_key(key) {
        let i = choose|i: int| 0 <= i < queue.len() && (#[trigger] queue[i]).key == key;
        assert(payloads_for(old, key) == st.records[queue[i].addr]);
    } else {
        assert(!queued(queue, key));
        assert(f + Seq::<u8>::empty() + l =~= f + l);
    }
    if puts_under(puts, key) {
        lemma_plan_covers(puts, key);
        if puts_under(p.fast, key) {
            let i = choose|i: int| 0 <= i < p.fast.len() && (#[trigger] p.fast[i]).key == key;
            assert(all[i].key == key);
        } else {
            let i = choose|i: int| 0 <= i < p.late.len() && (#[trigger] p.late[i]).key == key;
            assert(all[p.fast.len() + old.len() + i].key == key);
        }
    }
}

/// Each put is either taken or refused.
proof fn lemma_plan_covers(puts: Seq<Put>, key: Seq<u8>)
    requires
        puts_under(puts, key),
    ensures
        puts_under(plan(puts).fast, key) || puts_under(plan(puts).late, key),
    decreases puts.len(),
{
    let i = choose|i: int| 0 <= i < puts.len() && (#[trigger] puts[i]).key == key;
    let b = plan(puts.drop_last());
    let p = plan(puts);
    if i == puts.len() - 1 {
        if b.fast.len() == 0 || key_lt(b.fast.last().key, puts.last().key) {
            assert(p.fast[b.fast.len() as int].key == key);
        } else {
            assert(p.late[b.late.len() as int].key == key);
        }
    } else {
        assert(puts.drop_last()[i].key == key);
        lemma_plan_covers(puts.drop_last(), key);
        if puts_under(b.fast, key) {
            let j = choose|j: int| 0 <= j < b.fast.len() && (#[trigger] b.fast[j]).key == key;
            assert(p.fast[j].key == key);
        } else {
            let j = choose|j: int| 0 <= j < b.late.len() && (#[trigger] b.late[j]).key == key;
            assert(p.late[j].key == key);
        }
    }
}

/// A key that the loader does not touch survives it. If the index held a key
/// when the loader was made, and nothing was loaded under that key, then the
/// key is out of the index as soon as the loader is made, and back in it
/// with the payload it had once the loader is finished.
pub proof fn law_untouched_key_survives(
    idx: IdxFile,
    dat: DatFile,
    puts: Seq<Put>,
    st: Store,
    making: Seq<Turn>,
    loading: Seq<Seq<Turn>>,
    finishing: Seq<Turn>,
    key: Seq<u8>,
)
    requires
        st.serves(idx, dat),
        st.index.contains_key(key),
        !puts_under(puts, key),
        whole_life(idx, dat, puts, st, making, loading, finishing) is Some,
    ensures
        ({
            let made = runs(drain_next(), drain_start(idx, dat), st, making)->Some_0;
            let end = whole_life(idx, dat, puts, st, making, loading, finishing)->Some_0;
            &&& !made.1.index.contains_key(key)
            &&& queued(made.0->Ok_0.deferred, key)
            &&& end.contents().contains_key(key)
            &&& end.contents()[key] == st.contents()[key]
        }),
{
    law_making_drains_the_index(idx, dat, st, making);
    law_whole_life(idx, dat, puts, st, making, loading, finishing);
    law_loader_keeps_every_payload(idx, dat, puts, st, making, loading, finishing, key);
    let p = plan(puts);
    let queue = runs(drain_next(), drain_start(idx, dat), st, making)->Some_0.0->Ok_0.deferred;
    let old = drained(idx, dat, st, making);
    let all = p.fast + old + p.late;
    lemma_plan_order(puts, key);
    assert forall|j: int| 0 <= j < puts.len() implies (#[trigger] puts[j]).key != key by {}
    lemma_no_payloads(puts, key);
    let f = payloads_for(p.fast, key);
    let l = payloads_for(p.late, key);
    assert((f + l).len() == 0);
    assert(f =~= Seq::<u8>::empty() && l =~= Seq::<u8>::empty());
    assert(Seq::<u8>::empty() + st.contents()[key] + Seq::<u8>::empty() =~= st.contents()[key]);
    lemma_merge_all_key(Map::empty(), all, key);
    let i = choose|i: int| 0 <= i < queue.len() && (#[trigger] queue[i]).key == key;
    assert(all[p.fast.len() + i].key == key);
}

/// Keys that come in ascending order are never deferred. If the keys of
/// `puts` come each before the next, a loader that loads them defers none of
/// them: its queue at the finish is as long as when it was made. In the end
/// the index has every key that was loaded; and if it was empty when the
/// loader was made, the queue is empty and each key holds its payload.
pub proof fn law_keys_in_order_are_never_deferred(
    idx: IdxFile,
    dat: DatFile,
    puts: Seq<Put>,
    st: Store,
    making: Seq<Turn>,
    loading: Seq<Seq<Turn>>,
    finishing: Seq<Turn>,
)
    requires
        st.serves(idx, dat),
        in_key_order(puts),
        whole_life(idx, dat, puts, st, making, loading, finishing) is Some,
    ensures
        ({
            let made = runs(drain_next(), drain_start(idx, dat), st, making)->Some_0;
            let filled = loads(made.0->Ok_0, puts, made.1, loading)->Some_0;
            let end = whole_life(idx, dat, puts, st, making, loading, finishing)->Some_0;
            &&& filled.0.deferred.len() == made.0->Ok_0.deferred.len()
            &&& forall|i: int|
                0 <= i < puts.len() ==> end.contents().contains_key((#[trigger] puts[i]).key)
            &&& (forall|k: Seq<u8>| !st.index.contains_key(k)) ==> filled.0.deferred.len() == 0
                && forall|i: int|
                0 <= i < puts.len() ==> end.contents()[(#[trigger] puts[i]).key] == puts[i].data
        }),
{
    law_whole_life(idx, dat, puts, st, making, loading, finishing);
    law_keys_in_order_take_the_fast_path(puts);
    let made = runs(drain_next(), drain_start(idx, dat), st, making)->Some_0;
    let end = whole_life(idx, dat, puts, st, making, loading, finishing)->Some_0;
    assert forall|i: int| 0 <= i < puts.len() implies end.contents().contains_key(
        (#[trigger] puts[i]).key,
    ) by {
        law_loader_keeps_every_payload(
            idx,
            dat,
            puts,
            st,
            making,
            loading,
            finishing,
            puts[i].key,
        );
    }
    if forall|k: Seq<u8>| !st.index.contains_key(k) {
        let queue = made.0->Ok_0.deferred;
        if queue.len() > 0 {
            assert(st.index.contains_key(queue[0].key));
        }
        assert forall|i: int| 0 <= i < puts.len() implies end.contents()[(#[trigger] puts[i]).key]
            == puts[i].data by {
            let key = puts[i].key;
            law_loader_keeps_every_payload(idx, dat, puts, st, making, loading, finishing, key);
            lemma_payloads_in_order(puts, i);
        }
    }
}

/// Among keys in ascending order each key stands once, so the payloads put
/// under it are the one payload that came with it.
proof fn lemma_payloads_in_order(puts: Seq<Put>, i: int)
    requires
        in_key_order(puts),
        0 <= i < puts.len(),
    ensures
        payloads_for(puts, puts[i].key) == puts[i].data,
    decreases puts.len(),
{
    let key = puts[i].key;
    let before = puts.drop_last();
    let n = before.len() as int;
    assert forall|a: int, b: int| 0 <= a < b < before.len() implies key_lt(
        (#[trigger] before[a]).key,
        (#[trigger] before[b]).key,
    ) by {
        assert(before[a] == puts[a] && before[b] == puts[b]);
    }
    if i == n {
        assert forall|j: int| 0 <= j < before.len() implies (#[trigger] before[j]).key != key by {
            assert(before[j] == puts[j]);
            lemma_key_lt_asymmetric(puts[j].key, puts[n].key);
        }
        lemma_no_payloads(before, key);
        assert(Seq::<u8>::empty() + puts[i].data =~= puts[i].data);
    } else {
        assert(before[i] == puts[i]);
        lemma_key_lt_asymmetric(puts[i].key, puts[n].key);
        lemma_payloads_in_order(before, i);
    }
}

/// How many calls a finish may still ask for, the one it waits on included:
/// what the insert under way may ask for, and twelve for each entry of the
/// queue that is not taken up yet.
pub open spec fn finish_budget(step: StepView<FinishView, ()>) -> nat {
    match step {
        StepView::Done(_) => 0,
        StepView::Ask(s, call) => {
            let left = if s.at <= s.queue.len() {
                12 * (s.queue.len() - s.at) as nat
            } else {
                0
            };
            match s.current {
                None => 1 + left,
                Some(ins) => insert_budget(StepView::Ask(ins, call)) + left,
            }
        },
    }
}

/// No retry in the finish either: each reply brings it nearer to its end,
/// whatever the reply is.
pub proof fn law_finish_advances(s: FinishView, call: CallView, reply: ReplyView)
    ensures
        finish_budget(s.next(reply)) < finish_budget(StepView::Ask(s, call)),
{
    match s.current {
        None => {},
        Some(ins) => {
            law_insert_advances(ins, call, reply);
        },
    }
}

/// A load is over after three calls at most.
pub proof fn law_load_ends(loader: LoaderView, key: Seq<u8>, data: Seq<u8>, st: Store, trace: Seq<Turn>)
    requires
        runs(load_next(), loader.load(key, data), st, trace) is Some,
    ensures
        trace.len() <= 3,
{
    let step = loader.load(key, data);
    if trace.len() > 0 {
        let s1 = step->Ask_0.next(trace[0].reply);
        let t1 = trace.skip(1);
        assert(runs(load_next(), s1, trace[0].store, t1) is Some);
        if t1.len() > 0 {
            let s2 = s1->Ask_0.next(t1[0].reply);
            let t2 = t1.skip(1);
            assert(runs(load_next(), s2, t1[0].store, t2) is Some);
            if t2.len() > 0 {
                let s3 = s2->Ask_0.next(t2[0].reply);
                assert(runs(load_next(), s3, t2[0].store, t2.skip(1)) is Some);
            }
        }
    }
}

/// A finish is over after one call and twelve for each entry of the queue,
/// at most.
pub proof fn law_finish_ends(loader: LoaderView, st: Store, trace: Seq<Turn>)
    requires
        runs(finish_next(), loader.finish(), st, trace) is Some,
    ensures
        trace.len() <= 1 + 12 * loader.deferred.len(),
{
    lemma_finish_trace(loader.finish(), st, trace);
}

proof fn lemma_finish_trace(step: StepView<FinishView, ()>, st: Store, trace: Seq<Turn>)
    requires
        runs(finish_next(), step, st, trace) is Some,
    ensures
        trace.len() <= finish_budget(step),
    decreases trace.len(),
{
    match step {
        StepView::Done(_) => {},
        StepView::Ask(s, call) => {
            law_finish_advances(s, call, trace[0].reply);
            lemma_finish_trace(s.next(trace[0].reply), trace[0].store, trace.skip(1));
        },
    }
}

proof fn lemma_load_owed(
    step: StepView<LoadView, LoadedView>,
    st: Store,
    loader: LoaderView,
    key: Seq<u8>,
    data: Seq<u8>,
    pre: Store,
    trace: Seq<Turn>,
)
    requires
        load_inv(step, st, loader, key, data, pre),
        step matches StepView::Ask(s, _) ==> s.phase != LoadPhase::Exhausted,
        step is Done ==> step matches StepView::Done(Ok(_)),
        key.len() == loader.idx.1,
        runs(load_next(), step, st, trace) is Some,
        obliging(load_next(), step, trace),
    ensures
        runs(load_next(), step, st, trace) matches Some((Ok(_), _)),
    decreases trace.len(),
{
    match step {
        StepView::Done(_) => {},
        StepView::Ask(s, call) => {
            lemma_load_step(s, call, st, loader, key, data, pre, trace[0].reply, trace[0].store);
            lemma_load_owed(
                s.next(trace[0].reply),
                trace[0].store,
                loader,
                key,
                data,
                pre,
                trace.skip(1),
            );
        },
    }
}

/// Success is owed to a load too. A load of a payload that a record can hold,
/// under a key of the right length, succeeds on every store that obliges,
/// in order or deferred.
pub proof fn law_load_succeeds(
    loader: LoaderView,
    key: Seq<u8>,
    data: Seq<u8>,
    st: Store,
    trace: Seq<Turn>,
)
    requires
        st.keyno == loader.idx.0,
        st.datno == loader.dat.0,
        key.len() == loader.idx.1,
        data.len() <= i32::MAX,
        runs(load_next(), loader.load(key, data), st, trace) is Some,
        obliging(load_next(), loader.load(key, data), trace),
    ensures
        runs(load_next(), loader.load(key, data), st, trace) matches Some((Ok(_), _)),
{
    lemma_load_owed(loader.load(key, data), st, loader, key, data, st, trace);
}

proof fn lemma_drain_owed(
    step: StepView<DrainView, LoaderView>,
    st: Store,
    idx: IdxFile,
    dat: DatFile,
    st0: Store,
    trace: Seq<Turn>,
)
    requires
        drain_inv(step, st, idx, dat, st0),
        step is Done ==> step matches StepView::Done(Ok(_)),
        forall|k: Seq<u8>| #[trigger] st0.index.contains_key(k) ==> k.len() == idx.1,
        runs(drain_next(), step, st, trace) is Some,
        obliging(drain_next(), step, trace),
    ensures
        runs(drain_next(), step, st, trace) matches Some((Ok(_), _)),
    decreases trace.len(),
{
    match step {
        StepView::Done(_) => {},
        StepView::Ask(s, call) => {
            lemma_drain_step(s, call, st, idx, dat, st0, trace[0].reply, trace[0].store);
            lemma_drain_owed(s.next(trace[0].reply), trace[0].store, idx, dat, st0, trace.skip(1));
        },
    }
}

/// Success is owed to the making of a loader: on an index whose keys all
/// have the index's key length it succeeds on every store that obliges.
pub proof fn law_making_succeeds(idx: IdxFile, dat: DatFile, st: Store, trace: Seq<Turn>)
    requires
        st.keyno == idx.0,
        forall|k: Seq<u8>| #[trigger] st.index.contains_key(k) ==> k.len() == idx.1,
        runs(drain_next(), drain_start(idx, dat), st, trace) is Some,
        obliging(drain_next(), drain_start(idx, dat), trace),
    ensures
        runs(drain_next(), drain_start(idx, dat), st, trace) matches Some((Ok(_), _)),
{
    lemma_drain_owed(drain_start(idx, dat), st, idx, dat, st, trace);
}

/// The payloads under a key only grow as more is put.
proof fn lemma_payloads_grow(puts: Seq<Put>, n: int, key: Seq<u8>)
    requires
        0 <= n <= puts.len(),
    ensures
        payloads_for(puts.take(n), key).len() <= payloads_for(puts, key).len(),
    decreases puts.len() - n,
{
    if n < puts.len() {
        lemma_payloads_grow(puts, n + 1, key);
        assert(puts.take(n + 1).drop_last() =~= puts.take(n));
    } else {
        assert(puts.take(n) =~= puts);
    }
}

/// True if the finish has its insert under way for the entry taken up last,
/// and that insert is not giving up a record for want of space.
pub open spec fn finish_live(step: StepView<FinishView, ()>) -> bool {
    match step {
        StepView::Ask(s, _) => match s.current {
            Some(ins) => s.at >= 1 && ins.key == s.queue[s.at - 1].key && ins.phase
                != crate::ctree::Phase::Exhausted,
            None => true,
        },
        StepView::Done(result) => result is Ok,
    }
}

proof fn lemma_finish_owed(
    step: StepView<FinishView, ()>,
    st: Store,
    idx: IdxFile,
    dat: DatFile,
    queue: Seq<DeferredView>,
    st0: Store,
    trace: Seq<Turn>,
)
    requires
        finish_inv(step, st, idx, dat, queue, st0),
        finish_live(step),
        forall|i: int| 0 <= i < queue.len() ==> (#[trigger] queue[i]).key.len() == idx.1,
        forall|k: Seq<u8>|
            (#[trigger] held(merge_all(st0.contents(), puts_of(queue, st0.records)), k)).len()
                <= i32::MAX,
        runs(finish_next(), step, st, trace) is Some,
        obliging(finish_next(), step, trace),
    ensures
        runs(finish_next(), step, st, trace) matches Some((Ok(_), _)),
    decreases trace.len(),
{
    match step {
        StepView::Done(_) => {},
        StepView::Ask(s, call) => {
            let reply = trace[0].reply;
            let post = trace[0].store;
            let puts = puts_of(queue, st0.records);
            lemma_finish_step(s, call, st, idx, dat, queue, st0, reply, post);
            match s.current {
                None => {},
                Some(ins) => {
                    let at = s.at as int;
                    let key = queue[at - 1].key;
                    let goal = merge_all(st0.contents(), puts.take(at));
                    assert(puts.take(at).last().key == key);
                    lemma_merge_all_key(st0.contents(), puts.take(at), key);
                    lemma_merge_all_key(st0.contents(), puts, key);
                    lemma_payloads_grow(puts, at, key);
                    assert(puts.take(at)[at - 1].key == key);
                    assert(held(merge_all(st0.contents(), puts), key).len() <= i32::MAX);
                    lemma_insert_step_owed(
                        ins,
                        call,
                        st,
                        idx,
                        dat,
                        waiting(queue, st0.records, at),
                        goal,
                        reply,
                        post,
                    );
                },
            }
            lemma_finish_owed(s.next(reply), post, idx, dat, queue, st0, trace.skip(1));
        },
    }
}

/// Success is owed to the finish: if the keys of the queue have the index's
/// key length and no key is to hold more than a record can, the finish
/// succeeds on every store that obliges.
pub proof fn law_finish_succeeds(loader: LoaderView, st: Store, trace: Seq<Turn>)
    requires
        st.serves(loader.idx, loader.dat),
        st.parks(waiting(loader.deferred, st.records, 0)),
        apart(loader.deferred),
        forall|i: int|
            0 <= i < loader.deferred.len() ==> (#[trigger] loader.deferred[i]).key.len()
                == loader.idx.1,
        forall|k: Seq<u8>|
            (#[trigger] held(
                merge_all(st.contents(), puts_of(loader.deferred, st.records)),
                k,
            )).len() <= i32::MAX,
        runs(finish_next(), loader.finish(), st, trace) is Some,
        obliging(finish_next(), loader.finish(), trace),
    ensures
        runs(finish_next(), loader.finish(), st, trace) matches Some((Ok(_), _)),
{
    lemma_finish_owed(loader.finish(), st, loader.idx, loader.dat, loader.deferred, st, trace);
}

} // verus!
