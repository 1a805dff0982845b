//! Gathers the records of objects that arrive one after another for the same
//! cell, and hands each gathered buffer out as one write for the store.
use crate::aw::{i16_le, le_bytes, u16_le, Object, ObjectView};
use crate::ctree::{insert_start, DatFile, Error, IdxFile};
use crate::model::{
    held, insert_next, law_insert_merges, lemma_merge_all_push, merge, merge_all, runs, Put, Store,
    Turn,
};
use vstd::prelude::*;

verus! {

/// Tag of the keys under which the objects of a cell are stored.
pub const CELL_DATA: u16 = 1;

/// Length of a cell's key: the tag and the two cell coordinates.
pub const CELL_KEY_LEN: usize = 6;

/// The records of one cell, to be put under the cell's key behind whatever
/// the store holds there.
#[derive(Clone, Debug)]
pub struct CellWrite {
    pub key: Vec<u8>,
    pub data: Vec<u8>,
}

impl View for CellWrite {
    type V = Put;

    open spec fn view(&self) -> Put {
        Put { key: self.key@, data: self.data@ }
    }
}

/// A write that may be missing, as a mathematical value.
pub open spec fn write_of(w: Option<CellWrite>) -> Option<Put> {
    match w {
        Some(w) => Some(w@),
        None => None,
    }
}

/// The writes that an optional write stands for: one or none.
pub open spec fn as_writes(w: Option<Put>) -> Seq<Put> {
    match w {
        Some(w) => seq![w],
        None => Seq::empty(),
    }
}

/// The cell an object lies in.
pub open spec fn cell_of(o: ObjectView) -> (i16, i16) {
    (o.location().cell_x, o.location().cell_z)
}

/// The key of a cell: the tag, the cell's x and the cell's z, two bytes each,
/// lowest byte first.
pub open spec fn cell_key(cell: (i16, i16)) -> Seq<u8> {
    le_bytes(CELL_DATA as int, 2) + le_bytes(cell.0 as int, 2) + le_bytes(cell.1 as int, 2)
}

/// A writer as a mathematical value: the cell whose buffer is open, if any,
/// and the records gathered for it.
pub struct WriterView {
    pub cell: Option<(i16, i16)>,
    pub buffer: Seq<u8>,
}

impl WriterView {
    /// A writer that has seen no object.
    pub open spec fn fresh() -> WriterView {
        WriterView { cell: None, buffer: Seq::empty() }
    }

    /// True if the writer holds records only while a buffer is open. A new
    /// writer is like that, and a writer stays like that whatever it does.
    pub open spec fn wf(self) -> bool {
        self.cell is None ==> self.buffer.len() == 0
    }

    /// The writer once its buffer is flushed.
    pub open spec fn flushed(self) -> WriterView {
        if self.cell is Some {
            WriterView::fresh()
        } else {
            self
        }
    }

    /// What a flush hands out: the open buffer under its cell's key, or
    /// nothing if no buffer is open.
    pub open spec fn flush(self) -> Option<Put> {
        match self.cell {
            Some(cell) => Some(Put { key: cell_key(cell), data: self.buffer }),
            None => None,
        }
    }

    /// True if the object belongs to another cell than the open buffer.
    pub open spec fn leaves_cell(self, o: ObjectView) -> bool {
        self.cell is Some && self.cell != Some(cell_of(o))
    }

    /// The writer once it has taken the object: the buffer of the object's
    /// cell is open, and the object's record is its last.
    pub open spec fn added(self, o: ObjectView) -> WriterView {
        WriterView {
            cell: Some(cell_of(o)),
            buffer: if self.leaves_cell(o) {
                o.record()
            } else {
                self.buffer + o.record()
            },
        }
    }

    /// What taking the object hands out: the buffer that was open, if the
    /// object belongs to another cell.
    pub open spec fn hands_out(self, o: ObjectView) -> Option<Put> {
        if self.leaves_cell(o) {
            self.flush()
        } else {
            None
        }
    }
}

/// Groups objects by cell as they arrive.
///
/// The writer never touches the store. It hands out a [`CellWrite`] whenever a
/// buffer is complete; whoever drives it puts each one into the store, in the
/// order in which they come, and calls [`ObjectWriter::finish`] on every way
/// out, so that the last buffer is not lost.
#[derive(Debug)]
pub struct ObjectWriter {
    cell: Option<(i16, i16)>,
    cell_data_buffer: Vec<u8>,
}

impl View for ObjectWriter {
    type V = WriterView;

    closed spec fn view(&self) -> WriterView {
        WriterView { cell: self.cell, buffer: self.cell_data_buffer@ }
    }
}

/// Builds the key of a cell.
pub fn make_cell_key(cell_x: i16, cell_z: i16) -> (key: Vec<u8>)
    ensures
        key@ == cell_key((cell_x, cell_z)),
        key@.len() == CELL_KEY_LEN,
{
    let mut key: Vec<u8> = Vec::new();
    key.extend_from_slice(u16_le(CELL_DATA).as_slice());
    key.extend_from_slice(i16_le(cell_x).as_slice());
    key.extend_from_slice(i16_le(cell_z).as_slice());
    proof {
        assert(key@ =~= cell_key((cell_x, cell_z)));
    }
    key
}

impl ObjectWriter {
    /// A writer with no buffer open.
    pub fn new() -> (w: ObjectWriter)
        ensures
            w@ == WriterView::fresh(),
            w@.wf(),
    {
        ObjectWriter { cell: None, cell_data_buffer: Vec::new() }
    }

    /// Takes one object. If it belongs to another cell than the open buffer,
    /// that buffer is handed out and a new one is opened; the object's record
    /// then goes to the end of the open buffer.
    ///
    /// An object with a field too large for its length prefix is refused with
    /// `FieldTooLarge`, and the writer stays as it was.
    pub fn add_object(&mut self, object: &Object) -> (r: Result<Option<CellWrite>, Error>)
        ensures
            !object@.encodable() ==> r == Err::<Option<CellWrite>, Error>(Error::FieldTooLarge)
                && final(self)@ == old(self)@,
            object@.encodable() ==> r is Ok && final(self)@ == old(self)@.added(object@)
                && write_of(r->Ok_0) == old(self)@.hands_out(object@),
            old(self)@.wf() ==> final(self)@.wf(),
    {
        let mut record = match object.serialize() {
            Err(e) => {
                return Err(e);
            },
            Ok(record) => record,
        };
        let loc = object.location();
        let leaves = match self.cell {
            Some(open) => open.0 != loc.cell_x || open.1 != loc.cell_z,
            None => false,
        };
        let out = if leaves {
            self.write_current_cell()
        } else {
            None
        };
        self.cell = Some((loc.cell_x, loc.cell_z));
        self.cell_data_buffer.append(&mut record);
        proof {
            assert(self@.buffer =~= old(self)@.added(object@).buffer);
        }
        Ok(out)
    }

    /// Flushes: hands the open buffer out under its cell's key and leaves no
    /// buffer open. With no buffer open this does nothing and hands out
    /// nothing.
    pub fn write_current_cell(&mut self) -> (out: Option<CellWrite>)
        ensures
            final(self)@ == old(self)@.flushed(),
            write_of(out) == old(self)@.flush(),
            old(self)@.cell is None ==> out is None && final(self)@ == old(self)@,
            old(self)@.wf() ==> final(self)@.wf(),
    {
        match self.cell {
            None => None,
            Some((cell_x, cell_z)) => {
                self.cell = None;
                let mut data: Vec<u8> = Vec::new();
                core::mem::swap(&mut self.cell_data_buffer, &mut data);
                Some(CellWrite { key: make_cell_key(cell_x, cell_z), data })
            },
        }
    }

    /// Ends the writer's life with a last flush.
    pub fn finish(self) -> (out: Option<CellWrite>)
        ensures
            write_of(out) == self@.flush(),
    {
        let mut w = self;
        w.write_current_cell()
    }
}

/// The writer after it has taken `objs` one by one, and the writes it has
/// handed out on the way, in their order.
pub open spec fn feed(w: WriterView, objs: Seq<ObjectView>) -> (WriterView, Seq<Put>)
    decreases objs.len(),
{
    if objs.len() == 0 {
        (w, Seq::empty())
    } else {
        let before = feed(w, objs.drop_last());
        (before.0.added(objs.last()), before.1 + as_writes(before.0.hands_out(objs.last())))
    }
}

/// Every write of a writer's whole life: it takes `objs` one by one and is
/// then finished.
pub open spec fn all_writes(objs: Seq<ObjectView>) -> Seq<Put> {
    let end = feed(WriterView::fresh(), objs);
    end.1 + as_writes(end.0.flush())
}

/// The records of those of `objs` that lie in `cell`, in the order of `objs`.
pub open spec fn records_in(objs: Seq<ObjectView>, cell: (i16, i16)) -> Seq<u8>
    decreases objs.len(),
{
    if objs.len() == 0 {
        Seq::empty()
    } else if cell_of(objs.last()) == cell {
        records_in(objs.drop_last(), cell) + objs.last().record()
    } else {
        records_in(objs.drop_last(), cell)
    }
}

/// Two cells have the same key only if they are the same cell.
pub proof fn lemma_cell_key_injective(a: (i16, i16), b: (i16, i16))
    requires
        cell_key(a) == cell_key(b),
    ensures
        a == b,
{
    reveal_with_fuel(le_bytes, 3);
    let ka = cell_key(a);
    let kb = cell_key(b);
    assert(ka[2] == kb[2] && ka[3] == kb[3] && ka[4] == kb[4] && ka[5] == kb[5]);
    assert(ka[2] == (a.0 as int % 256) as u8);
    assert(ka[3] == ((a.0 as int / 256) % 256) as u8);
    assert(ka[4] == (a.1 as int % 256) as u8);
    assert(ka[5] == ((a.1 as int / 256) % 256) as u8);
    assert(kb[2] == (b.0 as int % 256) as u8);
    assert(kb[3] == ((b.0 as int / 256) % 256) as u8);
    assert(kb[4] == (b.1 as int % 256) as u8);
    assert(kb[5] == ((b.1 as int / 256) % 256) as u8);
}

proof fn lemma_feed_push(w: WriterView, objs: Seq<ObjectView>, o: ObjectView)
    ensures
        feed(w, Seq::empty()) == (w, Seq::<Put>::empty()),
        feed(w, objs + seq![o]).0 == feed(w, objs).0.added(o),
        feed(w, objs + seq![o]).1 == feed(w, objs).1 + as_writes(feed(w, objs).0.hands_out(o)),
{
    assert((objs + seq![o]).drop_last() =~= objs);
}

/// While a writer takes objects, what the store holds for a cell and what
/// the writer still holds for it are together what the store held at first
/// and the records of the cell's objects so far.
proof fn lemma_feed(c0: Map<Seq<u8>, Seq<u8>>, objs: Seq<ObjectView>, cell: (i16, i16))
    ensures
        ({
            let end = feed(WriterView::fresh(), objs);
            let pending = if end.0.cell == Some(cell) {
                end.0.buffer
            } else {
                Seq::empty()
            };
            &&& held(merge_all(c0, end.1), cell_key(cell)) + pending == held(c0, cell_key(cell))
                + records_in(objs, cell)
            &&& end.0.cell is None ==> end.0.buffer.len() == 0
        }),
    decreases objs.len(),
{
    if objs.len() == 0 {
        assert(held(c0, cell_key(cell)) + Seq::<u8>::empty() =~= held(c0, cell_key(cell)));
    } else {
        let o = objs.last();
        let before = feed(WriterView::fresh(), objs.drop_last());
        let w = before.0;
        lemma_feed(c0, objs.drop_last(), cell);
        let c1 = merge_all(c0, before.1);
        let k = cell_key(cell);
        if w.leaves_cell(o) {
            let open = w.cell->Some_0;
            let flushed = Put { key: cell_key(open), data: w.buffer };
            assert(as_writes(w.hands_out(o)) =~= seq![flushed]);
            lemma_merge_all_push(c0, before.1, flushed);
            if open == cell {
                assert(held(merge(c1, k, w.buffer), k) =~= held(c1, k) + w.buffer);
                assert(held(c1, k) + w.buffer + Seq::<u8>::empty() =~= held(c1, k) + w.buffer);
            } else {
                if cell_key(open) == k {
                    lemma_cell_key_injective(open, cell);
                }
                assert(held(merge(c1, cell_key(open), w.buffer), k) == held(c1, k));
                if cell_of(o) == cell {
                    assert(held(c1, k) + Seq::<u8>::empty() + o.record() =~= held(c1, k)
                        + o.record());
                    assert(held(c0, k) + (records_in(objs.drop_last(), cell) + o.record())
                        =~= held(c0, k) + records_in(objs.drop_last(), cell) + o.record());
                }
            }
        } else {
            lemma_merge_all_push(c0, before.1, Put { key: k, data: w.buffer });
            assert(before.1 + as_writes(w.hands_out(o)) =~= before.1);
            if cell_of(o) == cell {
                let pending = if w.cell == Some(cell) {
                    w.buffer
                } else {
                    Seq::empty()
                };
                assert(pending == w.buffer);
                assert(held(c1, k) + (w.buffer + o.record()) =~= held(c1, k) + w.buffer
                    + o.record());
                assert(held(c0, k) + (records_in(objs.drop_last(), cell) + o.record())
                    =~= held(c0, k) + records_in(objs.drop_last(), cell) + o.record());
            }
        }
    }
}

/// Every cell ends up with its objects, in the order in which they came.
/// If each write of a writer's whole life is put into the store behind what
/// its key held, then in the end the key of each cell holds what it held at
/// first, followed by the records of the objects of that cell, however the
/// objects of different cells were interleaved.
pub proof fn law_cells_hold_their_objects(
    c0: Map<Seq<u8>, Seq<u8>>,
    objs: Seq<ObjectView>,
    cell: (i16, i16),
)
    ensures
        held(merge_all(c0, all_writes(objs)), cell_key(cell)) == held(c0, cell_key(cell))
            + records_in(objs, cell),
{
    lemma_feed(c0, objs, cell);
    let end = feed(WriterView::fresh(), objs);
    let k = cell_key(cell);
    let c1 = merge_all(c0, end.1);
    match end.0.cell {
        None => {
            lemma_merge_all_push(c0, end.1, Put { key: k, data: Seq::empty() });
            assert(held(c1, k) + Seq::<u8>::empty() =~= held(c1, k));
        },
        Some(open) => {
            let last = Put { key: cell_key(open), data: end.0.buffer };
            assert(as_writes(end.0.flush()) =~= seq![last]);
            lemma_merge_all_push(c0, end.1, last);
            if open == cell {
                assert(held(merge(c1, k, end.0.buffer), k) =~= held(c1, k) + end.0.buffer);
            } else {
                if cell_key(open) == k {
                    lemma_cell_key_injective(open, cell);
                }
                assert(held(c1, k) + Seq::<u8>::empty() =~= held(c1, k));
            }
        },
    }
}

/// Follows the inserts of `writes`, one after the other, each through its
/// own exchange with the store. The result is the store at the end if each
/// exchange is whole and each insert succeeds; otherwise it is `None`.
pub open spec fn runs_writes(
    idx: IdxFile,
    dat: DatFile,
    writes: Seq<Put>,
    st: Store,
    traces: Seq<Seq<Turn>>,
) -> Option<Store>
    decreases writes.len(),
{
    if traces.len() != writes.len() {
        None
    } else if writes.len() == 0 {
        Some(st)
    } else {
        match runs_writes(idx, dat, writes.drop_last(), st, traces.drop_last()) {
            Some(mid) => match runs(
                insert_next(),
                insert_start(idx, dat, writes.last().key, writes.last().data),
                mid,
                traces.last(),
            ) {
                Some((Ok(_), end)) => Some(end),
                _ => None,
            },
            None => None,
        }
    }
}

/// Inserting the writes one after the other puts each behind what its key
/// held: the store holds in the end what `merge_all` says.
pub proof fn law_writes_reach_store(
    idx: IdxFile,
    dat: DatFile,
    writes: Seq<Put>,
    st: Store,
    traces: Seq<Seq<Turn>>,
)
    requires
        st.serves(idx, dat),
        runs_writes(idx, dat, writes, st, traces) is Some,
    ensures
        runs_writes(idx, dat, writes, st, traces)->Some_0.serves(idx, dat),
        runs_writes(idx, dat, writes, st, traces)->Some_0.contents() == merge_all(
            st.contents(),
            writes,
        ),
    decreases writes.len(),
{
    if writes.len() > 0 {
        law_writes_reach_store(idx, dat, writes.drop_last(), st, traces.drop_last());
        let mid = runs_writes(idx, dat, writes.drop_last(), st, traces.drop_last())->Some_0;
        law_insert_merges(
            idx,
            dat,
            writes.last().key,
            writes.last().data,
            mid,
            Map::empty(),
            traces.last(),
        );
    }
}

/// Buffer concatenation. Two objects of the same cell that arrive one after
/// the other leave the writer as a single write, and once it is in the store
/// the cell's key holds what it held before, then the record of the first,
/// then the record of the second.
pub proof fn law_consecutive_objects_share_a_write(
    a: ObjectView,
    b: ObjectView,
    idx: IdxFile,
    dat: DatFile,
    st: Store,
    traces: Seq<Seq<Turn>>,
)
    requires
        a.encodable(),
        b.encodable(),
        cell_of(a) == cell_of(b),
        st.serves(idx, dat),
        runs_writes(idx, dat, all_writes(seq![a, b]), st, traces) is Some,
    ensures
        all_writes(seq![a, b]) == seq![
            Put { key: cell_key(cell_of(a)), data: a.record() + b.record() },
        ],
        ({
            let end = runs_writes(idx, dat, all_writes(seq![a, b]), st, traces)->Some_0;
            let key = cell_key(cell_of(a));
            &&& end.contents().contains_key(key)
            &&& end.contents()[key] == held(st.contents(), key) + a.record() + b.record()
        }),
{
    let objs = seq![a, b];
    let key = cell_key(cell_of(a));
    let w0 = WriterView::fresh();
    lemma_feed_push(w0, Seq::empty(), a);
    lemma_feed_push(w0, seq![a], b);
    assert(Seq::<ObjectView>::empty() + seq![a] =~= seq![a]);
    assert(seq![a] + seq![b] =~= objs);
    assert(feed(w0, objs).1 =~= Seq::<Put>::empty());
    assert(w0.added(a).added(b).buffer =~= a.record() + b.record());
    let only = Put { key, data: a.record() + b.record() };
    assert(all_writes(objs) =~= seq![only]);
    law_writes_reach_store(idx, dat, all_writes(objs), st, traces);
    lemma_merge_all_push(st.contents(), Seq::empty(), only);
    assert(Seq::<Put>::empty() + seq![only] =~= seq![only]);
    assert(held(st.contents(), key) + (a.record() + b.record()) =~= held(st.contents(), key)
        + a.record() + b.record());
    assert(Seq::<u8>::empty() + (a.record() + b.record()) =~= a.record() + b.record());
}

/// While objects of other cells only are taken after `a`, the first write
/// handed out is `a`'s record alone, and the open buffer is not `a`'s cell's.
proof fn lemma_feed_apart(a: ObjectView, between: Seq<ObjectView>)
    requires
        between.len() > 0,
        forall|i: int| 0 <= i < between.len() ==> cell_of(#[trigger] between[i]) != cell_of(a),
    ensures
        ({
            let end = feed(WriterView::fresh(), seq![a] + between);
            &&& end.0.cell is Some
            &&& end.0.cell != Some(cell_of(a))
            &&& end.1.len() > 0
            &&& end.1[0] == Put { key: cell_key(cell_of(a)), data: a.record() }
        }),
    decreases between.len(),
{
    let w0 = WriterView::fresh();
    let objs = seq![a] + between;
    assert(objs.drop_last() =~= seq![a] + between.drop_last());
    assert(objs.last() == between.last());
    if between.len() == 1 {
        assert(seq![a] + between.drop_last() =~= seq![a]);
        lemma_feed_push(w0, Seq::empty(), a);
        assert(Seq::<ObjectView>::empty() + seq![a] =~= seq![a]);
        assert(feed(w0, seq![a]).1 =~= Seq::<Put>::empty());
        assert(w0.added(a).buffer =~= a.record());
    } else {
        lemma_feed_apart(a, between.drop_last());
    }
}

/// Merge on collision. Two objects of the same cell with objects of other
/// cells between them leave the writer in separate writes: the first write of
/// all is the first object's record alone, the last is the second object's
/// record alone. Once all writes are in the store, the cell's key still holds
/// what it held before, then the record of the first, then the record of the
/// second.
pub proof fn law_separated_objects_are_merged(
    a: ObjectView,
    between: Seq<ObjectView>,
    b: ObjectView,
    idx: IdxFile,
    dat: DatFile,
    st: Store,
    traces: Seq<Seq<Turn>>,
)
    requires
        a.encodable(),
        b.encodable(),
        forall|i: int| 0 <= i < between.len() ==> (#[trigger] between[i]).encodable(),
        cell_of(a) == cell_of(b),
        between.len() > 0,
        forall|i: int| 0 <= i < between.len() ==> cell_of(#[trigger] between[i]) != cell_of(a),
        st.serves(idx, dat),
        runs_writes(idx, dat, all_writes(seq![a] + between + seq![b]), st, traces) is Some,
    ensures
        ({
            let writes = all_writes(seq![a] + between + seq![b]);
            let end = runs_writes(idx, dat, writes, st, traces)->Some_0;
            let key = cell_key(cell_of(a));
            &&& writes.len() >= 3
            &&& writes.first() == Put { key, data: a.record() }
            &&& writes.last() == Put { key, data: b.record() }
            &&& end.contents().contains_key(key)
            &&& end.contents()[key] == held(st.contents(), key) + a.record() + b.record()
        }),
{
    let objs = seq![a] + between + seq![b];
    let key = cell_key(cell_of(a));
    let w0 = WriterView::fresh();
    assert(objs.drop_last() =~= seq![a] + between);
    lemma_feed_apart(a, between);
    let mid = feed(w0, seq![a] + between);
    assert(mid.0.leaves_cell(b));
    let writes = all_writes(objs);
    assert(writes.last() == Put { key, data: b.record() });
    assert(writes.first() == mid.1[0]);
    lemma_records_apart(a, between);
    law_cells_hold_their_objects(st.contents(), objs, cell_of(a));
    law_writes_reach_store(idx, dat, writes, st, traces);
    assert(held(st.contents(), key) + (a.record() + b.record()) =~= held(st.contents(), key)
        + a.record() + b.record());
    assert(writes.drop_last().len() > 0);
    assert(merge_all(st.contents(), writes).contains_key(key));
}

/// Objects of other cells add nothing to the records of `a`'s cell.
proof fn lemma_records_apart(a: ObjectView, between: Seq<ObjectView>)
    requires
        forall|i: int| 0 <= i < between.len() ==> cell_of(#[trigger] between[i]) != cell_of(a),
    ensures
        records_in(seq![a] + between, cell_of(a)) == a.record(),
    decreases between.len(),
{
    let objs = seq![a] + between;
    if between.len() == 0 {
        assert(objs.drop_last() =~= Seq::<ObjectView>::empty());
        assert(records_in(Seq::empty(), cell_of(a)) =~= Seq::<u8>::empty());
        assert(objs.last() == a);
        assert(Seq::<u8>::empty() + a.record() =~= a.record());
    } else {
        assert(objs.drop_last() =~= seq![a] + between.drop_last());
        assert(objs.last() == between.last());
        lemma_records_apart(a, between.drop_last());
    }
}

} // verus!
