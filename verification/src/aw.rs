//! World objects, the cell each one lies in, and their record layout.
use crate::ctree::Error;
use byteorder::ByteOrder;
use vstd::prelude::*;

verus! {

/// Edge length of a grid cell, in coordinate units.
pub const CELL_SIZE: i32 = 1000;

/// Longest name, description or action: what one length byte can say.
pub const MAX_TEXT_LEN: usize = 255;

/// Longest data blob: what a two-byte length can say.
pub const MAX_DATA_LEN: usize = 65535;

/// Length of the fixed part of a record, up to and including the four length
/// prefixes.
pub const HEADER_LEN: usize = 39;

/// One object of the world, at an absolute position.
#[derive(Debug, Clone)]
pub struct Object {
    pub type_: i32,
    pub id: i32,
    pub number: i32,
    pub citnum: i32,
    pub time: i32,
    pub x: i32,
    pub y: i32,
    pub z: i32,
    pub yaw: i16,
    pub tilt: i16,
    pub roll: i16,
    pub name: Vec<u8>,
    pub desc: Vec<u8>,
    pub action: Vec<u8>,
    pub data: Vec<u8>,
}

/// An object as a mathematical value: the scalars as they are, the four byte
/// strings as sequences.
pub struct ObjectView {
    pub type_: i32,
    pub id: i32,
    pub number: i32,
    pub citnum: i32,
    pub time: i32,
    pub x: i32,
    pub y: i32,
    pub z: i32,
    pub yaw: i16,
    pub tilt: i16,
    pub roll: i16,
    pub name: Seq<u8>,
    pub desc: Seq<u8>,
    pub action: Seq<u8>,
    pub data: Seq<u8>,
}

/// Where an object lies: its cell, and its offset inside that cell.
#[derive(Debug, Copy, Clone, PartialEq, Eq, Structural)]
pub struct Location {
    pub cell_x: i16,
    pub cell_z: i16,
    pub obj_x: i16,
    pub obj_y: i32,
    pub obj_z: i16,
}

/// Quotient of `a` by a positive `b`, rounded toward zero.
pub open spec fn trunc_div(a: int, b: int) -> int {
    if a >= 0 {
        a / b
    } else {
        -((-a) / b)
    }
}

/// Index of the cell that holds `coord` along one axis, before it is cut to
/// sixteen bits: zero for every coordinate strictly between -1000 and 1000.
pub open spec fn cell_index(coord: int) -> int {
    trunc_div(coord, CELL_SIZE as int)
}

/// Offset of `coord` inside its cell; it has the sign of `coord` and is
/// smaller than a cell's edge.
pub open spec fn cell_offset(coord: int) -> int {
    coord - CELL_SIZE * cell_index(coord)
}

/// True if the cell index of `coord` fits the sixteen bits a key has for it.
pub open spec fn cell_fits(coord: int) -> bool {
    i16::MIN <= cell_index(coord) <= i16::MAX
}

/// The 16-bit number with the low sixteen bits of `v` in two's complement:
/// `v` itself if it is a 16-bit number.
pub open spec fn low16(v: int) -> int {
    (v + 0x8000) % 0x1_0000 - 0x8000
}

/// The `width` low bytes of `v` in two's complement, lowest first.
pub open spec fn le_bytes(v: int, width: nat) -> Seq<u8>
    decreases width,
{
    if width == 0 {
        Seq::empty()
    } else {
        seq![(v % 256) as u8] + le_bytes(v / 256, (width - 1) as nat)
    }
}

/// A number in `width` bytes is `width` bytes long.
pub proof fn lemma_le_bytes_len(v: int, width: nat)
    ensures
        le_bytes(v, width).len() == width,
    decreases width,
{
    if width > 0 {
        lemma_le_bytes_len(v / 256, (width - 1) as nat);
    }
}

impl ObjectView {
    /// The location the object's position decomposes into. A cell index that
    /// does not fit sixteen bits keeps its low sixteen bits.
    pub open spec fn location(self) -> Location {
        Location {
            cell_x: low16(cell_index(self.x as int)) as i16,
            cell_z: low16(cell_index(self.z as int)) as i16,
            obj_x: cell_offset(self.x as int) as i16,
            obj_y: self.y,
            obj_z: cell_offset(self.z as int) as i16,
        }
    }

    /// True if every byte string is short enough for its length prefix.
    pub open spec fn encodable(self) -> bool {
        &&& self.name.len() <= MAX_TEXT_LEN
        &&& self.desc.len() <= MAX_TEXT_LEN
        &&& self.action.len() <= MAX_TEXT_LEN
        &&& self.data.len() <= MAX_DATA_LEN
    }

    /// The fixed part of the record: the scalars, the offsets inside the cell
    /// in place of the absolute position, and the four length prefixes.
    pub open spec fn header(self) -> Seq<u8> {
        le_bytes(self.type_ as int, 4) + le_bytes(self.id as int, 4) + le_bytes(
            self.number as int,
            4,
        ) + le_bytes(self.citnum as int, 4) + le_bytes(self.time as int, 4) + le_bytes(
            cell_offset(self.x as int),
            2,
        ) + le_bytes(self.y as int, 4) + le_bytes(cell_offset(self.z as int), 2) + le_bytes(
            self.yaw as int,
            2,
        ) + le_bytes(self.tilt as int, 2) + le_bytes(self.roll as int, 2) + le_bytes(
            self.name.len() as int,
            1,
        ) + le_bytes(self.desc.len() as int, 1) + le_bytes(self.action.len() as int, 1)
            + le_bytes(self.data.len() as int, 2)
    }

    /// The whole record: the header, then name, description, action and data.
    pub open spec fn record(self) -> Seq<u8> {
        self.header() + self.name + self.desc + self.action + self.data
    }

    /// The header of every record has the same length, so a record is as
    /// long as that and its four byte strings.
    pub proof fn law_record_len(self)
        ensures
            self.header().len() == HEADER_LEN,
            self.record().len() == HEADER_LEN + self.name.len() + self.desc.len()
                + self.action.len() + self.data.len(),
    {
        lemma_le_bytes_len(self.type_ as int, 4);
        lemma_le_bytes_len(self.id as int, 4);
        lemma_le_bytes_len(self.number as int, 4);
        lemma_le_bytes_len(self.citnum as int, 4);
        lemma_le_bytes_len(self.time as int, 4);
        lemma_le_bytes_len(cell_offset(self.x as int), 2);
        lemma_le_bytes_len(self.y as int, 4);
        lemma_le_bytes_len(cell_offset(self.z as int), 2);
        lemma_le_bytes_len(self.yaw as int, 2);
        lemma_le_bytes_len(self.tilt as int, 2);
        lemma_le_bytes_len(self.roll as int, 2);
        lemma_le_bytes_len(self.name.len() as int, 1);
        lemma_le_bytes_len(self.desc.len() as int, 1);
        lemma_le_bytes_len(self.action.len() as int, 1);
        lemma_le_bytes_len(self.data.len() as int, 2);
    }
}

impl View for Object {
    type V = ObjectView;

    open spec fn view(&self) -> ObjectView {
        ObjectView {
            type_: self.type_,
            id: self.id,
            number: self.number,
            citnum: self.citnum,
            time: self.time,
            x: self.x,
            y: self.y,
            z: self.z,
            yaw: self.yaw,
            tilt: self.tilt,
            roll: self.roll,
            name: self.name@,
            desc: self.desc@,
            action: self.action@,
            data: self.data@,
        }
    }
}

impl ObjectView {
    /// The object with every number zero and every byte string empty.
    pub open spec fn blank() -> ObjectView {
        ObjectView {
            type_: 0,
            id: 0,
            number: 0,
            citnum: 0,
            time: 0,
            x: 0,
            y: 0,
            z: 0,
            yaw: 0,
            tilt: 0,
            roll: 0,
            name: Seq::empty(),
            desc: Seq::empty(),
            action: Seq::empty(),
            data: Seq::empty(),
        }
    }
}

impl Default for Object {
    /// The object with every number zero and every byte string empty.
    fn default() -> (o: Object)
        ensures
            o@ == ObjectView::blank(),
    {
        Object {
            type_: 0,
            id: 0,
            number: 0,
            citnum: 0,
            time: 0,
            x: 0,
            y: 0,
            z: 0,
            yaw: 0,
            tilt: 0,
            roll: 0,
            name: Vec::new(),
            desc: Vec::new(),
            action: Vec::new(),
            data: Vec::new(),
        }
    }
}

/// `byteorder::ByteOrder::write_i32` for `LittleEndian`, on a buffer of its
/// own: the four bytes of `v` in two's complement, lowest first.
#[verifier::external_body]
fn i32_le(v: i32) -> (out: [u8; 4])
    ensures
        out@ == le_bytes(v as int, 4),
{
    let mut out = [0u8; 4];
    byteorder::LittleEndian::write_i32(&mut out, v);
    out
}

/// `byteorder::ByteOrder::write_i16` for `LittleEndian`, on a buffer of its
/// own: the two bytes of `v` in two's complement, lowest first.
#[verifier::external_body]
pub(crate) fn i16_le(v: i16) -> (out: [u8; 2])
    ensures
        out@ == le_bytes(v as int, 2),
{
    let mut out = [0u8; 2];
    byteorder::LittleEndian::write_i16(&mut out, v);
    out
}

/// `byteorder::ByteOrder::write_u16` for `LittleEndian`, on a buffer of its
/// own: the two bytes of `v`, lowest first.
#[verifier::external_body]
pub(crate) fn u16_le(v: u16) -> (out: [u8; 2])
    ensures
        out@ == le_bytes(v as int, 2),
{
    let mut out = [0u8; 2];
    byteorder::LittleEndian::write_u16(&mut out, v);
    out
}

/// The cell index of a coordinate, cut to sixteen bits.
fn cell(coord: i32) -> (index: i16)
    ensures
        index == low16(cell_index(coord as int)),
{
    let index = coord / CELL_SIZE;
    // A multiple of 0x1_0000 is added so that the remainder is taken of a
    // number that is not negative.
    ((index + 0x8000 + 0x21_0000) % 0x1_0000 - 0x8000) as i16
}

impl Object {
    /// Derives the object's cell and its offset inside the cell. Division
    /// rounds toward zero, so the offsets carry the sign of the coordinate and
    /// cell 0 spans the open interval from -1000 to 1000 on each axis.
    ///
    /// Cell and offset give the coordinate back wherever the cell index fits
    /// sixteen bits; a cell index that does not fit keeps its low sixteen
    /// bits.
    pub fn location(&self) -> (loc: Location)
        ensures
            loc == self@.location(),
            loc.cell_x == low16(cell_index(self.x as int)),
            loc.cell_z == low16(cell_index(self.z as int)),
            loc.obj_x == cell_offset(self.x as int),
            loc.obj_y == self.y,
            loc.obj_z == cell_offset(self.z as int),
            -CELL_SIZE < loc.obj_x < CELL_SIZE,
            -CELL_SIZE < loc.obj_z < CELL_SIZE,
            cell_fits(self.x as int) ==> loc.cell_x * CELL_SIZE + loc.obj_x == self.x,
            cell_fits(self.z as int) ==> loc.cell_z * CELL_SIZE + loc.obj_z == self.z,
    {
        Location {
            cell_x: cell(self.x),
            cell_z: cell(self.z),
            obj_x: (self.x % CELL_SIZE) as i16,
            obj_z: (self.z % CELL_SIZE) as i16,
            obj_y: self.y,
        }
    }

    /// Appends the object's record to `w`, or fails with `FieldTooLarge` and
    /// leaves `w` as it was if a byte string is too long for its prefix.
    pub fn write(&self, w: &mut Vec<u8>) -> (r: Result<(), Error>)
        ensures
            self@.encodable() ==> r is Ok && final(w)@ == old(w)@ + self@.record(),
            !self@.encodable() ==> r == Err::<(), Error>(Error::FieldTooLarge) && final(w)@ == old(
                w,
            )@,
    {
        if self.name.len() > MAX_TEXT_LEN || self.desc.len() > MAX_TEXT_LEN || self.action.len()
            > MAX_TEXT_LEN || self.data.len() > MAX_DATA_LEN {
            return Err(Error::FieldTooLarge);
        }
        let loc = self.location();
        let ghost before = w@;
        w.extend_from_slice(i32_le(self.type_).as_slice());
        w.extend_from_slice(i32_le(self.id).as_slice());
        w.extend_from_slice(i32_le(self.number).as_slice());
        w.extend_from_slice(i32_le(self.citnum).as_slice());
        w.extend_from_slice(i32_le(self.time).as_slice());
        w.extend_from_slice(i16_le(loc.obj_x).as_slice());
        w.extend_from_slice(i32_le(loc.obj_y).as_slice());
        w.extend_from_slice(i16_le(loc.obj_z).as_slice());
        w.extend_from_slice(i16_le(self.yaw).as_slice());
        w.extend_from_slice(i16_le(self.tilt).as_slice());
        w.extend_from_slice(i16_le(self.roll).as_slice());
        w.push(self.name.len() as u8);
        w.push(self.desc.len() as u8);
        w.push(self.action.len() as u8);
        w.extend_from_slice(u16_le(self.data.len() as u16).as_slice());
        proof {
            reveal_with_fuel(le_bytes, 2);
            assert(w@ =~= before + self@.header());
        }
        w.extend_from_slice(self.name.as_slice());
        w.extend_from_slice(self.desc.as_slice());
        w.extend_from_slice(self.action.as_slice());
        w.extend_from_slice(self.data.as_slice());
        proof {
            assert(w@ =~= before + self@.record());
        }
        Ok(())
    }

    /// The object's record, or `FieldTooLarge` if a byte string is too long
    /// for its prefix.
    pub fn serialize(&self) -> (r: Result<Vec<u8>, Error>)
        ensures
            self@.encodable() ==> r is Ok && r->Ok_0@ == self@.record(),
            !self@.encodable() ==> r == Err::<Vec<u8>, Error>(Error::FieldTooLarge),
    {
        let mut record: Vec<u8> = Vec::new();
        match self.write(&mut record) {
            Err(e) => Err(e),
            Ok(()) => {
                assert(record@ =~= self@.record());
                Ok(record)
            },
        }
    }
}

} // verus!
