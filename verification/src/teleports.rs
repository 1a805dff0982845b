//! Regions of cells around the points of a teleport list, and the test
//! whether an object lies in one of them.
use crate::aw::Object;
use crate::scan::{find, find_byte, SPACE};
use vstd::prelude::*;

verus! {

/// Why a line of a teleport list was refused.
#[derive(Copy, Clone, Debug, PartialEq, Eq, Structural)]
pub enum TeleportError {
    /// The part of the line before its colon has fewer than three fields.
    BadLine,
    /// A coordinate does not end in one of the letters N, S, E and W.
    BadCoordinate,
}

/// The colon that ends the coordinates of a line.
pub const COLON: u8 = 0x3a;

/// A span of cells along one axis, both ends included.
pub type Span = (i16, i16);

/// `v` if it is a 16-bit number, else the nearest one.
pub open spec fn clamped(v: int) -> int {
    if v < i16::MIN {
        i16::MIN as int
    } else if v > i16::MAX {
        i16::MAX as int
    } else {
        v
    }
}

/// The span of `radius` cells to either side of `coord`, cut at the ends of
/// the 16-bit range.
pub fn bounds(coord: i16, radius: i16) -> (span: Span)
    ensures
        span.0 == clamped(coord - radius),
        span.1 == clamped(coord + radius),
{
    let low: i32 = coord as i32 - radius as i32;
    let high: i32 = coord as i32 + radius as i32;
    (clamp(low), clamp(high))
}

fn clamp(v: i32) -> (r: i16)
    ensures
        r == clamped(v as int),
{
    if v < i16::MIN as i32 {
        i16::MIN
    } else if v > i16::MAX as i32 {
        i16::MAX
    } else {
        v as i16
    }
}

/// True if the letter is N or W, in either case: the directions that count
/// upwards.
pub open spec fn counts_up(letter: u8) -> bool {
    // N, n, W, w
    letter == 0x4e || letter == 0x6e || letter == 0x57 || letter == 0x77
}

/// True if the letter is S or E, in either case: the directions that count
/// downwards.
pub open spec fn counts_down(letter: u8) -> bool {
    // S, s, E, e
    letter == 0x53 || letter == 0x73 || letter == 0x45 || letter == 0x65
}

/// Gives the number of a coordinate its sign. `coord` is the coordinate as
/// written, a number followed by a direction letter; `integer` is the number
/// before the letter as a whole number. North and west keep the number,
/// south and east negate it; any other last byte is refused.
pub fn coord_to_num(coord: &[u8], integer: i16) -> (r: Result<i16, TeleportError>)
    requires
        coord@.len() > 0,
        counts_down(coord@.last()) ==> integer > i16::MIN,
    ensures
        counts_up(coord@.last()) ==> r == Ok::<i16, TeleportError>(integer),
        counts_down(coord@.last()) ==> r == Ok::<i16, TeleportError>((-integer) as i16),
        !counts_up(coord@.last()) && !counts_down(coord@.last()) ==> r == Err::<
            i16,
            TeleportError,
        >(TeleportError::BadCoordinate),
{
    let letter = coord[coord.len() - 1];
    if letter == 0x4e || letter == 0x6e || letter == 0x57 || letter == 0x77 {
        Ok(integer)
    } else if letter == 0x53 || letter == 0x73 || letter == 0x45 || letter == 0x65 {
        Ok(-integer)
    } else {
        Err(TeleportError::BadCoordinate)
    }
}

/// Where the two coordinates of a line stand: the line's text up to its first
/// colon is cut at each space, and the second and third piece are the
/// coordinates, north-south first. Each is given by its start and its end in
/// the line. There is none if there are fewer than three pieces.
pub open spec fn coords_of(line: Seq<u8>) -> Option<((int, int), (int, int))> {
    let part = line.take(find(line, COLON, 0));
    let a = find(part, SPACE, 0);
    let b = find(part, SPACE, a + 1);
    let c = find(part, SPACE, b + 1);
    if a >= part.len() || b >= part.len() {
        None
    } else {
        Some(((a + 1, b), (b + 1, c)))
    }
}

/// Finds the two coordinates of a line of a teleport list, or refuses the
/// line as a bad line if it has none.
pub fn line_coords(line: &[u8]) -> (r: Result<((usize, usize), (usize, usize)), TeleportError>)
    ensures
        match coords_of(line@) {
            Some((ns, ew)) => r == Ok::<((usize, usize), (usize, usize)), TeleportError>(
                ((ns.0 as usize, ns.1 as usize), (ew.0 as usize, ew.1 as usize)),
            ) && 0 <= ns.0 <= ns.1 < ew.0 <= ew.1 <= line@.len(),
            None => r == Err::<((usize, usize), (usize, usize)), TeleportError>(
                TeleportError::BadLine,
            ),
        },
{
    proof {
        assert(line@.take(line@.len() as int) =~= line@);
    }
    let end = find_byte(line, COLON, 0, line.len());
    let a = find_byte(line, SPACE, 0, end);
    if a >= end {
        return Err(TeleportError::BadLine);
    }
    let b = find_byte(line, SPACE, a + 1, end);
    if b >= end {
        return Err(TeleportError::BadLine);
    }
    let c = find_byte(line, SPACE, b + 1, end);
    Ok(((a + 1, b), (b + 1, c)))
}

/// A list of regions of cells.
#[derive(Debug)]
pub struct Teleports {
    regions: Vec<(Span, Span)>,
}

/// True if the cell lies in the region: within its span of x and within its
/// span of z.
pub open spec fn region_holds(region: (Span, Span), cell_x: i16, cell_z: i16) -> bool {
    region.0.0 <= cell_x <= region.0.1 && region.1.0 <= cell_z <= region.1.1
}

/// True if one of the regions holds the cell.
pub open spec fn regions_hold(regions: Seq<(Span, Span)>, cell_x: i16, cell_z: i16) -> bool {
    exists|i: int| 0 <= i < regions.len() && region_holds(#[trigger] regions[i], cell_x, cell_z)
}

impl View for Teleports {
    type V = Seq<(Span, Span)>;

    closed spec fn view(&self) -> Seq<(Span, Span)> {
        self.regions@
    }
}

impl Teleports {
    /// A list without regions: it contains no object.
    pub fn new() -> (t: Teleports)
        ensures
            t@ == Seq::<(Span, Span)>::empty(),
    {
        Teleports { regions: Vec::new() }
    }

    /// Adds the region of `radius` cells to each side of the cell (`x`, `z`).
    pub fn insert(&mut self, x: i16, z: i16, radius: i16)
        ensures
            final(self)@ == old(self)@.push(
                (
                    (clamped(x - radius) as i16, clamped(x + radius) as i16),
                    (clamped(z - radius) as i16, clamped(z + radius) as i16),
                ),
            ),
    {
        self.regions.push((bounds(x, radius), bounds(z, radius)));
    }

    /// True if the object's cell lies in one of the regions.
    pub fn contains(&self, object: &Object) -> (found: bool)
        ensures
            found == regions_hold(
                self@,
                object@.location().cell_x,
                object@.location().cell_z,
            ),
    {
        let location = object.location();
        let mut i: usize = 0;
        while i < self.regions.len()
            invariant
                i <= self.regions@.len(),
                location == object@.location(),
                forall|j: int|
                    0 <= j < i ==> !region_holds(
                        #[trigger] self.regions@[j],
                        location.cell_x,
                        location.cell_z,
                    ),
            decreases self.regions@.len() - i,
        {
            let ((min_x, max_x), (min_z, max_z)) = self.regions[i];
            if min_x <= location.cell_x && location.cell_x <= max_x && min_z <= location.cell_z
                && location.cell_z <= max_z {
                return true;
            }
            i += 1;
        }
        false
    }
}

/// Which objects a run takes in: those near a teleport, if a list of
/// teleports is given, and those of the citizens named, if any are named.
#[derive(Debug)]
pub struct Config {
    pub teleports: Option<Teleports>,
    pub citnums: Option<Vec<i32>>,
}

impl Config {
    /// True if the object passes both tests, as far as they are set.
    pub fn admits(&self, object: &Object) -> (pass: bool)
        ensures
            pass == ({
                &&& self.teleports matches Some(t) ==> regions_hold(
                    t@,
                    object@.location().cell_x,
                    object@.location().cell_z,
                )
                &&& self.citnums matches Some(c) ==> c@.contains(object@.citnum)
            }),
    {
        let near = match &self.teleports {
            Some(t) => t.contains(object),
            None => true,
        };
        if !near {
            return false;
        }
        match &self.citnums {
            Some(c) => {
                let mut i: usize = 0;
                while i < c.len()
                    invariant
                        i <= c@.len(),
                        self.teleports matches Some(t) ==> regions_hold(
                            t@,
                            object@.location().cell_x,
                            object@.location().cell_z,
                        ),
                        self.citnums == Some(*c),
                        forall|j: int| 0 <= j < i ==> c@[j] != object.citnum,
                    decreases c@.len() - i,
                {
                    if c[i] == object.citnum {
                        assert(c@[i as int] == object@.citnum);
                        return true;
                    }
                    i += 1;
                }
                false
            },
            None => true,
        }
    }
}

} // verus!
