//! The text format that objects arrive in: a header line, then one record per
//! object. A record is a row of decimal numbers, each ended by a space, and
//! then the object's byte strings, whose lengths the last numbers give.
use crate::aw::{Object, ObjectView};
use crate::scan::{find, find_byte, lemma_find_bounds, SPACE};
use encoding::Encoding;
use vstd::prelude::*;

verus! {

/// The byte that stands for a line feed in a description or an action.
pub const LINE_MARK: u8 = 0x7f;

/// The byte that stands for a carriage return before that line feed.
pub const RETURN_MARK: u8 = 0x80;

/// The line feed.
pub const LINE_FEED: u8 = 0x0a;

/// The carriage return.
pub const CARRIAGE_RETURN: u8 = 0x0d;

/// The plus sign.
pub const PLUS: u8 = 0x2b;

/// The minus sign.
pub const MINUS: u8 = 0x2d;

/// What a byte of a description or an action stands for: a line mark for a
/// line feed, a return mark right before a line mark for a carriage return,
/// any other byte for itself.
pub open spec fn restored_at(s: Seq<u8>, j: int) -> u8 {
    if s[j] == LINE_MARK {
        LINE_FEED
    } else if s[j] == RETURN_MARK && j + 1 < s.len() && s[j + 1] == LINE_MARK {
        CARRIAGE_RETURN
    } else {
        s[j]
    }
}

/// The text with its line ends restored.
pub open spec fn restored(s: Seq<u8>) -> Seq<u8> {
    Seq::new(s.len(), |j: int| restored_at(s, j))
}

/// Puts the line ends back into a description or an action.
pub fn restore_newlines(buffer: &mut Vec<u8>)
    ensures
        final(buffer)@ == restored(old(buffer)@),
{
    let ghost orig = buffer@;
    let n = buffer.len();
    if n >= 2 {
        let mut i: usize = 0;
        while i < n - 1
            invariant
                n == orig.len(),
                buffer@.len() == n,
                n >= 2,
                i <= n - 1,
                forall|j: int| 0 < j < i ==> buffer@[j] == restored_at(orig, j),
                i > 0 ==> buffer@[0] == (if orig[0] == LINE_MARK {
                    LINE_MARK
                } else {
                    restored_at(orig, 0)
                }),
                forall|j: int| i < j < n ==> buffer@[j] == orig[j],
                buffer@[i as int] == (if i > 0 && orig[i as int] == LINE_MARK {
                    LINE_FEED
                } else {
                    orig[i as int]
                }),
            decreases n - 1 - i,
        {
            if buffer[i + 1] == LINE_MARK {
                buffer[i + 1] = LINE_FEED;
                if buffer[i] == RETURN_MARK {
                    buffer[i] = CARRIAGE_RETURN;
                }
            }
            i += 1;
        }
    }
    if n > 0 && buffer[0] == LINE_MARK {
        buffer[0] = LINE_FEED;
    }
    proof {
        assert(buffer@ =~= restored(orig));
    }
}

/// True if the byte is a decimal digit.
pub open spec fn is_digit(b: u8) -> bool {
    0x30 <= b <= 0x39
}

/// The number that a row of decimal digits writes.
pub open spec fn decimal(s: Seq<u8>) -> nat
    decreases s.len(),
{
    if s.len() == 0 {
        0
    } else {
        decimal(s.drop_last()) * 10 + (s.last() - 0x30) as nat
    }
}

/// The number that a text writes without a sign: it is one or more decimal
/// digits, and nothing else.
pub open spec fn magnitude(s: Seq<u8>) -> Option<nat> {
    if s.len() > 0 && forall|i: int| 0 <= i < s.len() ==> is_digit(#[trigger] s[i]) {
        Some(decimal(s))
    } else {
        None
    }
}

/// The number that a text writes: digits, after a plus sign or nothing, or,
/// where `signed`, after a minus sign.
pub open spec fn number(s: Seq<u8>, signed: bool) -> Option<int> {
    if s.len() > 0 && s[0] == PLUS {
        match magnitude(s.skip(1)) {
            Some(v) => Some(v as int),
            None => None,
        }
    } else if signed && s.len() > 0 && s[0] == MINUS {
        match magnitude(s.skip(1)) {
            Some(v) => Some(-(v as int)),
            None => None,
        }
    } else {
        match magnitude(s) {
            Some(v) => Some(v as int),
            None => None,
        }
    }
}

/// What kind of number a field of a record holds.
#[derive(Copy, Clone, Debug, PartialEq, Eq, Structural)]
pub enum Kind {
    /// A signed number of 32 bits.
    Int,
    /// A signed number of 16 bits.
    Short,
    /// A length: unsigned, as wide as the machine counts.
    Length,
}

impl Kind {
    /// True if a minus sign may stand before the number.
    pub open spec fn signed(self) -> bool {
        self != Kind::Length
    }

    /// True if the number fits the kind.
    pub open spec fn admits(self, v: int) -> bool {
        match self {
            Kind::Int => i32::MIN <= v <= i32::MAX,
            Kind::Short => i16::MIN <= v <= i16::MAX,
            Kind::Length => 0 <= v <= usize::MAX,
        }
    }
}

/// Where the item that starts at `pos` ends. An item runs up to the next
/// space; the last item of a text that does not end in a space loses its
/// last byte.
pub open spec fn item_end(s: Seq<u8>, pos: int) -> int {
    let space = find(s, SPACE, pos);
    if space < s.len() {
        space
    } else if pos < s.len() {
        s.len() - 1
    } else {
        pos
    }
}

/// Where the item after the one that starts at `pos` starts: behind the
/// space, or at the end of the text.
pub open spec fn item_next(s: Seq<u8>, pos: int) -> int {
    let space = find(s, SPACE, pos);
    if space < s.len() {
        space + 1
    } else {
        s.len() as int
    }
}

/// The number of the given kind that the item at `pos` writes, if it writes
/// one.
pub open spec fn field(s: Seq<u8>, pos: int, kind: Kind) -> Option<int> {
    match number(s.subrange(pos, item_end(s, pos)), kind.signed()) {
        Some(v) => if kind.admits(v) {
            Some(v)
        } else {
            None
        },
        None => None,
    }
}

/// The numbers of the given kinds that the items from `pos` on write, one
/// after the other, and where the text goes on behind them.
pub open spec fn fields(s: Seq<u8>, pos: int, kinds: Seq<Kind>) -> Option<(Seq<int>, int)>
    decreases kinds.len(),
{
    if kinds.len() == 0 {
        Some((Seq::empty(), pos))
    } else {
        match fields(s, pos, kinds.drop_last()) {
            Some((values, at)) => match field(s, at, kinds.last()) {
                Some(v) => Some((values.push(v), item_next(s, at))),
                None => None,
            },
            None => None,
        }
    }
}

/// Reads a row of digits as a number up to `limit`.
fn parse_magnitude(s: &[u8], start: usize, end: usize, limit: u64) -> (r: Option<u64>)
    requires
        start <= end <= s@.len(),
    ensures
        r == (match magnitude(s@.subrange(start as int, end as int)) {
            Some(v) => if v <= limit {
                Some(v as u64)
            } else {
                None
            },
            None => None,
        }),
{
    if start == end {
        return None;
    }
    let ghost text = s@.subrange(start as int, end as int);
    let mut value: u64 = 0;
    let mut over = false;
    let mut i = start;
    while i < end
        invariant
            start <= i <= end <= s@.len(),
            text == s@.subrange(start as int, end as int),
            forall|j: int| 0 <= j < i - start ==> is_digit(#[trigger] text[j]),
            !over ==> value == decimal(text.take(i - start)) && value <= limit,
            over ==> decimal(text.take(i - start)) > limit,
        decreases end - i,
    {
        let b = s[i];
        if b < 0x30 || b > 0x39 {
            assert(!is_digit(text[i - start]));
            return None;
        }
        proof {
            assert(text.take(i + 1 - start).drop_last() =~= text.take(i - start));
            assert(text.take(i + 1 - start).last() == b);
        }
        if !over {
            let next: u128 = value as u128 * 10 + (b - 0x30) as u128;
            if next > limit as u128 {
                over = true;
            } else {
                value = next as u64;
            }
        }
        i += 1;
    }
    proof {
        assert(text.take(end - start) =~= text);
    }
    if over {
        None
    } else {
        Some(value)
    }
}

/// Reads a text as a number of the given kind.
fn parse_number(s: &[u8], start: usize, end: usize, kind: Kind) -> (r: Option<i128>)
    requires
        start <= end <= s@.len(),
    ensures
        r == (match number(s@.subrange(start as int, end as int), kind.signed()) {
            Some(v) => if kind.admits(v) {
                Some(v as i128)
            } else {
                None
            },
            None => None,
        }),
{
    let ghost text = s@.subrange(start as int, end as int);
    let top: u64 = match kind {
        Kind::Int => 0x7fff_ffff,
        Kind::Short => 0x7fff,
        Kind::Length => usize::MAX as u64,
    };
    if start < end && s[start] == PLUS {
        proof {
            assert(text[0] == PLUS);
            assert(text.skip(1) =~= s@.subrange(start + 1, end as int));
        }
        match parse_magnitude(s, start + 1, end, top) {
            Some(v) => Some(v as i128),
            None => None,
        }
    } else if start < end && s[start] == MINUS && !matches!(kind, Kind::Length) {
        proof {
            assert(text[0] == MINUS);
            assert(text.skip(1) =~= s@.subrange(start + 1, end as int));
        }
        match parse_magnitude(s, start + 1, end, top + 1) {
            Some(v) => Some(-(v as i128)),
            None => None,
        }
    } else {
        proof {
            if start < end {
                assert(text[0] == s@[start as int]);
            }
        }
        match parse_magnitude(s, start, end, top) {
            Some(v) => Some(v as i128),
            None => None,
        }
    }
}

/// Reads the numbers of the given kinds from `pos` on.
pub fn read_fields(s: &[u8], pos: usize, kinds: &[Kind]) -> (r: Option<(Vec<i128>, usize)>)
    requires
        pos <= s@.len(),
    ensures
        match fields(s@, pos as int, kinds@) {
            Some((values, at)) => r is Some && r->Some_0.0@.len() == values.len() && (forall|
                i: int,
            | 0 <= i < values.len() ==> #[trigger] r->Some_0.0@[i] == values[i]) && r->Some_0.1
                == at && at <= s@.len(),
            None => r is None,
        },
{
    let mut values: Vec<i128> = Vec::new();
    let mut at = pos;
    let mut k: usize = 0;
    while k < kinds.len()
        invariant
            k <= kinds@.len(),
            at <= s@.len(),
            fields(s@, pos as int, kinds@.take(k as int)) matches Some((vals, next)) && next == at
                && values@.len() == vals.len() && (forall|i: int|
                0 <= i < vals.len() ==> #[trigger] values@[i] == vals[i]),
        decreases kinds@.len() - k,
    {
        proof {
            assert(kinds@.take(k + 1).drop_last() =~= kinds@.take(k as int));
            assert(kinds@.take(k + 1).last() == kinds@[k as int]);
            assert(s@.take(s@.len() as int) =~= s@);
        }
        let space = find_byte(s, SPACE, at, s.len());
        let end = if space < s.len() {
            space
        } else if at < s.len() {
            s.len() - 1
        } else {
            at
        };
        let next = if space < s.len() {
            space + 1
        } else {
            s.len()
        };
        match parse_number(s, at, end, kinds[k]) {
            None => {
                proof {
                    lemma_fields_fail(s@, pos as int, kinds@, k as int + 1);
                }
                return None;
            },
            Some(v) => {
                values.push(v);
                at = next;
            },
        }
        k += 1;
    }
    proof {
        assert(kinds@.take(kinds@.len() as int) =~= kinds@);
    }
    Some((values, at))
}

/// Once a field cannot be read, the row cannot be read.
proof fn lemma_fields_fail(s: Seq<u8>, pos: int, kinds: Seq<Kind>, k: int)
    requires
        0 <= k <= kinds.len(),
        fields(s, pos, kinds.take(k)) is None,
    ensures
        fields(s, pos, kinds) is None,
    decreases kinds.len() - k,
{
    if k < kinds.len() {
        assert(kinds.take(k + 1).drop_last() =~= kinds.take(k));
        lemma_fields_fail(s, pos, kinds, k + 1);
    } else {
        assert(kinds.take(k) =~= kinds);
    }
}

/// Every row that can be read has one number of the right kind for each
/// kind asked, and goes on inside the text.
pub proof fn lemma_fields_admitted(s: Seq<u8>, pos: int, kinds: Seq<Kind>)
    requires
        0 <= pos <= s.len(),
        fields(s, pos, kinds) is Some,
    ensures
        fields(s, pos, kinds)->Some_0.0.len() == kinds.len(),
        forall|i: int|
            0 <= i < kinds.len() ==> (#[trigger] kinds[i]).admits(
                fields(s, pos, kinds)->Some_0.0[i],
            ),
        pos <= fields(s, pos, kinds)->Some_0.1 <= s.len(),
    decreases kinds.len(),
{
    if kinds.len() > 0 {
        lemma_fields_admitted(s, pos, kinds.drop_last());
        let before = fields(s, pos, kinds.drop_last())->Some_0;
        lemma_find_bounds(s, SPACE, before.1);
        assert forall|i: int| 0 <= i < kinds.len() implies (#[trigger] kinds[i]).admits(
            fields(s, pos, kinds)->Some_0.0[i],
        ) by {
            if i < kinds.len() - 1 {
                assert(kinds.drop_last()[i] == kinds[i]);
            }
        }
    }
}

/// What a hexadecimal digit counts: 0 to 9, and a to f in either case for 10
/// to 15.
pub open spec fn hex_value(b: u8) -> Option<int> {
    if 0x30 <= b <= 0x39 {
        Some(b - 0x30)
    } else if 0x61 <= b <= 0x66 {
        Some(b - 0x61 + 10)
    } else if 0x41 <= b <= 0x46 {
        Some(b - 0x41 + 10)
    } else {
        None
    }
}

/// The byte that two characters write: two hexadecimal digits, or a plus
/// sign and one.
pub open spec fn pair_value(a: u8, b: u8) -> Option<u8> {
    if a == PLUS {
        match hex_value(b) {
            Some(low) => Some(low as u8),
            None => None,
        }
    } else {
        match (hex_value(a), hex_value(b)) {
            (Some(high), Some(low)) => Some((16 * high + low) as u8),
            _ => None,
        }
    }
}

/// The bytes that a text of character pairs writes, if every pair writes
/// one.
pub open spec fn unhex(s: Seq<u8>) -> Option<Seq<u8>> {
    if forall|i: int| 0 <= i < s.len() / 2 ==> (#[trigger] pair_value(s[2 * i], s[2 * i + 1]))
        is Some {
        Some(Seq::new((s.len() / 2) as nat, |i: int| pair_value(s[2 * i], s[2 * i + 1])->Some_0))
    } else {
        None
    }
}

fn hex_digit(b: u8) -> (r: Option<u8>)
    ensures
        match hex_value(b) {
            Some(v) => r == Some(v as u8) && v < 16,
            None => r is None,
        },
{
    if 0x30 <= b && b <= 0x39 {
        Some(b - 0x30)
    } else if 0x61 <= b && b <= 0x66 {
        Some(b - 0x61 + 10)
    } else if 0x41 <= b && b <= 0x46 {
        Some(b - 0x41 + 10)
    } else {
        None
    }
}

/// Reads `count` character pairs from `start` on as bytes.
fn read_hex(s: &[u8], start: usize, count: usize) -> (r: Option<Vec<u8>>)
    requires
        start + 2 * count <= s@.len(),
    ensures
        match unhex(s@.subrange(start as int, start + 2 * count)) {
            Some(bytes) => r is Some && r->Some_0@ == bytes,
            None => r is None,
        },
{
    let ghost text = s@.subrange(start as int, start + 2 * count);
    let n = s.len();
    let mut out: Vec<u8> = Vec::new();
    let mut i: usize = 0;
    while i < count
        invariant
            i <= count,
            n == s@.len(),
            start + 2 * count <= s@.len(),
            text == s@.subrange(start as int, start + 2 * count),
            out@.len() == i,
            forall|j: int|
                0 <= j < i ==> (#[trigger] pair_value(text[2 * j], text[2 * j + 1])) == Some(
                    out@[j],
                ),
        decreases count - i,
    {
        let a = s[start + 2 * i];
        let b = s[start + 2 * i + 1];
        assert(text[2 * i] == a && text[2 * i + 1] == b);
        let byte = if a == PLUS {
            hex_digit(b)
        } else {
            match (hex_digit(a), hex_digit(b)) {
                (Some(high), Some(low)) => Some(16 * high + low),
                _ => None,
            }
        };
        match byte {
            None => {
                assert(pair_value(text[2 * i], text[2 * i + 1]) is None);
                return None;
            },
            Some(v) => {
                out.push(v);
            },
        }
        i += 1;
    }
    proof {
        assert(text.len() / 2 == count);
        assert(out@ =~= unhex(text)->Some_0);
    }
    Some(out)
}

/// The kinds of the numbers that a record begins with: citizen, time, x, y,
/// z, yaw, tilt, roll, then in the fourth version the type, then the lengths
/// of name, description and action, then in the fourth version that of the
/// data.
pub open spec fn header_kinds(v4: bool) -> Seq<Kind> {
    if v4 {
        seq![
            Kind::Int,
            Kind::Int,
            Kind::Int,
            Kind::Int,
            Kind::Int,
            Kind::Short,
            Kind::Short,
            Kind::Short,
            Kind::Int,
            Kind::Length,
            Kind::Length,
            Kind::Length,
            Kind::Length,
        ]
    } else {
        seq![
            Kind::Int,
            Kind::Int,
            Kind::Int,
            Kind::Int,
            Kind::Int,
            Kind::Short,
            Kind::Short,
            Kind::Short,
            Kind::Length,
            Kind::Length,
            Kind::Length,
        ]
    }
}

/// What stands in a text at some place, read as a record.
pub enum Read {
    /// No record begins here: the first item is no number.
    End,
    /// A record begins here and cannot be read to its end.
    Bad,
    /// A record, and where the text goes on behind it.
    Record(ObjectView, int),
}

/// Reads the text at `pos` as a record. The byte strings are taken as they
/// stand; the data is read from character pairs. Behind the byte strings up
/// to two more bytes, the end of the line, belong to the record.
pub open spec fn record_at(s: Seq<u8>, pos: int, v4: bool) -> Read {
    if field(s, pos, Kind::Int) is None {
        Read::End
    } else {
        match fields(s, pos, header_kinds(v4)) {
            None => Read::Bad,
            Some((v, at)) => {
                let first = if v4 {
                    9
                } else {
                    8int
                };
                let name_end = at + v[first];
                let desc_end = name_end + v[first + 1];
                let action_end = desc_end + v[first + 2];
                let data_end = if v4 {
                    action_end + 2 * v[12]
                } else {
                    action_end
                };
                if data_end > s.len() {
                    Read::Bad
                } else {
                    match unhex(s.subrange(action_end, data_end)) {
                        None => Read::Bad,
                        Some(data) => Read::Record(
                            ObjectView {
                                type_: if v4 {
                                    v[8] as i32
                                } else {
                                    0
                                },
                                id: 0,
                                number: 0,
                                citnum: v[0] as i32,
                                time: v[1] as i32,
                                x: v[2] as i32,
                                y: v[3] as i32,
                                z: v[4] as i32,
                                yaw: v[5] as i16,
                                tilt: v[6] as i16,
                                roll: v[7] as i16,
                                name: s.subrange(at, name_end),
                                desc: s.subrange(name_end, desc_end),
                                action: s.subrange(desc_end, action_end),
                                data,
                            },
                            if data_end + 2 <= s.len() {
                                data_end + 2
                            } else {
                                s.len() as int
                            },
                        ),
                    }
                }
            },
        }
    }
}

/// What was read at some place of a text.
#[derive(Debug)]
pub enum Item {
    /// No record begins there.
    End,
    /// A record begins there and cannot be read to its end.
    Bad,
    /// An object, and where the text goes on behind its record.
    Record(Object, usize),
}

fn copy_range(s: &[u8], start: usize, end: usize) -> (out: Vec<u8>)
    requires
        start <= end <= s@.len(),
    ensures
        out@ == s@.subrange(start as int, end as int),
{
    let mut out: Vec<u8> = Vec::new();
    let mut i = start;
    while i < end
        invariant
            start <= i <= end <= s@.len(),
            out@ == s@.subrange(start as int, i as int),
        decreases end - i,
    {
        out.push(s[i]);
        proof {
            assert(out@ =~= s@.subrange(start as int, i + 1));
        }
        i += 1;
    }
    out
}

/// Reads the record that begins at `pos`, its byte strings as they stand in
/// the text.
pub fn read_record(s: &[u8], pos: usize, v4: bool) -> (item: Item)
    requires
        pos <= s@.len(),
    ensures
        match record_at(s@, pos as int, v4) {
            Read::End => item is End,
            Read::Bad => item is Bad,
            Read::Record(o, next) => item matches Item::Record(object, at) && object@ == o && at
                == next && pos <= at <= s@.len(),
        },
{
    let probe = [Kind::Int];
    proof {
        let one = probe@;
        assert(one.drop_last() =~= Seq::<Kind>::empty());
        assert(fields(s@, pos as int, one.drop_last()) == Some((Seq::<int>::empty(), pos as int)));
        assert(one.last() == Kind::Int);
    }
    if read_fields(s, pos, probe.as_slice()).is_none() {
        return Item::End;
    }
    let kinds_v4 = [
        Kind::Int,
        Kind::Int,
        Kind::Int,
        Kind::Int,
        Kind::Int,
        Kind::Short,
        Kind::Short,
        Kind::Short,
        Kind::Int,
        Kind::Length,
        Kind::Length,
        Kind::Length,
        Kind::Length,
    ];
    let kinds_v3 = [
        Kind::Int,
        Kind::Int,
        Kind::Int,
        Kind::Int,
        Kind::Int,
        Kind::Short,
        Kind::Short,
        Kind::Short,
        Kind::Length,
        Kind::Length,
        Kind::Length,
    ];
    proof {
        assert(kinds_v4@ =~= header_kinds(true));
        assert(kinds_v3@ =~= header_kinds(false));
    }
    let row = if v4 {
        read_fields(s, pos, kinds_v4.as_slice())
    } else {
        read_fields(s, pos, kinds_v3.as_slice())
    };
    let (v, at) = match row {
        None => {
            return Item::Bad;
        },
        Some(row) => row,
    };
    proof {
        lemma_fields_admitted(s@, pos as int, header_kinds(v4));
    }
    let first: usize = if v4 {
        9
    } else {
        8
    };
    let ghost kinds = header_kinds(v4);
    assert(kinds[first as int] == Kind::Length && kinds[first + 1] == Kind::Length && kinds[first
        + 2] == Kind::Length);
    assert(kinds[0] == Kind::Int && kinds[1] == Kind::Int && kinds[2] == Kind::Int && kinds[3]
        == Kind::Int && kinds[4] == Kind::Int && kinds[5] == Kind::Short && kinds[6]
        == Kind::Short && kinds[7] == Kind::Short);
    let name_len = v[first] as usize;
    let desc_len = v[first + 1] as usize;
    let action_len = v[first + 2] as usize;
    let mut left = s.len() - at;
    if name_len > left {
        return Item::Bad;
    }
    left = left - name_len;
    if desc_len > left {
        return Item::Bad;
    }
    left = left - desc_len;
    if action_len > left {
        return Item::Bad;
    }
    left = left - action_len;
    let name_end = at + name_len;
    let desc_end = name_end + desc_len;
    let action_end = desc_end + action_len;
    let mut type_: i32 = 0;
    let mut data_len: usize = 0;
    if v4 {
        assert(kinds[8] == Kind::Int && kinds[12] == Kind::Length);
        type_ = v[8] as i32;
        data_len = v[12] as usize;
        if data_len > left / 2 {
            return Item::Bad;
        }
    }
    let data_end = action_end + 2 * data_len;
    let data = match read_hex(s, action_end, data_len) {
        None => {
            return Item::Bad;
        },
        Some(data) => data,
    };
    let next = if s.len() - data_end >= 2 {
        data_end + 2
    } else {
        s.len()
    };
    Item::Record(
        Object {
            type_,
            id: 0,
            number: 0,
            citnum: v[0] as i32,
            time: v[1] as i32,
            x: v[2] as i32,
            y: v[3] as i32,
            z: v[4] as i32,
            yaw: v[5] as i16,
            tilt: v[6] as i16,
            roll: v[7] as i16,
            name: copy_range(s, at, name_end),
            desc: copy_range(s, name_end, desc_end),
            action: copy_range(s, desc_end, action_end),
            data,
        },
        next,
    )
}

/// The versions of the format.
#[derive(Copy, Clone, Debug, PartialEq, Eq, Structural)]
pub enum Version {
    Three,
    Four,
    Five,
}

/// The words `propdump version` and the space behind them.
pub open spec fn header_words() -> Seq<u8> {
    seq![
        0x70u8,
        0x72,
        0x6f,
        0x70,
        0x64,
        0x75,
        0x6d,
        0x70,
        0x20,
        0x76,
        0x65,
        0x72,
        0x73,
        0x69,
        0x6f,
        0x6e,
        0x20,
    ]
}

/// The digit that names a version in the header line.
pub open spec fn version_digit(version: Version) -> u8 {
    match version {
        Version::Three => 0x33,
        Version::Four => 0x34,
        Version::Five => 0x35,
    }
}

/// The header line of a version: the words, the version's digit, a carriage
/// return and a line feed.
pub open spec fn header_line(version: Version) -> Seq<u8> {
    header_words() + seq![version_digit(version), CARRIAGE_RETURN, LINE_FEED]
}

/// The text that the bytes stand for in the Windows-1252 encoding, in UTF-8.
/// It is what `encoding`'s decoder for that encoding makes of them when it
/// replaces what it cannot decode.
pub uninterp spec fn windows_1252_text(bytes: Seq<u8>) -> Seq<u8>;

/// The text that the bytes stand for as UTF-8, in UTF-8 again: what
/// `encoding`'s decoder for UTF-8 makes of them when it replaces what it
/// cannot decode.
pub uninterp spec fn utf_8_text(bytes: Seq<u8>) -> Seq<u8>;

/// `encoding::Encoding::decode` of `encoding::all::WINDOWS_1252`, with the
/// trap that replaces: the bytes as text. With that trap the decoder does not
/// fail. All that is claimed is that the text depends on the bytes alone.
#[verifier::external_body]
fn decode_windows_1252(bytes: &[u8]) -> (text: Vec<u8>)
    ensures
        text@ == windows_1252_text(bytes@),
{
    let text = encoding::all::WINDOWS_1252.decode(bytes, encoding::DecoderTrap::Replace);
    text.unwrap_or_default().into_bytes()
}

/// `encoding::Encoding::decode` of `encoding::all::UTF_8`, with the trap that
/// replaces: the bytes as text. With that trap the decoder does not fail. All
/// that is claimed is that the text depends on the bytes alone.
#[verifier::external_body]
fn decode_utf_8(bytes: &[u8]) -> (text: Vec<u8>)
    ensures
        text@ == utf_8_text(bytes@),
{
    let text = encoding::all::UTF_8.decode(bytes, encoding::DecoderTrap::Replace);
    text.unwrap_or_default().into_bytes()
}

/// An object with other texts: name, description and action are replaced,
/// all else stays.
pub open spec fn retexted(o: ObjectView, name: Seq<u8>, desc: Seq<u8>, action: Seq<u8>) -> ObjectView {
    ObjectView { name, desc, action, ..o }
}

/// Gives an object its texts once they are decoded.
pub fn with_text(raw: Object, name: Vec<u8>, desc: Vec<u8>, action: Vec<u8>) -> (o: Object)
    ensures
        o@ == retexted(raw@, name@, desc@, action@),
{
    Object { name, desc, action, ..raw }
}

/// A text of objects, known by its header line.
#[derive(Copy, Clone, Debug)]
pub struct Propdump {
    pub version: Version,
}

impl Propdump {
    /// True if records carry a type and data: only in the fourth version.
    pub open spec fn v4(self) -> bool {
        self.version == Version::Four
    }

    /// The text that bytes of a record stand for: UTF-8 in the fifth version,
    /// Windows-1252 before.
    pub open spec fn text(self, bytes: Seq<u8>) -> Seq<u8> {
        if self.version == Version::Five {
            utf_8_text(bytes)
        } else {
            windows_1252_text(bytes)
        }
    }

    /// The object of a record read as it stands: its texts decoded, the line
    /// ends of description and action restored before that.
    pub open spec fn object_of(self, raw: ObjectView) -> ObjectView {
        retexted(
            raw,
            self.text(raw.name),
            self.text(restored(raw.desc)),
            self.text(restored(raw.action)),
        )
    }

    /// Knows a text of objects by its first line, which has to be the header
    /// line of one of the three versions, line end included.
    pub fn new(first_line: &[u8]) -> (r: Option<Propdump>)
        ensures
            match r {
                Some(p) => first_line@ == header_line(p.version),
                None => forall|v: Version| first_line@ != header_line(v),
            },
    {
        let words: [u8; 17] = [
            0x70,
            0x72,
            0x6f,
            0x70,
            0x64,
            0x75,
            0x6d,
            0x70,
            0x20,
            0x76,
            0x65,
            0x72,
            0x73,
            0x69,
            0x6f,
            0x6e,
            0x20,
        ];
        proof {
            assert(words@ =~= header_words());
        }
        if first_line.len() != 20 {
            assert forall|v: Version| first_line@ != header_line(v) by {
                assert(header_line(v).len() == 20);
            }
            return None;
        }
        let mut i: usize = 0;
        while i < 17
            invariant
                i <= 17,
                first_line@.len() == 20,
                words@ == header_words(),
                forall|j: int| 0 <= j < i ==> first_line@[j] == header_words()[j],
            decreases 17 - i,
        {
            if first_line[i] != words[i] {
                assert forall|v: Version| first_line@ != header_line(v) by {
                    assert(header_line(v)[i as int] == header_words()[i as int]);
                }
                return None;
            }
            i += 1;
        }
        let version = if first_line[17] == 0x33 {
            Version::Three
        } else if first_line[17] == 0x34 {
            Version::Four
        } else if first_line[17] == 0x35 {
            Version::Five
        } else {
            assert forall|v: Version| first_line@ != header_line(v) by {
                assert(header_line(v)[17] == version_digit(v));
            }
            return None;
        };
        if first_line[18] != CARRIAGE_RETURN || first_line[19] != LINE_FEED {
            assert forall|v: Version| first_line@ != header_line(v) by {
                assert(header_line(v)[18] == CARRIAGE_RETURN);
                assert(header_line(v)[19] == LINE_FEED);
            }
            return None;
        }
        proof {
            assert(first_line@ =~= header_line(version));
        }
        Some(Propdump { version })
    }

    fn decode(&self, bytes: &[u8]) -> (text: Vec<u8>)
        ensures
            text@ == self.text(bytes@),
    {
        match self.version {
            Version::Five => decode_utf_8(bytes),
            _ => decode_windows_1252(bytes),
        }
    }

    /// Reads the object whose record begins at `pos` in `input`, the whole
    /// text of objects behind the header line.
    pub fn next(&self, input: &[u8], pos: usize) -> (item: Item)
        requires
            pos <= input@.len(),
        ensures
            match record_at(input@, pos as int, self.v4()) {
                Read::End => item is End,
                Read::Bad => item is Bad,
                Read::Record(raw, next) => item matches Item::Record(object, at) && object@
                    == self.object_of(raw) && at == next && pos <= at <= input@.len(),
            },
    {
        let v4 = match self.version {
            Version::Four => true,
            _ => false,
        };
        match read_record(input, pos, v4) {
            Item::End => Item::End,
            Item::Bad => Item::Bad,
            Item::Record(raw, at) => {
                let name = self.decode(raw.name.as_slice());
                let mut desc = raw.desc.clone();
                restore_newlines(&mut desc);
                let desc = self.decode(desc.as_slice());
                let mut action = raw.action.clone();
                restore_newlines(&mut action);
                let action = self.decode(action.as_slice());
                Item::Record(with_text(raw, name, desc, action), at)
            },
        }
    }
}

} // verus!
