//! Looking for a byte in a text.
use vstd::prelude::*;

verus! {

/// The space, which parts the fields of a line.
pub const SPACE: u8 = 0x20;

/// The first place at or after `from` where `s` holds the byte `b`, or the
/// length of `s` if there is none.
pub open spec fn find(s: Seq<u8>, b: u8, from: int) -> int
    decreases s.len() - from,
{
    if from >= s.len() {
        s.len() as int
    } else if s[from] == b {
        from
    } else {
        find(s, b, from + 1)
    }
}

/// A byte is found at or after the place where the search begins.
pub proof fn lemma_find_bounds(s: Seq<u8>, b: u8, from: int)
    requires
        0 <= from <= s.len(),
    ensures
        from <= find(s, b, from) <= s.len(),
    decreases s.len() - from,
{
    if from < s.len() && s[from] != b {
        lemma_find_bounds(s, b, from + 1);
    }
}

/// Finds the byte `b` in the first `end` bytes of `s`, from `from` on.
pub fn find_byte(s: &[u8], b: u8, from: usize, end: usize) -> (at: usize)
    requires
        from <= end <= s@.len(),
    ensures
        at == find(s@.take(end as int), b, from as int),
        from <= at <= end,
{
    let mut i = from;
    while i < end && s[i] != b
        invariant
            from <= i <= end <= s@.len(),
            find(s@.take(end as int), b, from as int) == find(s@.take(end as int), b, i as int),
        decreases end - i,
    {
        i += 1;
    }
    i
}

} // verus!
