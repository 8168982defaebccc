//! Reading fields and decimal numbers out of lines of text, byte by byte.

use vstd::prelude::*;

verus! {

pub const SPACE: u8 = 32;

/// The first space in `b` at or after `i`, or the end of `b`.
pub open spec fn next_space(b: Seq<u8>, i: int) -> int
    decreases b.len() - i,
{
    if i >= b.len() {
        b.len() as int
    } else if b[i] == SPACE {
        i
    } else {
        next_space(b, i + 1)
    }
}

/// The fields of `b` from position `i` on, split at each single space.
pub open spec fn fields_from(b: Seq<u8>, i: int) -> Seq<Seq<u8>>
    decreases b.len() - i,
{
    let j = next_space(b, i);
    if i < 0 || j >= b.len() || j < i {
        seq![b.subrange(i, b.len() as int)]
    } else {
        seq![b.subrange(i, j)] + fields_from(b, j + 1)
    }
}

/// The fields of `b`, split at each single space; `n` spaces give `n + 1` fields.
pub open spec fn fields_of(b: Seq<u8>) -> Seq<Seq<u8>> {
    fields_from(b, 0)
}

pub open spec fn is_digit(c: u8) -> bool {
    48 <= c <= 57
}

/// The number that the decimal digits `d` spell.
pub open spec fn digits_value(d: Seq<u8>) -> int
    decreases d.len(),
{
    if d.len() == 0 {
        0
    } else {
        digits_value(d.drop_last()) * 10 + (d.last() - 48)
    }
}

/// A field without its leading `+`, if it has one.
pub open spec fn unsigned_part(f: Seq<u8>) -> Seq<u8> {
    if f.len() > 0 && f[0] == 43 {
        f.drop_first()
    } else {
        f
    }
}

pub open spec fn all_digits(d: Seq<u8>) -> bool {
    forall|i: int| 0 <= i < d.len() ==> is_digit(#[trigger] d[i])
}

/// What a 32-bit unsigned decimal field holds: an optional `+`, then one or
/// more digits whose value fits in 32 bits.
pub open spec fn decimal_u32(f: Seq<u8>) -> Option<u32> {
    let d = unsigned_part(f);
    if d.len() > 0 && all_digits(d) && digits_value(d) <= u32::MAX {
        Some(digits_value(d) as u32)
    } else {
        None
    }
}

pub proof fn lemma_next_space_bounds(b: Seq<u8>, i: int)
    requires
        0 <= i <= b.len(),
    ensures
        i <= next_space(b, i) <= b.len(),
        next_space(b, i) < b.len() ==> b[next_space(b, i)] == SPACE,
        forall|k: int| i <= k < next_space(b, i) ==> b[k] != SPACE,
    decreases b.len() - i,
{
    if i < b.len() && b[i] != SPACE {
        lemma_next_space_bounds(b, i + 1);
    }
}

pub proof fn lemma_digits_value_prefix(d: Seq<u8>, k: int)
    requires
        0 <= k <= d.len(),
        forall|i: int| 0 <= i < d.len() ==> is_digit(#[trigger] d[i]),
    ensures
        0 <= digits_value(d.subrange(0, k)) <= digits_value(d),
    decreases d.len(),
{
    if d.len() > 0 {
        if k < d.len() {
            lemma_digits_value_prefix(d.drop_last(), k);
            assert(d.drop_last().subrange(0, k) =~= d.subrange(0, k));
        } else {
            assert(d.subrange(0, k) =~= d);
            lemma_digits_value_prefix(d.drop_last(), k - 1);
            assert(d.drop_last().subrange(0, k - 1) =~= d.drop_last());
        }
    }
}

/// The first space in `b` at or after `i`, or the end of `b`.
pub fn find_space(b: &[u8], i: usize) -> (j: usize)
    requires
        i <= b@.len(),
    ensures
        j as int == next_space(b@, i as int),
{
    let mut j = i;
    while j < b.len() && b[j] != SPACE
        invariant
            i <= j <= b@.len(),
            next_space(b@, i as int) == next_space(b@, j as int),
        decreases b@.len() - j,
    {
        j = j + 1;
    }
    j
}

/// The value of the decimal field `b[start..end]`, read as `u32::from_str` reads it.
pub fn parse_decimal_u32(b: &[u8], start: usize, end: usize) -> (r: Option<u32>)
    requires
        start <= end <= b@.len(),
    ensures
        r == decimal_u32(b@.subrange(start as int, end as int)),
{
    let ghost f = b@.subrange(start as int, end as int);
    let mut s = start;
    if s < end && b[s] == 43 {
        s = s + 1;
    }
    let ghost d = b@.subrange(s as int, end as int);
    assert(d =~= unsigned_part(f));
    if s == end {
        return None;
    }
    let mut i = s;
    while i < end
        invariant
            s <= i <= end <= b@.len(),
            d == b@.subrange(s as int, end as int),
            f == b@.subrange(start as int, end as int),
            d == unsigned_part(f),
            forall|k: int| 0 <= k < i - s ==> is_digit(#[trigger] d[k]),
        decreases end - i,
    {
        if b[i] < 48 || b[i] > 57 {
            assert(!is_digit(d[i - s]));
            assert(!all_digits(d));
            return None;
        }
        i = i + 1;
    }
    let mut value: u64 = 0;
    let mut i = s;
    while i < end
        invariant
            s <= i <= end <= b@.len(),
            d == b@.subrange(s as int, end as int),
            f == b@.subrange(start as int, end as int),
            d == unsigned_part(f),
            forall|k: int| 0 <= k < d.len() ==> is_digit(#[trigger] d[k]),
            value as int == digits_value(d.subrange(0, i - s)),
            value <= u32::MAX,
        decreases end - i,
    {
        proof {
            assert(d.subrange(0, i - s + 1).drop_last() =~= d.subrange(0, i - s));
            assert(is_digit(d[i - s]));
        }
        value = value * 10 + (b[i] - 48) as u64;
        i = i + 1;
        if value > u32::MAX as u64 {
            proof {
                lemma_digits_value_prefix(d, i - s);
                assert(digits_value(d) > u32::MAX);
            }
            return None;
        }
    }
    assert(d.subrange(0, i - s) =~= d);
    Some(value as u32)
}

} // verus!
