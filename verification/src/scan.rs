//! Scanning bytes: the first place of a byte, and white space at both ends.

use vstd::prelude::*;

verus! {

/// The first index at which `s` holds `b`, or the length of `s` if it holds
/// `b` nowhere.
pub open spec fn first_index_of(s: Seq<u8>, b: u8) -> int
    decreases s.len(),
{
    if s.len() == 0 || s[0] == b {
        0
    } else {
        1 + first_index_of(s.drop_first(), b)
    }
}

/// What [`first_index_of`] returns: no byte before it is `b`, and the byte at
/// it is `b` unless it is the length.
pub proof fn lemma_first_index_of(s: Seq<u8>, b: u8)
    ensures
        0 <= first_index_of(s, b) <= s.len(),
        forall|j: int| 0 <= j < first_index_of(s, b) ==> s[j] != b,
        first_index_of(s, b) < s.len() ==> s[first_index_of(s, b)] == b,
    decreases s.len(),
{
    if s.len() > 0 && s[0] != b {
        let t = s.drop_first();
        lemma_first_index_of(t, b);
        assert forall|j: int| 0 <= j < first_index_of(s, b) implies s[j] != b by {
            if j > 0 {
                assert(s[j] == t[j - 1]);
            }
        }
    }
}

/// [`first_index_of`] is the only index of which that holds.
pub proof fn lemma_first_index_of_unique(s: Seq<u8>, b: u8, i: int)
    requires
        0 <= i <= s.len(),
        forall|j: int| 0 <= j < i ==> s[j] != b,
        i < s.len() ==> s[i] == b,
    ensures
        first_index_of(s, b) == i,
    decreases s.len(),
{
    if i > 0 {
        let t = s.drop_first();
        assert forall|j: int| 0 <= j < i - 1 implies t[j] != b by {}
        lemma_first_index_of_unique(t, b, i - 1);
    }
}

/// Finds the first `b` in `s`.
pub fn find_byte(s: &[u8], b: u8) -> (i: usize)
    ensures
        i == first_index_of(s@, b),
        i <= s@.len(),
{
    let mut i: usize = 0;
    while i < s.len() && s[i] != b
        invariant
            i <= s.len(),
            forall|j: int| 0 <= j < i ==> s@[j] != b,
        decreases s.len() - i,
    {
        i += 1;
    }
    proof {
        lemma_first_index_of_unique(s@, b, i as int);
    }
    i
}

/// A white-space character of one byte: tab, line feed, vertical tab, form
/// feed, carriage return or space.
pub open spec fn is_space1(a: u8) -> bool {
    (0x09 <= a && a <= 0x0d) || a == 0x20
}

/// A white-space character of two bytes: U+0085 or U+00A0.
pub open spec fn is_space2(a: u8, b: u8) -> bool {
    a == 0xc2 && (b == 0x85 || b == 0xa0)
}

/// A white-space character of three bytes: U+1680, U+2000 to U+200A, U+2028,
/// U+2029, U+202F, U+205F or U+3000.
pub open spec fn is_space3(a: u8, b: u8, c: u8) -> bool {
    ||| a == 0xe1 && b == 0x9a && c == 0x80
    ||| a == 0xe2 && b == 0x80 && ((0x80 <= c && c <= 0x8a) || c == 0xa8 || c == 0xa9 || c == 0xaf)
    ||| a == 0xe2 && b == 0x81 && c == 0x9f
    ||| a == 0xe3 && b == 0x80 && c == 0x80
}

/// The number of bytes of the white-space character that `s` begins with, or
/// 0 if it begins with none.
pub open spec fn leading_space_len(s: Seq<u8>) -> int {
    if s.len() >= 1 && is_space1(s[0]) {
        1
    } else if s.len() >= 2 && is_space2(s[0], s[1]) {
        2
    } else if s.len() >= 3 && is_space3(s[0], s[1], s[2]) {
        3
    } else {
        0
    }
}

/// The number of bytes of the white-space character that `s` ends with, or 0
/// if it ends with none.
pub open spec fn trailing_space_len(s: Seq<u8>) -> int {
    let n = s.len() as int;
    if n >= 1 && is_space1(s[n - 1]) {
        1
    } else if n >= 2 && is_space2(s[n - 2], s[n - 1]) {
        2
    } else if n >= 3 && is_space3(s[n - 3], s[n - 2], s[n - 1]) {
        3
    } else {
        0
    }
}

/// `s` without the white space that it begins with.
pub open spec fn trim_start(s: Seq<u8>) -> Seq<u8>
    decreases s.len(),
{
    if leading_space_len(s) == 0 {
        s
    } else {
        trim_start(s.skip(leading_space_len(s)))
    }
}

/// `s` without the white space that it ends with.
pub open spec fn trim_end(s: Seq<u8>) -> Seq<u8>
    decreases s.len(),
{
    if trailing_space_len(s) == 0 {
        s
    } else {
        trim_end(s.take(s.len() - trailing_space_len(s)))
    }
}

/// `s` without the white space at both ends.
pub open spec fn trim(s: Seq<u8>) -> Seq<u8> {
    trim_end(trim_start(s))
}

/// The number of bytes of the white-space character at `lo`, within
/// `s[lo..hi]`.
fn space_at_start(s: &[u8], lo: usize, hi: usize) -> (n: usize)
    requires
        lo <= hi <= s@.len(),
    ensures
        n == leading_space_len(s@.subrange(lo as int, hi as int)),
        n <= hi - lo,
{
    let len = hi - lo;
    if len >= 1 && ((0x09 <= s[lo] && s[lo] <= 0x0d) || s[lo] == 0x20) {
        1
    } else if len >= 2 && s[lo] == 0xc2 && (s[lo + 1] == 0x85 || s[lo + 1] == 0xa0) {
        2
    } else if len >= 3 && is_space3_exec(s[lo], s[lo + 1], s[lo + 2]) {
        3
    } else {
        0
    }
}

/// The number of bytes of the white-space character that ends at `hi`, within
/// `s[lo..hi]`.
fn space_at_end(s: &[u8], lo: usize, hi: usize) -> (n: usize)
    requires
        lo <= hi <= s@.len(),
    ensures
        n == trailing_space_len(s@.subrange(lo as int, hi as int)),
        n <= hi - lo,
{
    let len = hi - lo;
    if len >= 1 && ((0x09 <= s[hi - 1] && s[hi - 1] <= 0x0d) || s[hi - 1] == 0x20) {
        1
    } else if len >= 2 && s[hi - 2] == 0xc2 && (s[hi - 1] == 0x85 || s[hi - 1] == 0xa0) {
        2
    } else if len >= 3 && is_space3_exec(s[hi - 3], s[hi - 2], s[hi - 1]) {
        3
    } else {
        0
    }
}

fn is_space3_exec(a: u8, b: u8, c: u8) -> (r: bool)
    ensures
        r == is_space3(a, b, c),
{
    (a == 0xe1 && b == 0x9a && c == 0x80) || (a == 0xe2 && b == 0x80 && ((0x80 <= c && c <= 0x8a)
        || c == 0xa8 || c == 0xa9 || c == 0xaf)) || (a == 0xe2 && b == 0x81 && c == 0x9f) || (a
        == 0xe3 && b == 0x80 && c == 0x80)
}

/// Trims `s[lo..hi]`: returns the bounds of what is left.
pub fn trim_range(s: &[u8], lo: usize, hi: usize) -> (r: (usize, usize))
    requires
        lo <= hi <= s@.len(),
    ensures
        lo <= r.0 <= r.1 <= hi,
        s@.subrange(r.0 as int, r.1 as int) == trim(s@.subrange(lo as int, hi as int)),
{
    let mut a = lo;
    loop
        invariant
            lo <= a <= hi <= s@.len(),
            trim_start(s@.subrange(a as int, hi as int)) == trim_start(
                s@.subrange(lo as int, hi as int),
            ),
        ensures
            lo <= a <= hi,
            s@.subrange(a as int, hi as int) == trim_start(s@.subrange(lo as int, hi as int)),
        decreases hi - a,
    {
        let n = space_at_start(s, a, hi);
        if n == 0 {
            break;
        }
        assert(s@.subrange(a as int, hi as int).skip(n as int) =~= s@.subrange(
            a + n as int,
            hi as int,
        ));
        a += n;
    }
    let mut b = hi;
    loop
        invariant
            a <= b <= hi <= s@.len(),
            trim_end(s@.subrange(a as int, b as int)) == trim_end(s@.subrange(a as int, hi as int)),
        ensures
            a <= b <= hi,
            s@.subrange(a as int, b as int) == trim_end(s@.subrange(a as int, hi as int)),
        decreases b - a,
    {
        let n = space_at_end(s, a, b);
        if n == 0 {
            break;
        }
        assert(s@.subrange(a as int, b as int).take(b - a - n) =~= s@.subrange(
            a as int,
            b - n as int,
        ));
        b -= n;
    }
    (a, b)
}

} // verus!
