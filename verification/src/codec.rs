//! Big-endian byte layout of fixed-width integers and the byte-wise
//! lexicographic order in which the storage engine keeps keys.

use vstd::prelude::*;

verus! {

/// The eight bytes of `x`, most significant first.
pub open spec fn u64_be(x: u64) -> Seq<u8> {
    seq![
        (x >> 56u64) as u8,
        (x >> 48u64) as u8,
        (x >> 40u64) as u8,
        (x >> 32u64) as u8,
        (x >> 24u64) as u8,
        (x >> 16u64) as u8,
        (x >> 8u64) as u8,
        x as u8,
    ]
}

/// The integer whose big-endian bytes are `b[0..8]`.
pub open spec fn u64_from_be(b: Seq<u8>) -> u64 {
    ((b[0] as u64) << 56u64) | ((b[1] as u64) << 48u64) | ((b[2] as u64) << 40u64) | ((
    b[3] as u64) << 32u64) | ((b[4] as u64) << 24u64) | ((b[5] as u64) << 16u64) | ((
    b[6] as u64) << 8u64) | (b[7] as u64)
}

/// Appends the big-endian bytes of `x` to `out`.
pub fn push_u64_be(out: &mut Vec<u8>, x: u64)
    ensures
        final(out)@ == old(out)@ + u64_be(x),
{
    out.push((x >> 56u64) as u8);
    out.push((x >> 48u64) as u8);
    out.push((x >> 40u64) as u8);
    out.push((x >> 32u64) as u8);
    out.push((x >> 24u64) as u8);
    out.push((x >> 16u64) as u8);
    out.push((x >> 8u64) as u8);
    out.push(x as u8);
    assert(out@ =~= old(out)@ + u64_be(x));
}

/// Reads the big-endian integer held in `bytes[start..start + 8]`.
pub fn read_u64_be(bytes: &[u8], start: usize) -> (r: u64)
    requires
        start + 8 <= bytes@.len(),
    ensures
        r == u64_from_be(bytes@.subrange(start as int, start + 8)),
{
    let ghost w = bytes@.subrange(start as int, start + 8);
    assert(w[0] == bytes@[start as int]);
    ((bytes[start] as u64) << 56u64) | ((bytes[start + 1] as u64) << 48u64) | ((bytes[start
        + 2] as u64) << 40u64) | ((bytes[start + 3] as u64) << 32u64) | ((bytes[start + 4]
        as u64) << 24u64) | ((bytes[start + 5] as u64) << 16u64) | ((bytes[start + 6] as u64)
        << 8u64) | (bytes[start + 7] as u64)
}

/// Reading back the bytes written for `x` gives `x`.
pub proof fn lemma_u64_be_roundtrip(x: u64)
    ensures
        u64_from_be(u64_be(x)) == x,
        u64_be(x).len() == 8,
{
    let b = u64_be(x);
    let (b0, b1, b2, b3, b4, b5, b6, b7) = (b[0], b[1], b[2], b[3], b[4], b[5], b[6], b[7]);
    assert(((b0 as u64) << 56u64) | ((b1 as u64) << 48u64) | ((b2 as u64) << 40u64) | ((
    b3 as u64) << 32u64) | ((b4 as u64) << 24u64) | ((b5 as u64) << 16u64) | ((b6 as u64)
        << 8u64) | (b7 as u64) == x) by (bit_vector)
        requires
            b0 == (x >> 56u64) as u8,
            b1 == (x >> 48u64) as u8,
            b2 == (x >> 40u64) as u8,
            b3 == (x >> 32u64) as u8,
            b4 == (x >> 24u64) as u8,
            b5 == (x >> 16u64) as u8,
            b6 == (x >> 8u64) as u8,
            b7 == x as u8,
    ;
}

/// Writing out the integer read from eight bytes gives those bytes back.
pub proof fn lemma_be_u64_roundtrip(b: Seq<u8>)
    requires
        b.len() == 8,
    ensures
        u64_be(u64_from_be(b)) == b,
{
    let x = u64_from_be(b);
    let (b0, b1, b2, b3, b4, b5, b6, b7) = (b[0], b[1], b[2], b[3], b[4], b[5], b[6], b[7]);
    assert({
        &&& (x >> 56u64) as u8 == b0
        &&& (x >> 48u64) as u8 == b1
        &&& (x >> 40u64) as u8 == b2
        &&& (x >> 32u64) as u8 == b3
        &&& (x >> 24u64) as u8 == b4
        &&& (x >> 16u64) as u8 == b5
        &&& (x >> 8u64) as u8 == b6
        &&& x as u8 == b7
    }) by (bit_vector)
        requires
            x == ((b0 as u64) << 56u64) | ((b1 as u64) << 48u64) | ((b2 as u64) << 40u64) | ((
            b3 as u64) << 32u64) | ((b4 as u64) << 24u64) | ((b5 as u64) << 16u64) | ((
            b6 as u64) << 8u64) | (b7 as u64),
    ;
    assert(u64_be(x) =~= b);
}


/// Byte-wise lexicographic order, the order in which the storage engine
/// keeps and scans keys: `a` sorts before `b` when at the first position
/// where they differ `a` holds the smaller byte, or when `a` is a proper
/// prefix of `b`.
pub open spec fn lex_lt(a: Seq<u8>, b: Seq<u8>) -> bool {
    ||| exists|i: int|
        0 <= i < a.len() && i < b.len() && a.take(i) == b.take(i) && #[trigger] a[i] < #[trigger] b[i]
    ||| a.len() < b.len() && b.take(a.len() as int) == a
}

/// Big-endian bytes sort as the integers do.
pub proof fn lemma_u64_be_order(x: u64, y: u64)
    ensures
        lex_lt(u64_be(x), u64_be(y)) <==> x < y,
{
    let a = u64_be(x);
    let b = u64_be(y);
    let (x0, x1, x2, x3, x4, x5, x6, x7) = (a[0], a[1], a[2], a[3], a[4], a[5], a[6], a[7]);
    let (y0, y1, y2, y3, y4, y5, y6, y7) = (b[0], b[1], b[2], b[3], b[4], b[5], b[6], b[7]);
    assert(x < y <==> (x0 < y0
        || (x0 == y0 && x1 < y1)
        || (x0 == y0 && x1 == y1 && x2 < y2)
        || (x0 == y0 && x1 == y1 && x2 == y2 && x3 < y3)
        || (x0 == y0 && x1 == y1 && x2 == y2 && x3 == y3 && x4 < y4)
        || (x0 == y0 && x1 == y1 && x2 == y2 && x3 == y3 && x4 == y4 && x5 < y5)
        || (x0 == y0 && x1 == y1 && x2 == y2 && x3 == y3 && x4 == y4 && x5 == y5 && x6 < y6)
        || (x0 == y0 && x1 == y1 && x2 == y2 && x3 == y3 && x4 == y4 && x5 == y5 && x6 == y6
        && x7 < y7))) by (bit_vector)
        requires
            x0 == (x >> 56u64) as u8,
            x1 == (x >> 48u64) as u8,
            x2 == (x >> 40u64) as u8,
            x3 == (x >> 32u64) as u8,
            x4 == (x >> 24u64) as u8,
            x5 == (x >> 16u64) as u8,
            x6 == (x >> 8u64) as u8,
            x7 == x as u8,
            y0 == (y >> 56u64) as u8,
            y1 == (y >> 48u64) as u8,
            y2 == (y >> 40u64) as u8,
            y3 == (y >> 32u64) as u8,
            y4 == (y >> 24u64) as u8,
            y5 == (y >> 16u64) as u8,
            y6 == (y >> 8u64) as u8,
            y7 == y as u8,
    ;
    if x < y {
        let i: int = if x0 != y0 {
            0
        } else if x1 != y1 {
            1
        } else if x2 != y2 {
            2
        } else if x3 != y3 {
            3
        } else if x4 != y4 {
            4
        } else if x5 != y5 {
            5
        } else if x6 != y6 {
            6
        } else {
            7
        };
        assert(a.take(i) =~= b.take(i));
        assert(a[i] < b[i]);
    }
    if lex_lt(a, b) {
        let i = choose|i: int|
            0 <= i < a.len() && i < b.len() && a.take(i) == b.take(i) && #[trigger] a[i]
                < #[trigger] b[i];
        assert forall|j: int| 0 <= j < i implies a[j] == b[j] by {
            assert(a.take(i)[j] == b.take(i)[j]);
        }
        if i == 0 {
        } else if i == 1 {
            assert(a[0] == b[0]);
        } else if i == 2 {
            assert(a[0] == b[0] && a[1] == b[1]);
        } else if i == 3 {
            assert(a[0] == b[0] && a[1] == b[1] && a[2] == b[2]);
        } else if i == 4 {
            assert(a[0] == b[0] && a[1] == b[1] && a[2] == b[2] && a[3] == b[3]);
        } else if i == 5 {
            assert(a[0] == b[0] && a[1] == b[1] && a[2] == b[2] && a[3] == b[3] && a[4] == b[4]);
        } else if i == 6 {
            assert(a[0] == b[0] && a[1] == b[1] && a[2] == b[2] && a[3] == b[3] && a[4] == b[4]
                && a[5] == b[5]);
        } else {
            assert(a[0] == b[0] && a[1] == b[1] && a[2] == b[2] && a[3] == b[3] && a[4] == b[4]
                && a[5] == b[5] && a[6] == b[6]);
        }
    }
}

/// Comparing two concatenations whose first parts have the same length
/// compares the first parts, and the second parts only where the first
/// parts are equal.
pub proof fn lemma_lex_concat(a: Seq<u8>, c: Seq<u8>, b: Seq<u8>, d: Seq<u8>)
    requires
        a.len() == b.len(),
    ensures
        lex_lt(a + c, b + d) <==> (lex_lt(a, b) || (a == b && lex_lt(c, d))),
{
    let n = a.len() as int;
    let l = a + c;
    let r = b + d;
    if lex_lt(a, b) {
        let i = choose|i: int|
            0 <= i < a.len() && i < b.len() && a.take(i) == b.take(i) && #[trigger] a[i]
                < #[trigger] b[i];
        assert(l.take(i) =~= a.take(i));
        assert(r.take(i) =~= b.take(i));
        assert(l[i] == a[i] && r[i] == b[i]);
    }
    if a == b && lex_lt(c, d) {
        if exists|j: int|
            0 <= j < c.len() && j < d.len() && c.take(j) == d.take(j) && #[trigger] c[j]
                < #[trigger] d[j] {
            let j = choose|j: int|
                0 <= j < c.len() && j < d.len() && c.take(j) == d.take(j) && #[trigger] c[j]
                    < #[trigger] d[j];
            assert(l.take(n + j) =~= a + c.take(j));
            assert(r.take(n + j) =~= b + d.take(j));
            assert(l[n + j] == c[j] && r[n + j] == d[j]);
        } else {
            assert(r.take(l.len() as int) =~= b + d.take(c.len() as int));
        }
    }
    if lex_lt(l, r) {
        if exists|i: int|
            0 <= i < l.len() && i < r.len() && l.take(i) == r.take(i) && #[trigger] l[i]
                < #[trigger] r[i] {
            let i = choose|i: int|
                0 <= i < l.len() && i < r.len() && l.take(i) == r.take(i) && #[trigger] l[i]
                    < #[trigger] r[i];
            if i < n {
                assert(a.take(i) =~= l.take(i));
                assert(b.take(i) =~= r.take(i));
                assert(a[i] == l[i] && b[i] == r[i]);
                assert(lex_lt(a, b));
            } else {
                assert forall|k: int| 0 <= k < n implies a[k] == b[k] by {
                    assert(l.take(i)[k] == r.take(i)[k]);
                }
                assert(a =~= b);
                let j = i - n;
                assert forall|k: int| 0 <= k < j implies c[k] == d[k] by {
                    assert(l.take(i)[n + k] == r.take(i)[n + k]);
                }
                assert(c.take(j) =~= d.take(j));
                assert(c[j] == l[i] && d[j] == r[i]);
                assert(lex_lt(c, d));
            }
        } else {
            assert(l.len() < r.len() && r.take(l.len() as int) == l);
            assert forall|k: int| 0 <= k < n implies a[k] == b[k] by {
                assert(r.take(l.len() as int)[k] == l[k]);
            }
            assert(a =~= b);
            assert forall|k: int| 0 <= k < c.len() implies d[k] == c[k] by {
                assert(r.take(l.len() as int)[n + k] == l[n + k]);
            }
            assert(d.take(c.len() as int) =~= c);
        }
    }
}

} // verus!
