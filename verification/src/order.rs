//! The order of strings.

use vstd::prelude::*;
use vstd::utf8::encode_utf8;

verus! {

/// Whether bytes come before others or are the same: the first byte that differs
/// decides, and what is shorter comes first.
pub open spec fn bytes_ordered(a: Seq<u8>, b: Seq<u8>) -> bool
    decreases a.len(),
{
    if a.len() == 0 {
        true
    } else if b.len() == 0 {
        false
    } else if a[0] == b[0] {
        bytes_ordered(a.skip(1), b.skip(1))
    } else {
        a[0] < b[0]
    }
}

/// Whether a string comes before another or is the same, by the bytes that
/// encode it.
pub open spec fn ordered(a: Seq<char>, b: Seq<char>) -> bool {
    bytes_ordered(encode_utf8(a), encode_utf8(b))
}

/// Of two strings one comes first.
pub proof fn law_order_is_total(a: Seq<u8>, b: Seq<u8>)
    ensures
        bytes_ordered(a, b) || bytes_ordered(b, a),
    decreases a.len(),
{
    if a.len() > 0 && b.len() > 0 {
        law_order_is_total(a.skip(1), b.skip(1));
    }
}

/// What comes before a string comes before all that come behind it.
pub proof fn law_order_is_transitive(a: Seq<u8>, b: Seq<u8>, c: Seq<u8>)
    requires
        bytes_ordered(a, b),
        bytes_ordered(b, c),
    ensures
        bytes_ordered(a, c),
    decreases a.len(),
{
    if a.len() > 0 && a[0] == b[0] && b[0] == c[0] {
        law_order_is_transitive(a.skip(1), b.skip(1), c.skip(1));
    }
}

/// Strings that come before each other are the same.
pub proof fn law_order_is_strict(a: Seq<u8>, b: Seq<u8>)
    requires
        bytes_ordered(a, b),
        bytes_ordered(b, a),
    ensures
        a == b,
    decreases a.len(),
{
    if a.len() == 0 || b.len() == 0 {
        assert(a =~= b);
    } else {
        law_order_is_strict(a.skip(1), b.skip(1));
        assert(a =~= seq![a[0]] + a.skip(1));
        assert(b =~= seq![b[0]] + b.skip(1));
    }
}

/// What comes first: the beginning of a string before all of it, and at the first
/// byte that differs the smaller one.
pub proof fn law_first_difference_decides(front: Seq<u8>, x: u8, y: u8, a: Seq<u8>, b: Seq<u8>)
    ensures
        bytes_ordered(front, front + a),
        bytes_ordered(front + seq![x] + a, front + seq![y] + b) <==> x < y || (x == y
            && bytes_ordered(a, b)),
    decreases front.len(),
{
    let s = front + seq![x] + a;
    let t = front + seq![y] + b;
    if front.len() == 0 {
        assert(s.skip(1) =~= a);
        assert(t.skip(1) =~= b);
    } else {
        let rest = front.skip(1);
        law_first_difference_decides(rest, x, y, a, b);
        assert(s.skip(1) =~= rest + seq![x] + a);
        assert(t.skip(1) =~= rest + seq![y] + b);
        assert((front + a).skip(1) =~= rest + a);
    }
}

/// Whether a string comes before another or is the same.
pub fn is_ordered(a: &str, b: &str) -> (r: bool)
    ensures
        r == ordered(a@, b@),
{
    let x = a.as_bytes();
    let y = b.as_bytes();
    let mut i: usize = 0;
    assert(x@.skip(0) =~= x@);
    assert(y@.skip(0) =~= y@);
    while i < x.len() && i < y.len()
        invariant
            i <= x@.len(),
            i <= y@.len(),
            x@ == encode_utf8(a@),
            y@ == encode_utf8(b@),
            bytes_ordered(x@, y@) == bytes_ordered(x@.skip(i as int), y@.skip(i as int)),
        decreases x@.len() - i,
    {
        assert(x@.skip(i as int)[0] == x@[i as int]);
        assert(y@.skip(i as int)[0] == y@[i as int]);
        if x[i] != y[i] {
            return x[i] < y[i];
        }
        assert(x@.skip(i as int).skip(1) =~= x@.skip(i + 1));
        assert(y@.skip(i as int).skip(1) =~= y@.skip(i + 1));
        i = i + 1;
    }
    i >= x.len()
}

} // verus!
