//! Lexicographic order on byte strings and on header pairs.
use vstd::prelude::*;
use vstd::relations::*;

verus! {

/// `a` sorts before or equal to `b`, byte by byte, a proper prefix first.
pub open spec fn bytes_le(a: Seq<u8>, b: Seq<u8>) -> bool
    decreases a.len(),
{
    if a.len() == 0 {
        true
    } else if b.len() == 0 {
        false
    } else if a[0] != b[0] {
        a[0] < b[0]
    } else {
        bytes_le(a.drop_first(), b.drop_first())
    }
}

/// Header pairs ordered by name, then by value.
pub open spec fn header_le(x: (Seq<u8>, Seq<u8>), y: (Seq<u8>, Seq<u8>)) -> bool {
    if x.0 == y.0 {
        bytes_le(x.1, y.1)
    } else {
        bytes_le(x.0, y.0)
    }
}

pub open spec fn header_leq() -> spec_fn((Seq<u8>, Seq<u8>), (Seq<u8>, Seq<u8>)) -> bool {
    |x: (Seq<u8>, Seq<u8>), y: (Seq<u8>, Seq<u8>)| header_le(x, y)
}

proof fn lemma_bytes_le_reflexive(a: Seq<u8>)
    ensures
        bytes_le(a, a),
    decreases a.len(),
{
    if a.len() > 0 {
        lemma_bytes_le_reflexive(a.drop_first());
    }
}

proof fn lemma_bytes_le_antisymmetric(a: Seq<u8>, b: Seq<u8>)
    requires
        bytes_le(a, b),
        bytes_le(b, a),
    ensures
        a == b,
    decreases a.len(),
{
    if a.len() > 0 && b.len() > 0 {
        lemma_bytes_le_antisymmetric(a.drop_first(), b.drop_first());
        assert(a =~= seq![a[0]] + a.drop_first());
        assert(b =~= seq![b[0]] + b.drop_first());
    }
}

proof fn lemma_bytes_le_transitive(a: Seq<u8>, b: Seq<u8>, c: Seq<u8>)
    requires
        bytes_le(a, b),
        bytes_le(b, c),
    ensures
        bytes_le(a, c),
    decreases a.len(),
{
    if a.len() > 0 && b.len() > 0 && c.len() > 0 {
        if a[0] == b[0] && b[0] == c[0] {
            lemma_bytes_le_transitive(a.drop_first(), b.drop_first(), c.drop_first());
        }
    }
}

proof fn lemma_bytes_le_connected(a: Seq<u8>, b: Seq<u8>)
    ensures
        bytes_le(a, b) || bytes_le(b, a),
    decreases a.len(),
{
    if a.len() > 0 && b.len() > 0 && a[0] == b[0] {
        lemma_bytes_le_connected(a.drop_first(), b.drop_first());
    }
}

/// The header order is a total order, so sorting by it is canonical.
pub proof fn lemma_header_order_total()
    ensures
        total_ordering(header_leq()),
{
    assert forall|x: (Seq<u8>, Seq<u8>)| #[trigger] header_leq()(x, x) by {
        lemma_bytes_le_reflexive(x.1);
    }
    assert forall|x: (Seq<u8>, Seq<u8>), y: (Seq<u8>, Seq<u8>)|
        #[trigger] header_leq()(x, y) && #[trigger] header_leq()(y, x) implies x == y by {
        if x.0 == y.0 {
            lemma_bytes_le_antisymmetric(x.1, y.1);
        } else {
            lemma_bytes_le_antisymmetric(x.0, y.0);
        }
    }
    assert forall|x: (Seq<u8>, Seq<u8>), y: (Seq<u8>, Seq<u8>), z: (Seq<u8>, Seq<u8>)|
        #[trigger] header_leq()(x, y) && #[trigger] header_leq()(y, z) implies header_leq()(
        x,
        z,
    ) by {
        if x.0 == y.0 && y.0 == z.0 {
            lemma_bytes_le_transitive(x.1, y.1, z.1);
        } else if x.0 == y.0 {
            assert(bytes_le(y.0, z.0));
        } else if y.0 == z.0 {
            assert(bytes_le(x.0, y.0));
        } else {
            lemma_bytes_le_transitive(x.0, y.0, z.0);
            if x.0 == z.0 {
                lemma_bytes_le_antisymmetric(x.0, y.0);
            }
        }
    }
    assert forall|x: (Seq<u8>, Seq<u8>), y: (Seq<u8>, Seq<u8>)|
        #[trigger] header_leq()(x, y) || #[trigger] header_leq()(y, x) by {
        if x.0 == y.0 {
            lemma_bytes_le_connected(x.1, y.1);
        } else {
            lemma_bytes_le_connected(x.0, y.0);
        }
    }
}

/// Whether `a` sorts before or equal to `b`.
pub fn bytes_le_exec(a: &[u8], b: &[u8]) -> (r: bool)
    ensures
        r == bytes_le(a@, b@),
{
    let mut i: usize = 0;
    assert(a@.skip(0) =~= a@);
    assert(b@.skip(0) =~= b@);
    while i < a.len() && i < b.len()
        invariant
            i <= a.len(),
            i <= b.len(),
            bytes_le(a@, b@) == bytes_le(a@.skip(i as int), b@.skip(i as int)),
        decreases a.len() - i,
    {
        if a[i] != b[i] {
            assert(a@.skip(i as int)[0] == a[i as int]);
            assert(b@.skip(i as int)[0] == b[i as int]);
            return a[i] < b[i];
        }
        assert(a@.skip(i as int).drop_first() =~= a@.skip(i + 1));
        assert(b@.skip(i as int).drop_first() =~= b@.skip(i + 1));
        i = i + 1;
    }
    assert(i == a.len() ==> a@.skip(i as int).len() == 0);
    assert(i < a.len() ==> b@.skip(i as int).len() == 0 && a@.skip(i as int).len() > 0);
    i == a.len()
}

/// Whether header `x` sorts before or equal to header `y`.
pub fn header_le_exec(x: &(Vec<u8>, Vec<u8>), y: &(Vec<u8>, Vec<u8>)) -> (r: bool)
    ensures
        r == header_le(x.deep_view(), y.deep_view()),
{
    assert(x.0.deep_view() =~= x.0@ && x.1.deep_view() =~= x.1@);
    assert(y.0.deep_view() =~= y.0@ && y.1.deep_view() =~= y.1@);
    let same_name = bytes_le_exec(x.0.as_slice(), y.0.as_slice()) && bytes_le_exec(
        y.0.as_slice(),
        x.0.as_slice(),
    );
    proof {
        if same_name {
            lemma_bytes_le_antisymmetric(x.0@, y.0@);
        } else if x.0@ == y.0@ {
            lemma_bytes_le_reflexive(x.0@);
        }
    }
    if same_name {
        bytes_le_exec(x.1.as_slice(), y.1.as_slice())
    } else {
        bytes_le_exec(x.0.as_slice(), y.0.as_slice())
    }
}

} // verus!
