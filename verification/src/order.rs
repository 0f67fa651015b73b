use vstd::prelude::*;
use vstd::utf8::{encode_utf8, encode_utf8_decode_utf8};

verus! {

/// Whether `x` comes before `y` when byte sequences are ordered like words
/// in a dictionary.
pub open spec fn bytes_before(x: Seq<u8>, y: Seq<u8>) -> bool
    decreases x.len(),
{
    if y.len() == 0 {
        false
    } else if x.len() == 0 {
        true
    } else if x[0] != y[0] {
        x[0] < y[0]
    } else {
        bytes_before(x.drop_first(), y.drop_first())
    }
}

/// Whether the name `a` is sorted before the name `b`: by the bytes of
/// their UTF-8 encodings.
pub open spec fn name_before(a: Seq<char>, b: Seq<char>) -> bool {
    bytes_before(encode_utf8(a), encode_utf8(b))
}

/// How one name stands to another in the sorting order.
#[derive(Debug, PartialEq, Eq, Clone, Copy, Structural)]
pub enum Relation {
    Before,
    Same,
    After,
}

/// No byte sequence comes before itself.
pub proof fn lemma_bytes_before_irreflexive(x: Seq<u8>)
    ensures
        !bytes_before(x, x),
    decreases x.len(),
{
    if x.len() > 0 {
        lemma_bytes_before_irreflexive(x.drop_first());
    }
}

/// Of two different byte sequences exactly one comes before the other.
pub proof fn lemma_bytes_before_total(x: Seq<u8>, y: Seq<u8>)
    ensures
        x != y ==> (bytes_before(x, y) <==> !bytes_before(y, x)),
        x == y ==> !bytes_before(x, y) && !bytes_before(y, x),
    decreases x.len(),
{
    if x == y {
        lemma_bytes_before_irreflexive(x);
    } else if x.len() == 0 && y.len() == 0 {
        assert(x =~= y);
    } else if x.len() > 0 && y.len() > 0 && x[0] == y[0] {
        lemma_bytes_before_total(x.drop_first(), y.drop_first());
        if x.drop_first() == y.drop_first() {
            assert(x == seq![x[0]] + x.drop_first());
            assert(y == seq![y[0]] + y.drop_first());
        }
    }
}

/// What comes before something that comes before a third comes before the
/// third.
pub proof fn lemma_bytes_before_transitive(x: Seq<u8>, y: Seq<u8>, z: Seq<u8>)
    requires
        bytes_before(x, y),
        bytes_before(y, z),
    ensures
        bytes_before(x, z),
    decreases x.len(),
{
    if x.len() > 0 && x[0] == y[0] && y[0] == z[0] {
        lemma_bytes_before_transitive(x.drop_first(), y.drop_first(), z.drop_first());
    }
}

/// Two names with the same UTF-8 encoding are the same name.
pub proof fn lemma_encoding_tells_names_apart(a: Seq<char>, b: Seq<char>)
    requires
        encode_utf8(a) == encode_utf8(b),
    ensures
        a == b,
{
    encode_utf8_decode_utf8(a);
    encode_utf8_decode_utf8(b);
}

/// No name is sorted before itself, and of two different names exactly one
/// is sorted before the other.
pub proof fn lemma_name_before_total(a: Seq<char>, b: Seq<char>)
    ensures
        a != b ==> (name_before(a, b) <==> !name_before(b, a)),
        a == b ==> !name_before(a, b) && !name_before(b, a),
{
    lemma_bytes_before_total(encode_utf8(a), encode_utf8(b));
    if encode_utf8(a) == encode_utf8(b) {
        lemma_encoding_tells_names_apart(a, b);
    }
}

/// A name sorted before a second that is sorted before a third is sorted
/// before the third.
pub proof fn lemma_name_before_transitive(a: Seq<char>, b: Seq<char>, c: Seq<char>)
    requires
        name_before(a, b),
        name_before(b, c),
    ensures
        name_before(a, c),
{
    lemma_bytes_before_transitive(encode_utf8(a), encode_utf8(b), encode_utf8(c));
}

/// Finds how the name `a` stands to the name `b` in the sorting order.
pub fn relate(a: &str, b: &str) -> (relation: Relation)
    ensures
        relation is Before <==> name_before(a@, b@),
        relation is Same <==> a@ == b@,
        relation is After <==> name_before(b@, a@),
{
    let x = a.as_bytes();
    let y = b.as_bytes();
    proof {
        lemma_name_before_total(a@, b@);
    }
    let mut i: usize = 0;
    assert(x@.skip(0) == x@ && y@.skip(0) == y@);
    while i < x.len() && i < y.len()
        invariant
            i <= x@.len(),
            i <= y@.len(),
            x@ == encode_utf8(a@),
            y@ == encode_utf8(b@),
            x@.take(i as int) == y@.take(i as int),
            bytes_before(x@, y@) == bytes_before(x@.skip(i as int), y@.skip(i as int)),
        decreases x@.len() - i,
    {
        let ghost xs = x@.skip(i as int);
        let ghost ys = y@.skip(i as int);
        assert(xs[0] == x@[i as int] && ys[0] == y@[i as int]);
        if x[i] < y[i] {
            proof {
                lemma_name_before_total(a@, b@);
            }
            return Relation::Before;
        }
        if x[i] > y[i] {
            proof {
                lemma_name_before_total(a@, b@);
            }
            return Relation::After;
        }
        assert(xs.drop_first() == x@.skip(i + 1));
        assert(ys.drop_first() == y@.skip(i + 1));
        assert(x@.take(i + 1) == x@.take(i as int).push(x@[i as int]));
        assert(y@.take(i + 1) == y@.take(i as int).push(y@[i as int]));
        i += 1;
    }
    if i < y.len() {
        assert(x@ != y@);
        Relation::Before
    } else if i < x.len() {
        assert(x@ != y@);
        Relation::After
    } else {
        assert(x@.take(i as int) == x@ && y@.take(i as int) == y@);
        proof {
            lemma_encoding_tells_names_apart(a@, b@);
        }
        Relation::Same
    }
}

} // verus!
