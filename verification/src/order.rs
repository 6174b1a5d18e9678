//! The order in which names are listed: byte by byte over their UTF-8 form.

use vstd::prelude::*;
use vstd::string::*;
use vstd::utf8::*;

verus! {

/// `a` and `b` agree on their first `k` bytes.
pub open spec fn agree_before(a: Seq<u8>, b: Seq<u8>, k: int) -> bool {
    forall|j: int| 0 <= j < k ==> a[j] == b[j]
}

/// `a` and `b` first differ at index `k`, where `a` holds the smaller byte.
pub open spec fn smaller_at(a: Seq<u8>, b: Seq<u8>, k: int) -> bool {
    &&& 0 <= k < a.len()
    &&& k < b.len()
    &&& agree_before(a, b, k)
    &&& a[k] < b[k]
}

/// `a` is a prefix of `b`, or equal to it.
pub open spec fn starts(a: Seq<u8>, b: Seq<u8>) -> bool {
    a.len() <= b.len() && agree_before(a, b, a.len() as int)
}

/// Lexicographic order on byte strings: `a` comes no later than `b`.
#[verifier::opaque]
pub open spec fn bytes_le(a: Seq<u8>, b: Seq<u8>) -> bool {
    starts(a, b) || exists|k: int| smaller_at(a, b, k)
}

/// The listing order on names: lexicographic over the bytes of their UTF-8
/// encoding, which is how file names compare.
pub open spec fn name_le(a: Seq<char>, b: Seq<char>) -> bool {
    bytes_le(encode_utf8(a), encode_utf8(b))
}

/// The order on paths: component by component, names compared by
/// [`name_le`]; a path comes before every path that it is a proper prefix of.
pub open spec fn path_le(p: Seq<Seq<char>>, q: Seq<Seq<char>>) -> bool
    decreases p.len(),
{
    if p.len() == 0 {
        true
    } else if q.len() == 0 {
        false
    } else if p[0] == q[0] {
        path_le(p.drop_first(), q.drop_first())
    } else {
        name_le(p[0], q[0])
    }
}

proof fn lemma_bytes_total_from(a: Seq<u8>, b: Seq<u8>, i: int)
    requires
        0 <= i <= a.len(),
        i <= b.len(),
        agree_before(a, b, i),
    ensures
        bytes_le(a, b) || bytes_le(b, a),
    decreases a.len() - i,
{
    reveal(bytes_le);
    if i < a.len() && i < b.len() {
        if a[i] == b[i] {
            lemma_bytes_total_from(a, b, i + 1);
        } else if a[i] < b[i] {
            assert(smaller_at(a, b, i));
        } else {
            assert(smaller_at(b, a, i));
        }
    }
}

/// Any two byte strings are comparable.
pub proof fn lemma_bytes_total(a: Seq<u8>, b: Seq<u8>)
    ensures
        bytes_le(a, b) || bytes_le(b, a),
{
    lemma_bytes_total_from(a, b, 0);
}

/// The order on byte strings is transitive.
pub proof fn lemma_bytes_transitive(a: Seq<u8>, b: Seq<u8>, c: Seq<u8>)
    requires
        bytes_le(a, b),
        bytes_le(b, c),
    ensures
        bytes_le(a, c),
{
    reveal(bytes_le);
    if starts(a, b) {
        if !starts(b, c) {
            let k = choose|k: int| smaller_at(b, c, k);
            if k < a.len() {
                assert(smaller_at(a, c, k));
            }
        }
    } else {
        let k1 = choose|k: int| smaller_at(a, b, k);
        if starts(b, c) {
            assert(smaller_at(a, c, k1));
        } else {
            let k2 = choose|k: int| smaller_at(b, c, k);
            if k2 < k1 {
                assert(smaller_at(a, c, k2));
            }
        }
    }
}

/// Two byte strings that come no later than each other are equal.
pub proof fn lemma_bytes_antisymmetric(a: Seq<u8>, b: Seq<u8>)
    requires
        bytes_le(a, b),
        bytes_le(b, a),
    ensures
        a == b,
{
    reveal(bytes_le);
    if !starts(a, b) {
        // Where `a` holds the smaller byte, `b` cannot come first.
        let k = choose|k: int| smaller_at(a, b, k);
        assert(!starts(b, a));
        assert(forall|j: int| !smaller_at(b, a, j));
    } else if !starts(b, a) {
        let k = choose|k: int| smaller_at(b, a, k);
        assert(a[k] == b[k]);
    }
}

/// Any two names are comparable.
pub proof fn lemma_name_total(a: Seq<char>, b: Seq<char>)
    ensures
        name_le(a, b) || name_le(b, a),
{
    lemma_bytes_total(encode_utf8(a), encode_utf8(b));
}

/// The order on names is transitive.
pub proof fn lemma_name_transitive(a: Seq<char>, b: Seq<char>, c: Seq<char>)
    requires
        name_le(a, b),
        name_le(b, c),
    ensures
        name_le(a, c),
{
    lemma_bytes_transitive(encode_utf8(a), encode_utf8(b), encode_utf8(c));
}

/// Two names that come no later than each other are the same name.
pub proof fn lemma_name_antisymmetric(a: Seq<char>, b: Seq<char>)
    requires
        name_le(a, b),
        name_le(b, a),
    ensures
        a == b,
{
    lemma_bytes_antisymmetric(encode_utf8(a), encode_utf8(b));
    encode_utf8_decode_utf8(a);
    encode_utf8_decode_utf8(b);
}

/// Two entries of one directory are ordered as their names are.
pub proof fn lemma_siblings_ordered_by_name(dir: Seq<Seq<char>>, a: Seq<char>, b: Seq<char>)
    ensures
        path_le(dir.push(a), dir.push(b)) == name_le(a, b),
    decreases dir.len(),
{
    let p = dir.push(a);
    let q = dir.push(b);
    if dir.len() == 0 {
        if a == b {
            assert(path_le(p.drop_first(), q.drop_first()));
            lemma_name_total(a, a);
        }
    } else {
        assert(p.drop_first() =~= dir.drop_first().push(a));
        assert(q.drop_first() =~= dir.drop_first().push(b));
        lemma_siblings_ordered_by_name(dir.drop_first(), a, b);
    }
}

/// Whether the name `a` comes no later than the name `b` in a listing.
pub fn name_precedes(a: &str, b: &str) -> (le: bool)
    ensures
        le == name_le(a@, b@),
{
    let x = a.as_bytes();
    let y = b.as_bytes();
    let mut i: usize = 0;
    proof {
        reveal(bytes_le);
    }
    while i < x.len() && i < y.len()
        invariant
            i <= x@.len(),
            i <= y@.len(),
            agree_before(x@, y@, i as int),
            x@ == encode_utf8(a@),
            y@ == encode_utf8(b@),
        decreases x@.len() - i,
    {
        proof {
            reveal(bytes_le);
        }
        if x[i] < y[i] {
            assert(smaller_at(x@, y@, i as int));
            return true;
        }
        if x[i] > y[i] {
            assert(forall|k: int| !smaller_at(x@, y@, k));
            return false;
        }
        i += 1;
    }
    if i == x.len() {
        true
    } else {
        assert(forall|k: int| !smaller_at(x@, y@, k));
        false
    }
}

} // verus!
