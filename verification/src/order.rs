//! Lexicographic order on identities.
//!
//! Rust orders `str` by its UTF-8 bytes, so identities are compared here by
//! the byte encoding of their characters.
use vstd::prelude::*;
use vstd::utf8::*;

verus! {

/// Outcome of a three-way comparison.
#[derive(Debug, Clone, Copy, PartialEq, Eq, Structural)]
pub enum Comparison {
    Less,
    Equal,
    Greater,
}

/// `a` is strictly before `b` in lexicographic byte order.
pub open spec fn bytes_lt(a: Seq<u8>, b: Seq<u8>) -> bool {
    exists|k: int|
        #![trigger a.take(k), b.take(k)]
        0 <= k <= a.len() && k <= b.len() && a.take(k) == b.take(k) && ((k == a.len() && k
            < b.len()) || (k < a.len() && k < b.len() && a[k] < b[k]))
}

/// The UTF-8 bytes of a character sequence.
pub open spec fn key(s: Seq<char>) -> Seq<u8> {
    encode_utf8(s)
}

/// `a` orders strictly before `b` as Rust orders strings.
pub open spec fn str_lt(a: Seq<char>, b: Seq<char>) -> bool {
    bytes_lt(key(a), key(b))
}

/// Three-way comparison of two character sequences as Rust orders strings.
pub open spec fn str_order(a: Seq<char>, b: Seq<char>) -> Comparison {
    if str_lt(a, b) {
        Comparison::Less
    } else if a == b {
        Comparison::Equal
    } else {
        Comparison::Greater
    }
}

pub proof fn lemma_bytes_lt_irreflexive(a: Seq<u8>)
    ensures
        !bytes_lt(a, a),
{
}

pub proof fn lemma_bytes_lt_transitive(a: Seq<u8>, b: Seq<u8>, c: Seq<u8>)
    requires
        bytes_lt(a, b),
        bytes_lt(b, c),
    ensures
        bytes_lt(a, c),
{
    let k1 = choose|k: int|
        #![trigger a.take(k), b.take(k)]
        0 <= k <= a.len() && k <= b.len() && a.take(k) == b.take(k) && ((k == a.len() && k
            < b.len()) || (k < a.len() && k < b.len() && a[k] < b[k]));
    let k2 = choose|k: int|
        #![trigger b.take(k), c.take(k)]
        0 <= k <= b.len() && k <= c.len() && b.take(k) == c.take(k) && ((k == b.len() && k
            < c.len()) || (k < b.len() && k < c.len() && b[k] < c[k]));
    let k = if k1 <= k2 {
        k1
    } else {
        k2
    };
    assert(a.take(k) =~= c.take(k)) by {
        assert forall|i: int| 0 <= i < k implies a[i] == c[i] by {
            assert(a.take(k1)[i] == b.take(k1)[i]);
            assert(b.take(k2)[i] == c.take(k2)[i]);
        }
    }
    if k1 < k2 {
        assert(b.take(k2)[k1] == c.take(k2)[k1]);
    } else if k2 < k1 {
        assert(a.take(k1)[k2] == b.take(k1)[k2]);
    }
    assert(a.take(k) == c.take(k));
}

pub proof fn lemma_bytes_lt_asymmetric(a: Seq<u8>, b: Seq<u8>)
    requires
        bytes_lt(a, b),
    ensures
        !bytes_lt(b, a),
{
    if bytes_lt(b, a) {
        lemma_bytes_lt_transitive(a, b, a);
    }
}

pub proof fn lemma_bytes_total(a: Seq<u8>, b: Seq<u8>)
    ensures
        bytes_lt(a, b) || a == b || bytes_lt(b, a),
{
    assert(a.take(0) =~= b.take(0));
    lemma_bytes_total_from(a, b, 0);
}

proof fn lemma_bytes_total_from(a: Seq<u8>, b: Seq<u8>, i: int)
    requires
        0 <= i <= a.len(),
        i <= b.len(),
        a.take(i) == b.take(i),
    ensures
        bytes_lt(a, b) || a == b || bytes_lt(b, a),
    decreases a.len() - i,
{
    if i == a.len() && i == b.len() {
        assert(a =~= a.take(i));
        assert(b =~= b.take(i));
    } else if i == a.len() {
        assert(b.take(i) == a.take(i));
    } else if i == b.len() {
        assert(b.take(i) == a.take(i));
    } else if a[i] != b[i] {
        assert(b.take(i) == a.take(i));
    } else {
        assert(a.take(i + 1) =~= b.take(i + 1)) by {
            assert forall|j: int| 0 <= j < i implies a[j] == b[j] by {
                assert(a.take(i)[j] == a[j]);
                assert(b.take(i)[j] == b[j]);
                assert(a.take(i)[j] == b.take(i)[j]);
            }
        }
        lemma_bytes_total_from(a, b, i + 1);
    }
}

pub proof fn lemma_key_injective(a: Seq<char>, b: Seq<char>)
    requires
        key(a) == key(b),
    ensures
        a == b,
{
    encode_utf8_decode_utf8(a);
    encode_utf8_decode_utf8(b);
}

pub proof fn lemma_str_lt_asymmetric(a: Seq<char>, b: Seq<char>)
    requires
        str_lt(a, b),
    ensures
        !str_lt(b, a),
        a != b,
{
    lemma_bytes_lt_asymmetric(key(a), key(b));
}

pub proof fn lemma_str_lt_irreflexive(a: Seq<char>)
    ensures
        !str_lt(a, a),
{
    lemma_bytes_lt_irreflexive(key(a));
}

pub proof fn lemma_str_lt_transitive(a: Seq<char>, b: Seq<char>, c: Seq<char>)
    requires
        str_lt(a, b),
        str_lt(b, c),
    ensures
        str_lt(a, c),
{
    lemma_bytes_lt_transitive(key(a), key(b), key(c));
}

pub proof fn lemma_str_total(a: Seq<char>, b: Seq<char>)
    ensures
        str_lt(a, b) || a == b || str_lt(b, a),
{
    lemma_bytes_total(key(a), key(b));
    if key(a) == key(b) {
        lemma_key_injective(a, b);
    }
}

/// Compare two strings as Rust orders them (by their UTF-8 bytes).
pub fn compare_str(a: &str, b: &str) -> (c: Comparison)
    ensures
        c == str_order(a@, b@),
{
    let x = a.as_bytes();
    let y = b.as_bytes();
    let ghost ka = key(a@);
    let ghost kb = key(b@);
    assert(x@ == ka);
    assert(y@ == kb);
    let mut i: usize = 0;
    assert(x@.take(0) =~= y@.take(0));
    while i < x.len() && i < y.len()
        invariant
            i <= x@.len(),
            i <= y@.len(),
            x@ == ka,
            y@ == kb,
            ka == key(a@),
            kb == key(b@),
            x@.take(i as int) == y@.take(i as int),
        decreases x@.len() - i,
    {
        if x[i] < y[i] {
            assert(bytes_lt(ka, kb)) by {
                assert(ka.take(i as int) == kb.take(i as int));
            }
            return Comparison::Less;
        }
        if x[i] > y[i] {
            assert(bytes_lt(kb, ka)) by {
                assert(kb.take(i as int) == ka.take(i as int));
            }
            proof {
                lemma_str_lt_asymmetric(b@, a@);
            }
            return Comparison::Greater;
        }
        assert(x@.take(i + 1) =~= y@.take(i + 1)) by {
            assert forall|j: int| 0 <= j < i + 1 implies x@[j] == y@[j] by {
                if j < i {
                    assert(x@.take(i as int)[j] == x@[j]);
                    assert(y@.take(i as int)[j] == y@[j]);
                }
            }
        }
        i = i + 1;
    }
    if x.len() < y.len() {
        assert(bytes_lt(ka, kb)) by {
            assert(ka.take(i as int) == kb.take(i as int));
        }
        Comparison::Less
    } else if x.len() > y.len() {
        assert(bytes_lt(kb, ka)) by {
            assert(kb.take(i as int) == ka.take(i as int));
        }
        proof {
            lemma_str_lt_asymmetric(b@, a@);
        }
        Comparison::Greater
    } else {
        assert(ka =~= kb) by {
            assert(ka =~= ka.take(i as int));
            assert(kb =~= kb.take(i as int));
        }
        proof {
            lemma_key_injective(a@, b@);
            lemma_bytes_lt_irreflexive(ka);
        }
        Comparison::Equal
    }
}


/// Lexicographic strict order of sequences under an element order: the first
/// difference decides, and a proper prefix comes first.
pub open spec fn lex_lt<T>(a: Seq<T>, b: Seq<T>, lt: spec_fn(T, T) -> bool) -> bool {
    exists|k: int|
        #![trigger a.take(k), b.take(k)]
        0 <= k <= a.len() && k <= b.len() && a.take(k) == b.take(k) && ((k == a.len() && k < b.len())
            || (k < a.len() && k < b.len() && lt(a[k], b[k])))
}

/// An irreflexive, asymmetric element order gives an irreflexive, asymmetric
/// lexicographic order.
pub proof fn lemma_lex_lt_strict<T>(a: Seq<T>, b: Seq<T>, lt: spec_fn(T, T) -> bool)
    requires
        forall|x: T| !#[trigger] lt(x, x),
        forall|x: T, y: T| #[trigger] lt(x, y) ==> !lt(y, x),
    ensures
        !lex_lt(a, a, lt),
        lex_lt(a, b, lt) ==> !lex_lt(b, a, lt) && a != b,
{
    if lex_lt(a, a, lt) {
        let k = choose|k: int|
            #![trigger a.take(k), a.take(k)]
            0 <= k <= a.len() && k <= a.len() && a.take(k) == a.take(k) && ((k == a.len() && k < a.len())
                || (k < a.len() && k < a.len() && lt(a[k], a[k])));
        assert(!lt(a[k], a[k]));
    }
    if lex_lt(a, b, lt) && lex_lt(b, a, lt) {
        let k1 = choose|k: int|
            #![trigger a.take(k), b.take(k)]
            0 <= k <= a.len() && k <= b.len() && a.take(k) == b.take(k) && ((k == a.len() && k < b.len())
                || (k < a.len() && k < b.len() && lt(a[k], b[k])));
        let k2 = choose|k: int|
            #![trigger b.take(k), a.take(k)]
            0 <= k <= b.len() && k <= a.len() && b.take(k) == a.take(k) && ((k == b.len() && k < a.len())
                || (k < b.len() && k < a.len() && lt(b[k], a[k])));
        if k1 < k2 {
            assert(b.take(k2)[k1] == a.take(k2)[k1]);
            assert(!lt(a[k1], a[k1]));
        } else if k2 < k1 {
            assert(a.take(k1)[k2] == b.take(k1)[k2]);
            assert(!lt(b[k2], b[k2]));
        } else {
            assert(lt(a[k1], b[k1]) ==> !lt(b[k1], a[k1]));
        }
    }
    if lex_lt(a, b, lt) && a == b {
        assert(lex_lt(a, a, lt));
    }
}

/// Strings ordered as Rust orders them form an irreflexive, asymmetric order.
pub proof fn lemma_str_lt_strict()
    ensures
        forall|x: Seq<char>| !#[trigger] str_lt(x, x),
        forall|x: Seq<char>, y: Seq<char>| #[trigger] str_lt(x, y) ==> !str_lt(y, x),
{
    assert forall|x: Seq<char>| !#[trigger] str_lt(x, x) by {
        lemma_str_lt_irreflexive(x);
    }
    assert forall|x: Seq<char>, y: Seq<char>| #[trigger] str_lt(x, y) implies !str_lt(y, x) by {
        lemma_str_lt_asymmetric(x, y);
    }
}

} // verus!
