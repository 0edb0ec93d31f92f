//! Lexicographic order on byte strings, the order in which key fields are
//! compared.

use vstd::prelude::*;

verus! {

/// `a` and `b` have at least `n` bytes each and agree on their first `n`.
pub open spec fn agree_before(a: Seq<u8>, b: Seq<u8>, n: int) -> bool {
    &&& 0 <= n <= a.len()
    &&& n <= b.len()
    &&& forall|j: int| 0 <= j < n ==> a[j] == b[j]
}

/// `a` comes strictly before `b`: either `a` is a proper prefix of `b`, or at
/// the first place where they differ `a` holds the smaller byte.
pub open spec fn lex_less(a: Seq<u8>, b: Seq<u8>) -> bool {
    exists|n: int| #[trigger]
        agree_before(a, b, n) && n < b.len() && (n == a.len() || a[n] < b[n])
}

/// `a` comes before `b` or equals it.
pub open spec fn lex_le(a: Seq<u8>, b: Seq<u8>) -> bool {
    !lex_less(b, a)
}

/// How one byte string stands to another.
#[derive(Clone, Copy, Debug, PartialEq, Eq)]
pub enum Comparison {
    Less,
    Equal,
    Greater,
}

/// No byte string comes before itself.
pub proof fn lemma_lex_irreflexive(a: Seq<u8>)
    ensures
        !lex_less(a, a),
{
}

/// The order is transitive.
pub proof fn lemma_lex_transitive(a: Seq<u8>, b: Seq<u8>, c: Seq<u8>)
    requires
        lex_less(a, b),
        lex_less(b, c),
    ensures
        lex_less(a, c),
{
    let n1 = choose|n: int| #[trigger]
        agree_before(a, b, n) && n < b.len() && (n == a.len() || a[n] < b[n]);
    let n2 = choose|n: int| #[trigger]
        agree_before(b, c, n) && n < c.len() && (n == b.len() || b[n] < c[n]);
    let n = if n1 <= n2 {
        n1
    } else {
        n2
    };
    assert(agree_before(a, c, n));
}

/// Two byte strings that agree on their first `n` bytes are equal or ordered
/// one way or the other.
proof fn lemma_lex_total_from(a: Seq<u8>, b: Seq<u8>, n: int)
    requires
        agree_before(a, b, n),
    ensures
        lex_less(a, b) || a == b || lex_less(b, a),
    decreases a.len() - n,
{
    if n == a.len() {
        if n == b.len() {
            assert(a =~= b);
        } else {
            assert(agree_before(a, b, n));
        }
    } else if n == b.len() {
        assert(agree_before(b, a, n));
    } else if a[n] == b[n] {
        lemma_lex_total_from(a, b, n + 1);
    } else if a[n] < b[n] {
        assert(agree_before(a, b, n));
    } else {
        assert(agree_before(b, a, n));
    }
}

/// Of `a < b`, `a == b` and `b < a` exactly one holds.
pub proof fn lemma_lex_trichotomy(a: Seq<u8>, b: Seq<u8>)
    ensures
        lex_less(a, b) || a == b || lex_less(b, a),
        !(lex_less(a, b) && a == b),
        !(lex_less(b, a) && a == b),
        !(lex_less(a, b) && lex_less(b, a)),
{
    assert(agree_before(a, b, 0));
    lemma_lex_total_from(a, b, 0);
    lemma_lex_irreflexive(a);
    if lex_less(a, b) && lex_less(b, a) {
        lemma_lex_transitive(a, b, a);
    }
}

/// `lex_le` is transitive.
pub proof fn lemma_lex_le_transitive(a: Seq<u8>, b: Seq<u8>, c: Seq<u8>)
    requires
        lex_le(a, b),
        lex_le(b, c),
    ensures
        lex_le(a, c),
{
    lemma_lex_trichotomy(a, b);
    lemma_lex_trichotomy(b, c);
    if lex_less(c, a) {
        if a == b {
        } else if b == c {
        } else {
            lemma_lex_transitive(c, a, b);
        }
    }
}

/// Compares two byte strings lexicographically.
pub fn compare_bytes(a: &[u8], b: &[u8]) -> (order: Comparison)
    ensures
        order is Less <==> lex_less(a@, b@),
        order is Equal <==> a@ == b@,
        order is Greater <==> lex_less(b@, a@),
{
    proof {
        lemma_lex_trichotomy(a@, b@);
    }
    let a_len = a.len();
    let b_len = b.len();
    let mut i: usize = 0;
    while i < a_len && i < b_len
        invariant
            a_len == a@.len(),
            b_len == b@.len(),
            agree_before(a@, b@, i as int),
        decreases a_len - i,
    {
        if a[i] < b[i] {
            return Comparison::Less;
        }
        if a[i] > b[i] {
            assert(agree_before(b@, a@, i as int));
            return Comparison::Greater;
        }
        i += 1;
    }
    if a_len < b_len {
        Comparison::Less
    } else if a_len > b_len {
        assert(agree_before(b@, a@, i as int));
        Comparison::Greater
    } else {
        assert(a@ =~= b@);
        Comparison::Equal
    }
}

} // verus!
