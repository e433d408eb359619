//! Lexicographic order on byte strings. The peer directory keeps its
//! records sorted by node identifier and each record keeps its addresses
//! sorted, so that equal contents always have equal representations.
use vstd::prelude::*;

verus! {

/// Strict lexicographic order on byte strings: a proper prefix comes first,
/// otherwise the first differing byte decides.
pub open spec fn lex_lt(a: Seq<u8>, b: Seq<u8>) -> bool
    decreases a.len(),
{
    if b.len() == 0 {
        false
    } else if a.len() == 0 {
        true
    } else if a[0] < b[0] {
        true
    } else if a[0] > b[0] {
        false
    } else {
        lex_lt(a.drop_first(), b.drop_first())
    }
}

/// No byte string is below itself.
pub proof fn lemma_lex_irreflexive(a: Seq<u8>)
    ensures
        !lex_lt(a, a),
    decreases a.len(),
{
    if a.len() > 0 {
        lemma_lex_irreflexive(a.drop_first());
    }
}

/// At most one direction of the order holds.
pub proof fn lemma_lex_asymmetric(a: Seq<u8>, b: Seq<u8>)
    ensures
        !(lex_lt(a, b) && lex_lt(b, a)),
    decreases a.len(),
{
    if a.len() > 0 && b.len() > 0 && a[0] == b[0] {
        lemma_lex_asymmetric(a.drop_first(), b.drop_first());
    }
}

/// Distinct byte strings are ordered one way or the other.
pub proof fn lemma_lex_connected(a: Seq<u8>, b: Seq<u8>)
    ensures
        a != b ==> lex_lt(a, b) || lex_lt(b, a),
    decreases a.len(),
{
    if a.len() == 0 && b.len() == 0 {
        assert(a =~= b);
    }
    if a.len() > 0 && b.len() > 0 && a[0] == b[0] {
        lemma_lex_connected(a.drop_first(), b.drop_first());
        if a.drop_first() == b.drop_first() {
            assert forall|i: int| 0 <= i < a.len() implies a[i] == b[i] by {
                if i > 0 {
                    assert(a[i] == a.drop_first()[i - 1]);
                    assert(b[i] == b.drop_first()[i - 1]);
                }
            }
            assert(a =~= b);
        }
    }
}

/// The order is transitive.
pub proof fn lemma_lex_transitive(a: Seq<u8>, b: Seq<u8>, c: Seq<u8>)
    requires
        lex_lt(a, b),
        lex_lt(b, c),
    ensures
        lex_lt(a, c),
    decreases a.len(),
{
    if a.len() > 0 && b.len() > 0 && c.len() > 0 {
        if a[0] == b[0] && b[0] == c[0] {
            lemma_lex_transitive(a.drop_first(), b.drop_first(), c.drop_first());
        }
    }
}

/// Three-way comparison result of `lex_cmp`.
#[derive(Debug, PartialEq, Eq, Structural, Clone, Copy)]
pub enum ByteOrd {
    Less,
    Equal,
    Greater,
}

/// Three-way lexicographic comparison of two byte strings.
pub fn lex_cmp(a: &[u8], b: &[u8]) -> (r: ByteOrd)
    ensures
        (r == ByteOrd::Less) == lex_lt(a@, b@),
        (r == ByteOrd::Greater) == lex_lt(b@, a@),
        (r == ByteOrd::Equal) == (a@ == b@),
    decreases a@.len(),
{
    if b.len() == 0 {
        if a.len() == 0 {
            assert(a@ =~= b@);
            ByteOrd::Equal
        } else {
            ByteOrd::Greater
        }
    } else if a.len() == 0 {
        ByteOrd::Less
    } else if a[0] < b[0] {
        proof {
            lemma_lex_asymmetric(a@, b@);
        }
        ByteOrd::Less
    } else if a[0] > b[0] {
        proof {
            lemma_lex_asymmetric(a@, b@);
        }
        ByteOrd::Greater
    } else {
        let r = lex_cmp(&a[1..a.len()], &b[1..b.len()]);
        proof {
            assert(a@.subrange(1, a@.len() as int) =~= a@.drop_first());
            assert(b@.subrange(1, b@.len() as int) =~= b@.drop_first());
            if a@.drop_first() == b@.drop_first() {
                assert forall|i: int| 0 <= i < a@.len() implies a@[i] == b@[i] by {
                    if i > 0 {
                        assert(a@[i] == a@.drop_first()[i - 1]);
                        assert(b@[i] == b@.drop_first()[i - 1]);
                    }
                }
                assert(a@ =~= b@);
            }
            if a@ == b@ {
                assert(a@.drop_first() =~= b@.drop_first());
            }
        }
        r
    }
}

/// The views of a list of byte strings.
pub open spec fn views_of(s: Seq<Vec<u8>>) -> Seq<Seq<u8>> {
    Seq::new(s.len(), |i: int| s[i]@)
}

/// Strictly ascending under `lex_lt`; in particular, free of duplicates.
pub open spec fn strictly_sorted(s: Seq<Seq<u8>>) -> bool {
    forall|i: int, j: int| 0 <= i < j < s.len() ==> lex_lt(s[i], s[j])
}

/// Order between two positions follows from order between neighbours.
proof fn lemma_chain_step(s: Seq<Seq<u8>>, i: int, j: int)
    requires
        forall|k: int| 0 <= k < s.len() - 1 ==> lex_lt(#[trigger] s[k], s[k + 1]),
        0 <= i < j < s.len(),
    ensures
        lex_lt(s[i], s[j]),
    decreases j - i,
{
    if j == i + 1 {
        assert(lex_lt(s[i], s[i + 1]));
    } else {
        lemma_chain_step(s, i, j - 1);
        assert(lex_lt(s[j - 1], s[j - 1 + 1]));
        lemma_lex_transitive(s[i], s[j - 1], s[j]);
    }
}

/// A list whose neighbours are ordered is strictly sorted throughout.
pub proof fn lemma_adjacent_sorted(s: Seq<Seq<u8>>)
    requires
        forall|k: int| 0 <= k < s.len() - 1 ==> lex_lt(#[trigger] s[k], s[k + 1]),
    ensures
        strictly_sorted(s),
{
    assert forall|i: int, j: int| 0 <= i < j < s.len() implies lex_lt(s[i], s[j]) by {
        lemma_chain_step(s, i, j);
    }
}

/// A strictly sorted list never holds the same string twice.
pub proof fn lemma_strictly_sorted_unique(s: Seq<Seq<u8>>, i: int, j: int)
    requires
        strictly_sorted(s),
        0 <= i < s.len(),
        0 <= j < s.len(),
        i != j,
    ensures
        s[i] != s[j],
{
    if i < j {
        lemma_lex_irreflexive(s[i]);
    } else {
        lemma_lex_irreflexive(s[j]);
    }
}

} // verus!
