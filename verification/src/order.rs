use vstd::prelude::*;

verus! {

// ---------------------------------------------------------------------------
// Lexicographic order on byte strings
//
// This is the order in which `memcmp`, and Rust's `Ord` on `[u8]` and
// `Vec<u8>`, compare byte strings; the point of the format is that encoded
// values compare this way exactly as the values themselves do.
// ---------------------------------------------------------------------------

/// Strict lexicographic order: `a` comes before `b`.
pub open spec fn lex_lt(a: Seq<u8>, b: Seq<u8>) -> bool
    decreases a.len(),
{
    if b.len() == 0 {
        false
    } else if a.len() == 0 {
        true
    } else if a[0] < b[0] {
        true
    } else if a[0] == b[0] {
        lex_lt(a.drop_first(), b.drop_first())
    } else {
        false
    }
}

/// `a` is a proper prefix of `b`.
pub open spec fn proper_prefix(a: Seq<u8>, b: Seq<u8>) -> bool {
    a.len() < b.len() && a == b.take(a.len() as int)
}

/// The length of the longest common prefix of `a` and `b`.
pub open spec fn common_len(a: Seq<u8>, b: Seq<u8>) -> int
    decreases a.len(),
{
    if a.len() == 0 || b.len() == 0 {
        0
    } else if a[0] == b[0] {
        1 + common_len(a.drop_first(), b.drop_first())
    } else {
        0
    }
}

/// What the lexicographic order means, byte by byte: `a < b` exactly when
/// `a` is a proper prefix of `b`, or the first byte where they differ is
/// smaller in `a`.
pub proof fn lemma_lex_characterize(a: Seq<u8>, b: Seq<u8>)
    ensures
        0 <= common_len(a, b) <= a.len(),
        common_len(a, b) <= b.len(),
        forall|i: int| 0 <= i < common_len(a, b) ==> a[i] == b[i],
        common_len(a, b) < a.len() && common_len(a, b) < b.len() ==> a[common_len(a, b)]
            != b[common_len(a, b)],
        lex_lt(a, b) <==> ((common_len(a, b) == a.len() && a.len() < b.len()) || (common_len(a, b)
            < a.len() && common_len(a, b) < b.len() && a[common_len(a, b)] < b[common_len(a, b)])),
    decreases a.len(),
{
    if a.len() != 0 && b.len() != 0 && a[0] == b[0] {
        lemma_lex_characterize(a.drop_first(), b.drop_first());
        let c = common_len(a, b);
        assert forall|i: int| 0 <= i < c implies a[i] == b[i] by {
            if i > 0 {
                assert(a.drop_first()[i - 1] == b.drop_first()[i - 1]);
            }
        }
    }
}

/// Bytes where both strings agree do not decide the order: they can be
/// stripped from the front of both.
pub proof fn lemma_lex_prepend(p: Seq<u8>, a: Seq<u8>, b: Seq<u8>)
    ensures
        lex_lt(p + a, p + b) <==> lex_lt(a, b),
    decreases p.len(),
{
    if p.len() == 0 {
        assert(p + a =~= a);
        assert(p + b =~= b);
    } else {
        assert((p + a).drop_first() =~= p.drop_first() + a);
        assert((p + b).drop_first() =~= p.drop_first() + b);
        lemma_lex_prepend(p.drop_first(), a, b);
    }
}

/// A smaller byte at the first difference decides the order.
pub proof fn lemma_lex_diff(a: Seq<u8>, b: Seq<u8>, j: int)
    requires
        0 <= j < a.len(),
        j < b.len(),
        forall|i: int| 0 <= i < j ==> a[i] == b[i],
        a[j] < b[j],
    ensures
        lex_lt(a, b),
    decreases j,
{
    if j > 0 {
        assert forall|i: int| 0 <= i < j - 1 implies a.drop_first()[i] == b.drop_first()[i] by {
            assert(a[i + 1] == b[i + 1]);
        }
        lemma_lex_diff(a.drop_first(), b.drop_first(), j - 1);
    }
}

/// A proper prefix comes first.
pub proof fn lemma_lex_prefix(a: Seq<u8>, b: Seq<u8>)
    requires
        proper_prefix(a, b),
    ensures
        lex_lt(a, b),
    decreases a.len(),
{
    if a.len() > 0 {
        assert(a[0] == b.take(a.len() as int)[0]);
        assert(a.drop_first() =~= b.drop_first().take(a.len() - 1));
        lemma_lex_prefix(a.drop_first(), b.drop_first());
    }
}

/// The lexicographic order is total: for any two byte strings exactly one of
/// `a < b`, `a == b`, `b < a` holds.
pub proof fn lemma_lex_total(a: Seq<u8>, b: Seq<u8>)
    ensures
        lex_lt(a, b) || lex_lt(b, a) || a == b,
        lex_lt(a, b) ==> !lex_lt(b, a) && a != b,
        a == b ==> !lex_lt(a, b),
    decreases a.len(),
{
    if a.len() == 0 && b.len() == 0 {
        assert(a =~= b);
    } else if a.len() != 0 && b.len() != 0 && a[0] == b[0] {
        lemma_lex_total(a.drop_first(), b.drop_first());
        if a.drop_first() == b.drop_first() {
            assert forall|i: int| 0 <= i < a.len() implies a[i] == b[i] by {
                if i > 0 {
                    assert(a[i] == a.drop_first()[i - 1]);
                    assert(b[i] == b.drop_first()[i - 1]);
                }
            }
            assert(a =~= b);
        }
        if a == b {
            assert(a.drop_first() =~= b.drop_first());
        }
    } else if a == b {
        assert(a.len() == b.len());
        if a.len() != 0 {
            assert(a[0] == b[0]);
        }
    }
}

} // verus!
