//! Lexicographic byte order on names.
//!
//! All merge logic is keyed by this order: entry names are byte strings and
//! the authoritative ordering is plain byte-wise lexicographic comparison.

use vstd::prelude::*;

verus! {

/// Strict lexicographic order on byte strings.
pub open spec fn lex_lt(a: Seq<u8>, b: Seq<u8>) -> bool
    decreases a.len(),
{
    if b.len() == 0 {
        false
    } else if a.len() == 0 {
        true
    } else if a[0] < b[0] {
        true
    } else if a[0] == b[0] {
        lex_lt(a.drop_first(), b.drop_first())
    } else {
        false
    }
}

/// Reflexive closure of `lex_lt`.
pub open spec fn lex_le(a: Seq<u8>, b: Seq<u8>) -> bool {
    lex_lt(a, b) || a == b
}

pub proof fn lemma_lex_irrefl(a: Seq<u8>)
    ensures
        !lex_lt(a, a),
    decreases a.len(),
{
    if a.len() > 0 {
        lemma_lex_irrefl(a.drop_first());
    }
}

pub proof fn lemma_lex_trans(a: Seq<u8>, b: Seq<u8>, c: Seq<u8>)
    requires
        lex_lt(a, b),
        lex_lt(b, c),
    ensures
        lex_lt(a, c),
    decreases a.len(),
{
    if a.len() > 0 && b.len() > 0 && c.len() > 0 {
        if a[0] == b[0] && b[0] == c[0] {
            lemma_lex_trans(a.drop_first(), b.drop_first(), c.drop_first());
        }
    }
}

/// Any two byte strings are comparable: strictly ordered one way or equal.
pub proof fn lemma_lex_total(a: Seq<u8>, b: Seq<u8>)
    ensures
        lex_lt(a, b) || lex_lt(b, a) || a =~= b,
    decreases a.len(),
{
    if a.len() > 0 && b.len() > 0 && a[0] == b[0] {
        lemma_lex_total(a.drop_first(), b.drop_first());
        if a.drop_first() =~= b.drop_first() {
            assert(a =~= b) by {
                assert forall|j: int| 0 <= j < a.len() implies a[j] == b[j] by {
                    if j > 0 {
                        assert(a.drop_first()[j - 1] == b.drop_first()[j - 1]);
                    }
                }
            }
        }
    }
}

pub proof fn lemma_lex_asym(a: Seq<u8>, b: Seq<u8>)
    requires
        lex_lt(a, b),
    ensures
        !lex_lt(b, a),
{
    if lex_lt(b, a) {
        lemma_lex_trans(a, b, a);
        lemma_lex_irrefl(a);
    }
}

/// A proper prefix is strictly below every extension of itself.
pub proof fn lemma_prefix_lt(a: Seq<u8>, b: Seq<u8>)
    requires
        a.is_prefix_of(b),
        a.len() < b.len(),
    ensures
        lex_lt(a, b),
    decreases a.len(),
{
    if a.len() > 0 {
        assert(a.drop_first().is_prefix_of(b.drop_first()));
        lemma_prefix_lt(a.drop_first(), b.drop_first());
    }
}

/// Two strings that agree up to index `i` and differ there are ordered by
/// the bytes at `i`.
pub proof fn lemma_lex_from_diff(a: Seq<u8>, b: Seq<u8>, i: int)
    requires
        0 <= i < a.len(),
        i < b.len(),
        a.subrange(0, i) =~= b.subrange(0, i),
        a[i] < b[i],
    ensures
        lex_lt(a, b),
    decreases i,
{
    if i > 0 {
        assert(a.drop_first().subrange(0, i - 1) =~= b.drop_first().subrange(0, i - 1)) by {
            assert forall|j: int| 0 <= j < i - 1 implies a.drop_first()[j] == b.drop_first()[j] by {
                assert(a.subrange(0, i)[j + 1] == b.subrange(0, i)[j + 1]);
            }
        }
        assert(a[0] == b[0]) by {
            assert(a.subrange(0, i)[0] == b.subrange(0, i)[0]);
        }
        lemma_lex_from_diff(a.drop_first(), b.drop_first(), i - 1);
    }
}

/// Appending on the right of the larger string keeps the order.
pub proof fn lemma_lex_append_right(a: Seq<u8>, b: Seq<u8>, c: Seq<u8>)
    requires
        lex_lt(a, b),
    ensures
        lex_lt(a, b + c),
    decreases a.len(),
{
    if a.len() > 0 && b.len() > 0 && a[0] == b[0] {
        assert((b + c).drop_first() =~= b.drop_first() + c);
        lemma_lex_append_right(a.drop_first(), b.drop_first(), c);
    }
}

/// When the smaller string is not a prefix of the larger, it may grow on the
/// right without disturbing the order.
pub proof fn lemma_lex_append_left(a: Seq<u8>, b: Seq<u8>, c: Seq<u8>)
    requires
        lex_lt(a, b),
        !a.is_prefix_of(b),
    ensures
        lex_lt(a + c, b),
    decreases a.len(),
{
    if a.len() == 0 {
        assert(a.is_prefix_of(b));
    } else if b.len() > 0 {
        if a[0] == b[0] {
            if a.drop_first().is_prefix_of(b.drop_first()) {
                assert(b.subrange(0, a.len() as int) =~= a) by {
                    assert forall|j: int| 0 <= j < a.len() implies #[trigger] b.subrange(
                        0,
                        a.len() as int,
                    )[j] == a[j] by {
                        if j > 0 {
                            assert(b.drop_first().subrange(0, a.len() - 1)[j - 1]
                                == a.drop_first()[j - 1]);
                        }
                    }
                }
                assert(a.is_prefix_of(b));
            }
            assert((a + c).drop_first() =~= a.drop_first() + c);
            lemma_lex_append_left(a.drop_first(), b.drop_first(), c);
        } else {
            assert((a + c)[0] == a[0]);
        }
    }
}

/// A shared prefix on the left never affects the comparison.
pub proof fn lemma_lex_common_prefix(p: Seq<u8>, a: Seq<u8>, b: Seq<u8>)
    ensures
        lex_lt(p + a, p + b) <==> lex_lt(a, b),
    decreases p.len(),
{
    if p.len() == 0 {
        assert(p + a =~= a);
        assert(p + b =~= b);
    } else {
        assert((p + a).drop_first() =~= p.drop_first() + a);
        assert((p + b).drop_first() =~= p.drop_first() + b);
        assert((p + a)[0] == (p + b)[0]);
        lemma_lex_common_prefix(p.drop_first(), a, b);
    }
}

/// Outcome of comparing two names.
#[derive(PartialEq, Eq, Structural, Clone, Copy, Debug)]
pub enum NameCmp {
    Before,
    Same,
    After,
}

/// Byte-wise comparison of two names, decided against `lex_lt`.
pub fn compare_names(a: &Vec<u8>, b: &Vec<u8>) -> (r: NameCmp)
    ensures
        (r == NameCmp::Before) == lex_lt(a@, b@),
        (r == NameCmp::Same) == (a@ == b@),
        (r == NameCmp::After) == lex_lt(b@, a@),
{
    let mut i: usize = 0;
    loop
        invariant
            i <= a.len(),
            i <= b.len(),
            a@.subrange(0, i as int) =~= b@.subrange(0, i as int),
        decreases a@.len() - i,
    {
        if i == a.len() && i == b.len() {
            proof {
                assert(a@ =~= b@) by {
                    assert forall|j: int| 0 <= j < a@.len() implies a@[j] == b@[j] by {
                        assert(a@.subrange(0, i as int)[j] == b@.subrange(0, i as int)[j]);
                    }
                }
                lemma_lex_irrefl(a@);
            }
            return NameCmp::Same;
        }
        if i == a.len() {
            proof {
                assert(a@.is_prefix_of(b@)) by {
                    assert(b@.subrange(0, a@.len() as int) =~= a@);
                }
                lemma_prefix_lt(a@, b@);
                lemma_lex_asym(a@, b@);
            }
            return NameCmp::Before;
        }
        if i == b.len() {
            proof {
                assert(b@.is_prefix_of(a@)) by {
                    assert(a@.subrange(0, b@.len() as int) =~= b@);
                }
                lemma_prefix_lt(b@, a@);
                lemma_lex_asym(b@, a@);
            }
            return NameCmp::After;
        }
        if a[i] < b[i] {
            proof {
                lemma_lex_from_diff(a@, b@, i as int);
                lemma_lex_asym(a@, b@);
            }
            return NameCmp::Before;
        }
        if b[i] < a[i] {
            proof {
                lemma_lex_from_diff(b@, a@, i as int);
                lemma_lex_asym(b@, a@);
            }
            return NameCmp::After;
        }
        proof {
            assert(a@.subrange(0, i + 1) =~= b@.subrange(0, i + 1)) by {
                assert forall|j: int| 0 <= j < i + 1 implies #[trigger] a@.subrange(0, i + 1)[j]
                    == b@.subrange(0, i + 1)[j] by {
                    if j < i {
                        assert(a@.subrange(0, i as int)[j] == b@.subrange(0, i as int)[j]);
                    }
                }
            }
        }
        i = i + 1;
    }
}

} // verus!
