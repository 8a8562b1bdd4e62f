//! Lexicographic ordering of strings by Unicode scalar value, with the
//! comparison functions the table code uses to sort its axes and to search
//! them, and the facts about that ordering that the builder's determinism
//! rests on.

use vstd::prelude::*;

verus! {

/// Strict lexicographic order on character sequences, comparing characters by
/// their Unicode scalar values. A proper prefix sorts before its extensions.
pub open spec fn lex_lt(a: Seq<char>, b: Seq<char>) -> bool
    decreases a.len(),
{
    if b.len() == 0 {
        false
    } else if a.len() == 0 {
        true
    } else if a[0] != b[0] {
        a[0] < b[0]
    } else {
        lex_lt(a.drop_first(), b.drop_first())
    }
}

/// Every string sequence in `s` is strictly below every later one, so the
/// sequence is sorted and holds no duplicates.
pub open spec fn strictly_sorted(s: Seq<Seq<char>>) -> bool {
    forall|i: int, j: int| 0 <= i < j < s.len() ==> lex_lt(s[i], s[j])
}

pub proof fn lemma_lex_lt_irreflexive(a: Seq<char>)
    ensures
        !lex_lt(a, a),
    decreases a.len(),
{
    if a.len() > 0 {
        lemma_lex_lt_irreflexive(a.drop_first());
    }
}

pub proof fn lemma_lex_lt_trichotomy(a: Seq<char>, b: Seq<char>)
    ensures
        lex_lt(a, b) || lex_lt(b, a) || a == b,
    decreases a.len(),
{
    if a.len() == 0 && b.len() == 0 {
        assert(a =~= b);
    } else if a.len() > 0 && b.len() > 0 && a[0] == b[0] {
        lemma_lex_lt_trichotomy(a.drop_first(), b.drop_first());
        if a.drop_first() == b.drop_first() {
            assert(a.drop_first().len() == b.drop_first().len());
            assert(a =~= b) by {
                assert(forall|i: int|
                    0 < i < a.len() ==> a[i] == a.drop_first()[i - 1] && b[i] == b.drop_first()[i
                        - 1]);
            }
        }
    }
}

pub proof fn lemma_lex_lt_transitive(a: Seq<char>, b: Seq<char>, c: Seq<char>)
    requires
        lex_lt(a, b),
        lex_lt(b, c),
    ensures
        lex_lt(a, c),
    decreases a.len(),
{
    if a.len() > 0 && b.len() > 0 && c.len() > 0 && a[0] == b[0] && b[0] == c[0] {
        lemma_lex_lt_transitive(a.drop_first(), b.drop_first(), c.drop_first());
    }
}

/// Two strictly sorted string sequences with the same members are the same
/// sequence: sortedness makes the member set pin the order down.
pub proof fn lemma_strictly_sorted_same_members(x: Seq<Seq<char>>, y: Seq<Seq<char>>)
    requires
        strictly_sorted(x),
        strictly_sorted(y),
        forall|e: Seq<char>| x.contains(e) <==> y.contains(e),
    ensures
        x == y,
    decreases x.len(),
{
    if x.len() == 0 {
        if y.len() > 0 {
            assert(y.contains(y[0]));
        }
        assert(x =~= y);
    } else if y.len() == 0 {
        assert(x.contains(x[0]));
        assert(x =~= y);
    } else {
        assert(x.contains(x[0]));
        assert(y.contains(y[0]));
        let jx = choose|j: int| 0 <= j < y.len() && y[j] == x[0];
        let iy = choose|i: int| 0 <= i < x.len() && x[i] == y[0];
        if jx > 0 && iy > 0 {
            assert(lex_lt(y[0], y[jx]));
            assert(lex_lt(x[0], x[iy]));
            lemma_lex_lt_transitive(x[0], y[0], x[0]);
            lemma_lex_lt_irreflexive(x[0]);
        }
        assert(x[0] == y[0]);
        assert forall|e: Seq<char>| x.drop_first().contains(e) <==> y.drop_first().contains(
            e,
        ) by {
            lemma_head_dropped_membership(x, e);
            lemma_head_dropped_membership(y, e);
        }
        lemma_strictly_sorted_same_members(x.drop_first(), y.drop_first());
        assert(x =~= y) by {
            assert(forall|i: int|
                0 < i < x.len() ==> x[i] == x.drop_first()[i - 1] && y[i] == y.drop_first()[i - 1]);
        }
    }
}

/// In a strictly sorted nonempty sequence, membership in the tail is
/// membership in the whole minus the head.
proof fn lemma_head_dropped_membership(x: Seq<Seq<char>>, e: Seq<char>)
    requires
        strictly_sorted(x),
        x.len() > 0,
    ensures
        x.drop_first().contains(e) <==> (x.contains(e) && e != x[0]),
{
    if x.drop_first().contains(e) {
        let j = choose|j: int| 0 <= j < x.drop_first().len() && x.drop_first()[j] == e;
        assert(x[j + 1] == e);
        assert(lex_lt(x[0], x[j + 1]));
        lemma_lex_lt_irreflexive(x[0]);
    }
    if x.contains(e) && e != x[0] {
        let j = choose|j: int| 0 <= j < x.len() && x[j] == e;
        assert(x.drop_first()[j - 1] == e);
    }
}

/// Equality test on strings, character by character.
pub fn strcmp(a: &str, b: &str) -> (r: bool)
    ensures
        r == (a@ == b@),
{
    let an = a.unicode_len();
    let bn = b.unicode_len();
    if an != bn {
        return false;
    }
    let mut i: usize = 0;
    while i < an
        invariant
            an == a@.len(),
            an == b@.len(),
            i <= an,
            forall|k: int| 0 <= k < i ==> a@[k] == b@[k],
        decreases an - i,
    {
        if a.get_char(i) != b.get_char(i) {
            return false;
        }
        i += 1;
    }
    proof {
        assert(a@ =~= b@);
    }
    true
}

/// Order test on strings: `r` holds exactly when `a` sorts strictly before
/// `b` in the lexicographic order of [`lex_lt`].
pub fn str_lt(a: &str, b: &str) -> (r: bool)
    ensures
        r == lex_lt(a@, b@),
{
    let an = a.unicode_len();
    let bn = b.unicode_len();
    let mut i: usize = 0;
    while i < an && i < bn
        invariant
            an == a@.len(),
            bn == b@.len(),
            i <= an,
            i <= bn,
            forall|k: int| 0 <= k < i ==> a@[k] == b@[k],
        decreases an - i,
    {
        let ca = a.get_char(i);
        let cb = b.get_char(i);
        if ca != cb {
            proof {
                lemma_lex_lt_common_prefix(a@, b@, i as int);
                assert(a@.skip(i as int)[0] == a@[i as int]);
                assert(b@.skip(i as int)[0] == b@[i as int]);
            }
            return ca < cb;
        }
        i += 1;
    }
    proof {
        lemma_lex_lt_common_prefix(a@, b@, i as int);
        if i == an {
            assert(a@.skip(i as int).len() == 0);
        } else {
            assert(b@.skip(i as int).len() == 0);
            assert(a@.skip(i as int).len() > 0);
        }
    }
    an < bn
}

/// Skipping a common prefix leaves the lexicographic comparison unchanged.
proof fn lemma_lex_lt_common_prefix(a: Seq<char>, b: Seq<char>, i: int)
    requires
        0 <= i <= a.len(),
        i <= b.len(),
        forall|k: int| 0 <= k < i ==> a[k] == b[k],
    ensures
        lex_lt(a, b) == lex_lt(a.skip(i), b.skip(i)),
    decreases i,
{
    if i > 0 {
        assert(a[0] == b[0]);
        lemma_lex_lt_common_prefix(a.drop_first(), b.drop_first(), i - 1);
        assert(a.skip(i) =~= a.drop_first().skip(i - 1));
        assert(b.skip(i) =~= b.drop_first().skip(i - 1));
    } else {
        assert(a.skip(0) =~= a);
        assert(b.skip(0) =~= b);
    }
}

} // verus!
