use vstd::prelude::*;

verus! {

/// Strict lexicographic order on character sequences, comparing code points
/// position by position; a proper prefix sorts before its extensions.
pub open spec fn lex_lt(a: Seq<char>, b: Seq<char>) -> bool
    decreases a.len(),
{
    if b.len() == 0 {
        false
    } else if a.len() == 0 {
        true
    } else if (a[0] as int) < (b[0] as int) {
        true
    } else if (a[0] as int) > (b[0] as int) {
        false
    } else {
        lex_lt(a.drop_first(), b.drop_first())
    }
}

pub proof fn lemma_lex_lt_irreflexive(a: Seq<char>)
    ensures
        !lex_lt(a, a),
    decreases a.len(),
{
    if a.len() > 0 {
        lemma_lex_lt_irreflexive(a.drop_first());
    }
}

/// Two sequences that neither precede the other are equal.
pub proof fn lemma_lex_lt_connected(a: Seq<char>, b: Seq<char>)
    requires
        !lex_lt(a, b),
        !lex_lt(b, a),
    ensures
        a == b,
    decreases a.len(),
{
    if a.len() == 0 || b.len() == 0 {
        assert(a =~= b);
    } else {
        assert(!((a[0] as int) < (b[0] as int)));
        assert(!((b[0] as int) < (a[0] as int)));
        assert((a[0] as int) == (b[0] as int));
        assert(a[0] == b[0]);
        assert(!lex_lt(a.drop_first(), b.drop_first()));
        assert(!lex_lt(b.drop_first(), a.drop_first()));
        lemma_lex_lt_connected(a.drop_first(), b.drop_first());
        assert forall|i: int| 0 <= i < a.len() implies a[i] == b[i] by {
            if i > 0 {
                assert(a[i] == a.drop_first()[i - 1]);
                assert(b[i] == b.drop_first()[i - 1]);
            }
        }
        assert(a =~= b);
    }
}

pub proof fn lemma_lex_lt_asymmetric(a: Seq<char>, b: Seq<char>)
    requires
        lex_lt(a, b),
    ensures
        !lex_lt(b, a),
        a != b,
    decreases a.len(),
{
    if b.len() == 0 {
        // lex_lt(a, b) cannot hold
    } else if a.len() == 0 {
        assert(!lex_lt(b, a));
        assert(a != b);
    } else if (a[0] as int) < (b[0] as int) {
        assert(!lex_lt(b, a));
        assert(a != b) by {
            if a == b {
                assert(a[0] == b[0]);
            }
        }
    } else {
        assert((a[0] as int) == (b[0] as int));
        assert(lex_lt(a.drop_first(), b.drop_first()));
        lemma_lex_lt_asymmetric(a.drop_first(), b.drop_first());
        assert(!lex_lt(b, a));
        assert(a != b) by {
            if a == b {
                assert(a.drop_first() =~= b.drop_first());
            }
        }
    }
}

pub proof fn lemma_lex_lt_transitive(a: Seq<char>, b: Seq<char>, c: Seq<char>)
    requires
        lex_lt(a, b),
        lex_lt(b, c),
    ensures
        lex_lt(a, c),
    decreases a.len(),
{
    if b.len() == 0 {
        // lex_lt(a, b) cannot hold
    } else if c.len() == 0 {
        // lex_lt(b, c) cannot hold
    } else if a.len() == 0 {
        assert(lex_lt(a, c));
    } else if (a[0] as int) < (b[0] as int) {
        assert((b[0] as int) <= (c[0] as int));
        assert((a[0] as int) < (c[0] as int));
        assert(lex_lt(a, c));
    } else {
        assert((a[0] as int) == (b[0] as int));
        assert(lex_lt(a.drop_first(), b.drop_first()));
        if (b[0] as int) < (c[0] as int) {
            assert((a[0] as int) < (c[0] as int));
            assert(lex_lt(a, c));
        } else {
            assert((b[0] as int) == (c[0] as int));
            assert(lex_lt(b.drop_first(), c.drop_first()));
            lemma_lex_lt_transitive(a.drop_first(), b.drop_first(), c.drop_first());
            assert(lex_lt(a, c));
        }
    }
}

/// When the first `i` characters agree, the order is decided by the suffixes.
proof fn lemma_lex_lt_skip(a: Seq<char>, b: Seq<char>, i: int)
    requires
        0 <= i <= a.len(),
        i <= b.len(),
        forall|j: int| 0 <= j < i ==> a[j] == b[j],
    ensures
        lex_lt(a, b) == lex_lt(a.skip(i), b.skip(i)),
    decreases i,
{
    if i > 0 {
        assert(a[0] == b[0]);
        lemma_lex_lt_skip(a.drop_first(), b.drop_first(), i - 1);
        assert(a.drop_first().skip(i - 1) =~= a.skip(i));
        assert(b.drop_first().skip(i - 1) =~= b.skip(i));
    } else {
        assert(a.skip(0) =~= a);
        assert(b.skip(0) =~= b);
    }
}

/// Decides the lexicographic order of two strings, character by character.
pub fn str_lt(a: &str, b: &str) -> (r: bool)
    ensures
        r == lex_lt(a@, b@),
{
    let alen = a.unicode_len();
    let blen = b.unicode_len();
    let mut i: usize = 0;
    while i < alen && i < blen
        invariant
            alen == a@.len(),
            blen == b@.len(),
            i <= alen,
            i <= blen,
            forall|j: int| 0 <= j < i ==> a@[j] == b@[j],
        decreases alen - i,
    {
        let ca = a.get_char(i);
        let cb = b.get_char(i);
        if (ca as u32) < (cb as u32) {
            proof {
                lemma_lex_lt_skip(a@, b@, i as int);
                assert(a@.skip(i as int)[0] == a@[i as int]);
                assert(b@.skip(i as int)[0] == b@[i as int]);
            }
            return true;
        }
        if (ca as u32) > (cb as u32) {
            proof {
                lemma_lex_lt_skip(a@, b@, i as int);
                assert(a@.skip(i as int)[0] == a@[i as int]);
                assert(b@.skip(i as int)[0] == b@[i as int]);
            }
            return false;
        }
        proof {
            assert(a@[i as int] == b@[i as int]);
        }
        i = i + 1;
    }
    proof {
        lemma_lex_lt_skip(a@, b@, i as int);
        assert(a@.skip(i as int).len() == alen - i);
        assert(b@.skip(i as int).len() == blen - i);
    }
    alen < blen
}

} // verus!
