//! The order on text by which lines are merged.

use vstd::prelude::*;

verus! {

/// `a` comes no later than `b` in lexicographic order, characters compared
/// by code point. A proper prefix comes before every extension of it.
pub open spec fn lex_le(a: Seq<char>, b: Seq<char>) -> bool
    decreases a.len(),
{
    if a.len() == 0 {
        true
    } else if b.len() == 0 {
        false
    } else if a[0] == b[0] {
        lex_le(a.drop_first(), b.drop_first())
    } else {
        (a[0] as u32) < (b[0] as u32)
    }
}

/// Every line comes no later than each line after it.
pub open spec fn sorted(lines: Seq<Seq<char>>) -> bool {
    forall|i: int, j: int| 0 <= i < j < lines.len() ==> lex_le(lines[i], lines[j])
}

/// A shared prefix does not take part in the comparison.
pub proof fn lemma_lex_common_prefix(p: Seq<char>, a: Seq<char>, b: Seq<char>)
    ensures
        lex_le(p + a, p + b) == lex_le(a, b),
    decreases p.len(),
{
    if p.len() == 0 {
        assert(p + a =~= a);
        assert(p + b =~= b);
    } else {
        let q = p.drop_first();
        assert((p + a).drop_first() =~= q + a);
        assert((p + b).drop_first() =~= q + b);
        assert((p + a)[0] == (p + b)[0]);
        lemma_lex_common_prefix(q, a, b);
    }
}

/// Whatever lies between two texts that begin with `p` begins with `p` too.
pub proof fn lemma_lex_between_prefix(p: Seq<char>, a: Seq<char>, x: Seq<char>, c: Seq<char>)
    requires
        lex_le(p + a, x),
        lex_le(x, p + c),
    ensures
        p.len() <= x.len(),
        x.take(p.len() as int) == p,
    decreases p.len(),
{
    if p.len() == 0 {
        assert(x.take(0) =~= p);
    } else {
        let q = p.drop_first();
        assert((p + a).drop_first() =~= q + a);
        assert((p + c).drop_first() =~= q + c);
        assert((p + a)[0] == p[0]);
        assert((p + c)[0] == p[0]);
        assert(x.len() > 0);
        assert(x[0] == p[0]);
        lemma_lex_between_prefix(q, a, x.drop_first(), c);
        assert(x.drop_first().take(q.len() as int) == q);
        assert forall|k: int| 0 <= k < p.len() implies x.take(p.len() as int)[k] == p[k] by {
            if k > 0 {
                assert(x.drop_first().take(q.len() as int)[k - 1] == q[k - 1]);
            }
        }
        assert(x.take(p.len() as int) =~= p);
    }
}

/// Every text comes no later than itself.
pub proof fn lemma_lex_reflexive(a: Seq<char>)
    ensures
        lex_le(a, a),
    decreases a.len(),
{
    if a.len() > 0 {
        lemma_lex_reflexive(a.drop_first());
    }
}

/// Two texts of which each comes no later than the other are one text.
pub proof fn lemma_lex_antisymmetric(a: Seq<char>, b: Seq<char>)
    requires
        lex_le(a, b),
        lex_le(b, a),
    ensures
        a == b,
    decreases a.len(),
{
    if a.len() == 0 {
        assert(a =~= b);
    } else {
        lemma_lex_antisymmetric(a.drop_first(), b.drop_first());
        assert(a =~= seq![a[0]] + a.drop_first());
        assert(b =~= seq![b[0]] + b.drop_first());
    }
}

/// The order passes along a chain of three.
pub proof fn lemma_lex_transitive(a: Seq<char>, b: Seq<char>, c: Seq<char>)
    requires
        lex_le(a, b),
        lex_le(b, c),
    ensures
        lex_le(a, c),
    decreases a.len(),
{
    if a.len() > 0 && a[0] == b[0] && b[0] == c[0] {
        lemma_lex_transitive(a.drop_first(), b.drop_first(), c.drop_first());
    }
}

/// Of two different characters one has the smaller code point.
proof fn lemma_code_points_differ(x: char, y: char)
    requires
        x != y,
    ensures
        (x as u32) < (y as u32) || (y as u32) < (x as u32),
{
}

/// Of two texts one comes no later than the other.
pub proof fn lemma_lex_total(a: Seq<char>, b: Seq<char>)
    ensures
        lex_le(a, b) || lex_le(b, a),
    decreases a.len(),
{
    if a.len() > 0 && b.len() > 0 {
        if a[0] == b[0] {
            lemma_lex_total(a.drop_first(), b.drop_first());
        } else {
            lemma_code_points_differ(a[0], b[0]);
        }
    }
}

} // verus!
