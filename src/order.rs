use vstd::prelude::*;

use crate::set_map::{distinct_strs, has_str, str_set};

verus! {

/// Lexicographic order on texts, character by character: a prefix comes first.
pub open spec fn lex_le(a: Seq<char>, b: Seq<char>) -> bool
    decreases a.len(),
{
    if a.len() == 0 {
        true
    } else if b.len() == 0 {
        false
    } else if (a[0] as u32) != (b[0] as u32) {
        (a[0] as u32) < (b[0] as u32)
    } else {
        lex_le(a.drop_first(), b.drop_first())
    }
}

/// Each string of `v` comes no later than the next one.
pub open spec fn sorted_strs(v: Seq<String>) -> bool {
    forall|i: int| 0 <= i < v.len() - 1 ==> lex_le(#[trigger] v[i]@, v[i + 1]@)
}

/// Of two texts, one comes no later than the other.
pub proof fn lemma_lex_total(a: Seq<char>, b: Seq<char>)
    ensures
        lex_le(a, b) || lex_le(b, a),
    decreases a.len(),
{
    if a.len() > 0 && b.len() > 0 && (a[0] as u32) == (b[0] as u32) {
        lemma_lex_total(a.drop_first(), b.drop_first());
    }
}

/// Whether `a` comes no later than `b`.
pub fn lex_le_exec(a: &String, b: &String) -> (r: bool)
    ensures
        r == lex_le(a@, b@),
{
    let sa = a.as_str();
    let sb = b.as_str();
    let na = sa.unicode_len();
    let nb = sb.unicode_len();
    let mut i: usize = 0;
    assert(a@.subrange(0, na as int) =~= a@);
    assert(b@.subrange(0, nb as int) =~= b@);
    while i < na && i < nb
        invariant
            na == a@.len(),
            nb == b@.len(),
            sa@ == a@,
            sb@ == b@,
            i <= na,
            i <= nb,
            lex_le(a@, b@) == lex_le(a@.subrange(i as int, na as int), b@.subrange(i as int, nb as int)),
        decreases na - i,
    {
        let ca = sa.get_char(i);
        let cb = sb.get_char(i);
        let ghost ra = a@.subrange(i as int, na as int);
        let ghost rb = b@.subrange(i as int, nb as int);
        assert(ra[0] == ca);
        assert(rb[0] == cb);
        if ca as u32 != cb as u32 {
            return (ca as u32) < (cb as u32);
        }
        assert(ra.drop_first() =~= a@.subrange(i + 1, na as int));
        assert(rb.drop_first() =~= b@.subrange(i + 1, nb as int));
        i = i + 1;
    }
    i == na
}

/// Places `x` in the sorted list `v`, after every string that comes no later than it.
#[verifier::spinoff_prover]
#[verifier::rlimit(40)]
fn insert_sorted(v: &mut Vec<String>, x: String)
    requires
        sorted_strs(old(v)@),
    ensures
        sorted_strs(final(v)@),
        final(v)@.len() == old(v)@.len() + 1,
        final(v)@.to_multiset() == old(v)@.to_multiset().insert(x),
        str_set(final(v)@) == str_set(old(v)@).insert(x@),
        distinct_strs(old(v)@) && !has_str(old(v)@, x@) ==> distinct_strs(final(v)@),
{
    let mut p: usize = 0;
    while p < v.len() && lex_le_exec(&v[p], &x)
        invariant
            p <= v@.len(),
            sorted_strs(v@),
            p > 0 ==> lex_le(v@[p - 1]@, x@),
        decreases v@.len() - p,
    {
        p = p + 1;
    }
    let ghost v0 = v@;
    v.insert(p, x);
    proof {
        let w = v@;
        assert(w == v0.insert(p as int, x));
        vstd::seq_lib::to_multiset_insert(v0, p as int, x);
        assert forall|i: int| 0 <= i < w.len() - 1 implies lex_le(#[trigger] w[i]@, w[i + 1]@) by {
            if i + 1 < p {
                assert(w[i] == v0[i] && w[i + 1] == v0[i + 1]);
            } else if i + 1 == p {
                assert(w[i] == v0[i] && w[i + 1] == x);
            } else if i == p {
                assert(w[i + 1] == v0[p as int]);
                assert(!lex_le(v0[p as int]@, x@));
                lemma_lex_total(x@, v0[p as int]@);
            } else {
                assert(w[i] == v0[i - 1] && w[i + 1] == v0[i]);
            }
        }
        assert forall|s: Seq<char>| has_str(w, s) <==> (has_str(v0, s) || s == x@) by {
            if has_str(w, s) {
                let j = choose|j: int| 0 <= j < w.len() && #[trigger] w[j]@ == s;
                if j < p {
                    assert(v0[j] == w[j]);
                } else if j > p {
                    assert(v0[j - 1] == w[j]);
                }
            }
            if has_str(v0, s) {
                let j = choose|j: int| 0 <= j < v0.len() && #[trigger] v0[j]@ == s;
                if j < p {
                    assert(w[j] == v0[j]);
                } else {
                    assert(w[j + 1] == v0[j]);
                }
            }
            if s == x@ {
                assert(w[p as int] == x);
            }
        }
        assert(str_set(w) =~= str_set(v0).insert(x@));
        if distinct_strs(v0) && !has_str(v0, x@) {
            assert forall|a: int, b: int| 0 <= a < w.len() && 0 <= b < w.len() && a != b implies
                #[trigger] w[a]@ != #[trigger] w[b]@ by {
                let a2 = if a < p { a } else { a - 1 };
                let b2 = if b < p { b } else { b - 1 };
                if a == p {
                    assert(w[b] == v0[b2]);
                } else if b == p {
                    assert(w[a] == v0[a2]);
                } else {
                    assert(w[a] == v0[a2]);
                    assert(w[b] == v0[b2]);
                }
            }
        }
    }
}

/// The strings of `v` in lexicographic order.
pub fn sort_strs(v: &Vec<String>) -> (r: Vec<String>)
    ensures
        sorted_strs(r@),
        r@.len() == v@.len(),
        r@.to_multiset() == v@.to_multiset(),
        str_set(r@) == str_set(v@),
        distinct_strs(v@) ==> distinct_strs(r@),
{
    let mut r: Vec<String> = Vec::new();
    let mut k: usize = 0;
    assert(str_set(r@) =~= str_set(v@.subrange(0, 0)));
    proof {
        assert(v@.subrange(0, 0) =~= Seq::<String>::empty());
        assert(r@ =~= v@.subrange(0, 0));
    }
    while k < v.len()
        invariant
            k <= v@.len(),
            r@.len() == k,
            r@.to_multiset() == v@.subrange(0, k as int).to_multiset(),
            sorted_strs(r@),
            str_set(r@) == str_set(v@.subrange(0, k as int)),
            distinct_strs(v@) ==> distinct_strs(r@),
        decreases v@.len() - k,
    {
        proof {
            if distinct_strs(v@) && has_str(r@, v@[k as int]@) {
                assert(str_set(v@.subrange(0, k as int)).contains(v@[k as int]@));
                let j = choose|j: int| 0 <= j < k && #[trigger] v@.subrange(0, k as int)[j]@ == v@[k as int]@;
                assert(v@.subrange(0, k as int)[j] == v@[j]);
            }
        }
        insert_sorted(&mut r, v[k].clone());
        proof {
            assert(v@.subrange(0, k + 1) =~= v@.subrange(0, k as int).push(v@[k as int]));
            vstd::seq_lib::to_multiset_build(v@.subrange(0, k as int), v@[k as int]);
            assert forall|s: Seq<char>| str_set(r@).contains(s) <==> has_str(v@.subrange(0, k + 1), s) by {
                crate::set_map::lemma_has_str_prefix(v@, k as int, s);
            }
        }
        k = k + 1;
        assert(str_set(r@) =~= str_set(v@.subrange(0, k as int)));
    }
    assert(v@.subrange(0, k as int) =~= v@);
    r
}

} // verus!
