//! Ascending lexicographic order on strings, by Unicode code point.
//!
//! This is the order of the sorted read views: keys are compared character
//! by character, and a proper prefix comes before its extensions. On the
//! UTF-8 encodings that keys travel in, this coincides with byte order.

use vstd::prelude::*;
use vstd::relations::sorted_by;
use vstd::relations::total_ordering;
use vstd::string::StrSliceExecFns;

verus! {

/// `a` is lexicographically at most `b`, comparing code points.
pub open spec fn lex_le(a: Seq<char>, b: Seq<char>) -> bool
    decreases a.len(),
{
    if a.len() == 0 {
        true
    } else if b.len() == 0 {
        false
    } else if a[0] == b[0] {
        lex_le(a.drop_first(), b.drop_first())
    } else {
        (a[0] as u32) < (b[0] as u32)
    }
}

/// `lex_le` as a binary relation value, for vstd's ordering lemmas.
pub open spec fn lex_leq() -> spec_fn(Seq<char>, Seq<char>) -> bool {
    |a: Seq<char>, b: Seq<char>| lex_le(a, b)
}

proof fn lemma_lex_le_refl(a: Seq<char>)
    ensures
        lex_le(a, a),
    decreases a.len(),
{
    if a.len() > 0 {
        lemma_lex_le_refl(a.drop_first());
    }
}

proof fn lemma_lex_le_antisym(a: Seq<char>, b: Seq<char>)
    requires
        lex_le(a, b),
        lex_le(b, a),
    ensures
        a == b,
    decreases a.len(),
{
    if a.len() == 0 {
        assert(b.len() == 0);
        assert(a =~= b);
    } else {
        assert(b.len() > 0);
        assert(a[0] == b[0]);
        lemma_lex_le_antisym(a.drop_first(), b.drop_first());
        assert(a.len() == b.len());
        assert forall|i: int| 0 <= i < a.len() implies a[i] == b[i] by {
            if i > 0 {
                assert(a[i] == a.drop_first()[i - 1]);
                assert(b[i] == b.drop_first()[i - 1]);
            }
        }
        assert(a =~= b);
    }
}

proof fn lemma_lex_le_trans(a: Seq<char>, b: Seq<char>, c: Seq<char>)
    requires
        lex_le(a, b),
        lex_le(b, c),
    ensures
        lex_le(a, c),
    decreases a.len(),
{
    if a.len() == 0 {
    } else {
        assert(b.len() > 0);
        assert(c.len() > 0);
        if a[0] == b[0] && b[0] == c[0] {
            lemma_lex_le_trans(a.drop_first(), b.drop_first(), c.drop_first());
        }
    }
}

proof fn lemma_lex_le_connected(a: Seq<char>, b: Seq<char>)
    ensures
        lex_le(a, b) || lex_le(b, a),
    decreases a.len(),
{
    if a.len() == 0 {
        assert(lex_le(a, b));
    } else if b.len() == 0 {
        assert(lex_le(b, a));
    } else if a[0] == b[0] {
        lemma_lex_le_connected(a.drop_first(), b.drop_first());
    } else {
        vstd::utf8::char_u32_cast(a[0], (a[0] as u32));
        vstd::utf8::char_u32_cast(b[0], (b[0] as u32));
        assert((a[0] as u32) < (b[0] as u32) || (b[0] as u32) < (a[0] as u32));
    }
}

/// Lexicographic comparison is a total ordering, so sorting by it is
/// well-defined and has a unique result.
pub proof fn lemma_lex_total_ordering()
    ensures
        total_ordering(lex_leq()),
{
    let leq = lex_leq();
    assert forall|a: Seq<char>| #[trigger] leq(a, a) by {
        lemma_lex_le_refl(a);
    }
    assert forall|a: Seq<char>, b: Seq<char>| #[trigger] leq(a, b) && #[trigger] leq(b, a)
        implies a == b by {
        lemma_lex_le_antisym(a, b);
    }
    assert forall|a: Seq<char>, b: Seq<char>, c: Seq<char>|
        #[trigger] leq(a, b) && #[trigger] leq(b, c) implies leq(a, c) by {
        lemma_lex_le_trans(a, b, c);
    }
    assert forall|a: Seq<char>, b: Seq<char>| #[trigger] leq(a, b) || #[trigger] leq(b, a) by {
        lemma_lex_le_connected(a, b);
    }
}

/// Executable lexicographic comparison: `a` at most `b`.
pub fn lex_le_exec(a: &str, b: &str) -> (r: bool)
    ensures
        r == lex_le(a@, b@),
{
    let na = a.unicode_len();
    let nb = b.unicode_len();
    let mut i: usize = 0;
    proof {
        assert(a@.skip(0) =~= a@);
        assert(b@.skip(0) =~= b@);
    }
    loop
        invariant
            i <= na,
            i <= nb,
            na == a@.len(),
            nb == b@.len(),
            lex_le(a@, b@) == lex_le(a@.skip(i as int), b@.skip(i as int)),
        ensures
            i <= na,
            i <= nb,
            lex_le(a@, b@) == lex_le(a@.skip(i as int), b@.skip(i as int)),
            i == na || i == nb || a@[i as int] != b@[i as int],
        decreases na - i,
    {
        if i == na || i == nb {
            break;
        }
        let ca = a.get_char(i);
        let cb = b.get_char(i);
        if ca != cb {
            break;
        }
        proof {
            let sa = a@.skip(i as int);
            let sb = b@.skip(i as int);
            assert(sa[0] == a@[i as int] && sb[0] == b@[i as int]);
            assert(sa.drop_first() =~= a@.skip(i + 1));
            assert(sb.drop_first() =~= b@.skip(i + 1));
        }
        i = i + 1;
    }
    let ghost sa = a@.skip(i as int);
    let ghost sb = b@.skip(i as int);
    if i == na {
        proof {
            assert(sa.len() == 0);
        }
        true
    } else if i == nb {
        proof {
            assert(sa.len() > 0 && sb.len() == 0);
        }
        false
    } else {
        let ca = a.get_char(i);
        let cb = b.get_char(i);
        proof {
            assert(sa[0] == a@[i as int] && sb[0] == b@[i as int]);
            assert(sa.len() > 0 && sb.len() > 0 && sa[0] != sb[0]);
        }
        (ca as u32) < (cb as u32)
    }
}

/// Sorted-order determinism: two key collections holding the same keys —
/// as a multiset, so regardless of the order parsing or mutation produced
/// them in — sort to the same ascending lexicographic sequence.
pub proof fn lemma_sorted_keys_deterministic(a: Seq<Seq<char>>, b: Seq<Seq<char>>)
    requires
        a.to_multiset() == b.to_multiset(),
    ensures
        a.sort_by(lex_leq()) == b.sort_by(lex_leq()),
{
    lemma_lex_total_ordering();
    a.lemma_sort_by_ensures(lex_leq());
    b.lemma_sort_by_ensures(lex_leq());
    vstd::seq_lib::lemma_sorted_unique(a.sort_by(lex_leq()), b.sort_by(lex_leq()), lex_leq());
}

/// Sorts strings ascending lexicographically. The result is exactly
/// `sort_by` of the input's views under `lex_leq`: sorted, and a
/// permutation of the input.
pub(crate) fn sort_strings(v: &Vec<String>) -> (r: Vec<String>)
    ensures
        r.deep_view() == v.deep_view().sort_by(lex_leq()),
        sorted_by(r.deep_view(), lex_leq()),
        r.deep_view().to_multiset() == v.deep_view().to_multiset(),
{
    broadcast use vstd::seq_lib::group_to_multiset_ensures;
    broadcast use vstd::multiset::group_multiset_axioms;

    let ghost leq = lex_leq();
    let ghost all = v.deep_view();
    let mut r: Vec<String> = Vec::new();
    let mut i: usize = 0;
    proof {
        lemma_lex_total_ordering();
        assert(r.deep_view() =~= Seq::<Seq<char>>::empty());
        assert(all.take(0) =~= Seq::<Seq<char>>::empty());
    }
    while i < v.len()
        invariant
            0 <= i <= v.len(),
            all == v.deep_view(),
            all.len() == v.len(),
            total_ordering(leq),
            leq == lex_leq(),
            sorted_by(r.deep_view(), leq),
            r.deep_view().to_multiset() == all.take(i as int).to_multiset(),
        decreases v.len() - i,
    {
        let key = v[i].clone();
        let ghost kv = key@;
        let ghost old_rv = r.deep_view();
        let m = r.len();
        let mut p: usize = 0;
        loop
            invariant
                p <= m,
                m == r.len(),
                r.deep_view() == old_rv,
                key@ == kv,
                forall|j: int| 0 <= j < p ==> lex_le(old_rv[j], kv),
            ensures
                p <= m,
                r.deep_view() == old_rv,
                forall|j: int| 0 <= j < p ==> lex_le(old_rv[j], kv),
                p < m ==> !lex_le(old_rv[p as int], kv),
            decreases m - p,
        {
            if p == m {
                break;
            }
            let below = lex_le_exec(r[p].as_str(), key.as_str());
            proof {
                assert(old_rv[p as int] == r@[p as int]@);
                assert(below == lex_le(old_rv[p as int], kv));
            }
            if !below {
                break;
            }
            p = p + 1;
        }
        r.insert(p, key);
        proof {
            assert(forall|j: int| p <= j < old_rv.len() ==> lex_le(kv, old_rv[j])) by {
                if p < old_rv.len() {
                    lemma_lex_le_connected(old_rv[p as int], kv);
                    assert forall|j: int| p <= j < old_rv.len() implies lex_le(kv, old_rv[j]) by {
                        if j > p {
                            assert(leq(old_rv[p as int], old_rv[j]));
                            lemma_lex_le_trans(kv, old_rv[p as int], old_rv[j]);
                        }
                    }
                }
            }
            let new_rv = r.deep_view();
            assert(new_rv =~= old_rv.insert(p as int, kv)) by {
                assert(r@ =~= r@);
                assert(forall|j: int|
                    0 <= j < new_rv.len() ==> new_rv[j] == r@[j]@);
            }
            assert(new_rv =~= old_rv.take(p as int) + seq![kv] + old_rv.skip(p as int));
            assert(sorted_by(new_rv, leq)) by {
                assert forall|x: int, y: int| 0 <= x < y < new_rv.len() implies leq(
                    new_rv[x],
                    new_rv[y],
                ) by {
                    if y < p {
                    } else if x > p {
                        assert(leq(old_rv[x - 1], old_rv[y - 1]));
                    } else if x == p && y > p {
                        assert(new_rv[x] == kv && new_rv[y] == old_rv[y - 1]);
                    } else if y == p {
                        assert(new_rv[x] == old_rv[x] && new_rv[y] == kv);
                    } else {
                        // x < p < y
                        assert(leq(old_rv[x], kv));
                        assert(leq(kv, old_rv[y - 1]));
                        lemma_lex_le_trans(old_rv[x], kv, old_rv[y - 1]);
                    }
                }
            }
            assert(new_rv.to_multiset() =~= old_rv.to_multiset().insert(kv)) by {
                new_rv.to_multiset_ensures();
                old_rv.to_multiset_ensures();
                assert(new_rv.remove(p as int) =~= old_rv);
                assert(new_rv.remove(p as int).to_multiset() =~= new_rv.to_multiset().remove(
                    new_rv[p as int],
                ));
                assert(new_rv[p as int] == kv);
                assert(new_rv.contains(kv));
                assert(new_rv.to_multiset().count(kv) > 0);
            }
            assert(kv == all[i as int]);
            assert(all.take(i + 1) =~= all.take(i as int).push(kv));
            all.take(i as int).to_multiset_ensures();
            assert(all.take(i + 1).to_multiset() =~= all.take(i as int).to_multiset().insert(kv));
        }
        i = i + 1;
    }
    proof {
        assert(all.take(all.len() as int) =~= all);
        all.lemma_sort_by_ensures(leq);
        vstd::seq_lib::lemma_sorted_unique(r.deep_view(), all.sort_by(leq), leq);
    }
    r
}

} // verus!
