//! Sorting: numbers ascending and descending, strings in lexicographic
//! order, and items by weight keeping the order of equal weights.  Each
//! result is stated as the sorted permutation that `Seq::sort_by` gives.
use vstd::prelude::*;
use vstd::relations::{sorted_by, total_ordering};
use vstd::seq_lib::{to_multiset_insert, to_multiset_remove};
use crate::databasehelper::strings_view;
use crate::text::chars_of;

verus! {

/// Lexicographic order of character sequences, by code point (the order of
/// `String`'s `Ord`, as UTF-8 keeps the order of code points).
pub open spec fn lex_le(a: Seq<char>, b: Seq<char>) -> bool
    decreases a.len(),
{
    if a.len() == 0 {
        true
    } else if b.len() == 0 {
        false
    } else if a[0] != b[0] {
        a[0] < b[0]
    } else {
        lex_le(a.drop_first(), b.drop_first())
    }
}

/// `lex_le` as a relation.
pub open spec fn alpha_order() -> spec_fn(Seq<char>, Seq<char>) -> bool {
    |a: Seq<char>, b: Seq<char>| lex_le(a, b)
}

/// Ascending order of numbers.
pub open spec fn asc_order() -> spec_fn(i32, i32) -> bool {
    |a: i32, b: i32| a <= b
}

/// Descending order of numbers.
pub open spec fn desc_order() -> spec_fn(i32, i32) -> bool {
    |a: i32, b: i32| b <= a
}

/// Order of (position, weight) pairs: by weight, then by position.
pub open spec fn weight_order() -> spec_fn((usize, i32), (usize, i32)) -> bool {
    |a: (usize, i32), b: (usize, i32)| a.1 < b.1 || (a.1 == b.1 && a.0 <= b.0)
}

/// Each weight with its position.
pub open spec fn positioned(ws: Seq<i32>) -> Seq<(usize, i32)> {
    Seq::new(ws.len(), |i: int| (i as usize, ws[i]))
}

/// The items ordered by their weights; items of equal weight keep their
/// order.
pub open spec fn by_weight(items: Seq<Seq<char>>, ws: Seq<i32>) -> Seq<Seq<char>> {
    positioned(ws).sort_by(weight_order()).map_values(|p: (usize, i32)| items[p.0 as int])
}

proof fn lemma_lex_refl(a: Seq<char>)
    ensures
        lex_le(a, a),
    decreases a.len(),
{
    if a.len() > 0 {
        lemma_lex_refl(a.drop_first());
    }
}

proof fn lemma_lex_antisym(a: Seq<char>, b: Seq<char>)
    requires
        lex_le(a, b),
        lex_le(b, a),
    ensures
        a == b,
    decreases a.len(),
{
    if a.len() > 0 && b.len() > 0 {
        if a[0] == b[0] {
            lemma_lex_antisym(a.drop_first(), b.drop_first());
            assert(a =~= seq![a[0]] + a.drop_first());
            assert(b =~= seq![b[0]] + b.drop_first());
        }
    } else {
        assert(a.len() == 0 && b.len() == 0);
        assert(a =~= b);
    }
}

proof fn lemma_lex_trans(a: Seq<char>, b: Seq<char>, c: Seq<char>)
    requires
        lex_le(a, b),
        lex_le(b, c),
    ensures
        lex_le(a, c),
    decreases a.len(),
{
    if a.len() > 0 && b.len() > 0 && c.len() > 0 {
        if a[0] == b[0] && b[0] == c[0] {
            lemma_lex_trans(a.drop_first(), b.drop_first(), c.drop_first());
        }
    }
}

proof fn lemma_lex_total(a: Seq<char>, b: Seq<char>)
    ensures
        lex_le(a, b) || lex_le(b, a),
    decreases a.len(),
{
    if a.len() > 0 && b.len() > 0 {
        if a[0] == b[0] {
            lemma_lex_total(a.drop_first(), b.drop_first());
        } else {
        }
    }
}

/// `lex_le` is a total order.
pub proof fn lemma_alpha_order()
    ensures
        total_ordering(alpha_order()),
{
    let r = alpha_order();
    assert forall|x: Seq<char>| #[trigger] r(x, x) by {
        lemma_lex_refl(x);
    }
    assert forall|x: Seq<char>, y: Seq<char>| #[trigger] r(x, y) && #[trigger] r(y, x) implies x
        == y by {
        lemma_lex_antisym(x, y);
    }
    assert forall|x: Seq<char>, y: Seq<char>, z: Seq<char>| #[trigger] r(x, y) && #[trigger] r(
        y,
        z,
    ) implies r(x, z) by {
        lemma_lex_trans(x, y, z);
    }
    assert forall|x: Seq<char>, y: Seq<char>| #[trigger] r(x, y) || #[trigger] r(y, x) by {
        lemma_lex_total(x, y);
    }
}

/// The orders of numbers and of weighted positions are total orders.
pub proof fn lemma_number_orders()
    ensures
        total_ordering(asc_order()),
        total_ordering(desc_order()),
        total_ordering(weight_order()),
{
}

/// Two sorted sequences with the same items are equal.
pub proof fn lemma_sorted_unique<A>(a: Seq<A>, b: Seq<A>, leq: spec_fn(A, A) -> bool)
    requires
        total_ordering(leq),
        sorted_by(a, leq),
        sorted_by(b, leq),
        a.to_multiset() == b.to_multiset(),
    ensures
        a == b,
    decreases a.len(),
{
    broadcast use vstd::seq_lib::group_to_multiset_ensures;

    if a.len() == 0 {
        if b.len() > 0 {
            assert(b.to_multiset().count(b[0]) > 0);
        }
        assert(a =~= b);
    } else {
        assert(a.to_multiset().count(a[0]) > 0);
        assert(b.len() > 0) by {
            if b.len() == 0 {
                assert(b.to_multiset().count(a[0]) == 0);
            }
        }
        assert(b.to_multiset().count(b[0]) > 0);
        assert(b.contains(a[0]));
        assert(a.contains(b[0]));
        let i = choose|i: int| 0 <= i < b.len() && b[i] == a[0];
        let j = choose|j: int| 0 <= j < a.len() && a[j] == b[0];
        assert(leq(b[0], a[0])) by {
            if i > 0 {
                assert(leq(b[0], b[i]));
            }
        }
        assert(leq(a[0], b[0])) by {
            if j > 0 {
                assert(leq(a[0], a[j]));
            }
        }
        assert(a[0] == b[0]);
        to_multiset_remove(a, 0);
        to_multiset_remove(b, 0);
        assert(a.remove(0) =~= a.drop_first());
        assert(b.remove(0) =~= b.drop_first());
        assert(sorted_by(a.drop_first(), leq)) by {
            assert forall|x: int, y: int| 0 <= x < y < a.drop_first().len() implies leq(
                a.drop_first()[x],
                a.drop_first()[y],
            ) by {
                assert(leq(a[x + 1], a[y + 1]));
            }
        }
        assert(sorted_by(b.drop_first(), leq)) by {
            assert forall|x: int, y: int| 0 <= x < y < b.drop_first().len() implies leq(
                b.drop_first()[x],
                b.drop_first()[y],
            ) by {
                assert(leq(b[x + 1], b[y + 1]));
            }
        }
        lemma_sorted_unique(a.drop_first(), b.drop_first(), leq);
        assert(a =~= seq![a[0]] + a.drop_first());
        assert(b =~= seq![b[0]] + b.drop_first());
    }
}

/// Sorting keeps the number of items.
pub proof fn lemma_sort_by_len<A>(s: Seq<A>, leq: spec_fn(A, A) -> bool)
    requires
        total_ordering(leq),
    ensures
        s.sort_by(leq).len() == s.len(),
{
    s.lemma_sort_by_ensures(leq);
    vstd::seq_lib::to_multiset_len(s);
    vstd::seq_lib::to_multiset_len(s.sort_by(leq));
}

/// A sorted permutation of `s` is `s.sort_by(leq)`.
pub proof fn lemma_is_sort_by<A>(s: Seq<A>, r: Seq<A>, leq: spec_fn(A, A) -> bool)
    requires
        total_ordering(leq),
        sorted_by(r, leq),
        r.to_multiset() == s.to_multiset(),
    ensures
        r == s.sort_by(leq),
{
    s.lemma_sort_by_ensures(leq);
    lemma_sorted_unique(r, s.sort_by(leq), leq);
}

/// Inserting `x` where everything before is below it and everything after
/// above keeps a sequence sorted.
proof fn lemma_insert_sorted<A>(s: Seq<A>, p: int, x: A, leq: spec_fn(A, A) -> bool)
    requires
        0 <= p <= s.len(),
        sorted_by(s, leq),
        forall|j: int| 0 <= j < p ==> #[trigger] leq(s[j], x),
        forall|j: int| p <= j < s.len() ==> #[trigger] leq(x, s[j]),
    ensures
        sorted_by(s.insert(p, x), leq),
{
    let t = s.insert(p, x);
    assert forall|i: int, j: int| 0 <= i < j < t.len() implies leq(t[i], t[j]) by {
        if j < p {
            assert(leq(s[i], s[j]));
        } else if j == p {
            assert(leq(s[i], x));
        } else if i < p {
            assert(leq(s[i], s[j - 1]));
        } else if i == p {
            assert(leq(x, s[j - 1]));
        } else {
            assert(leq(s[i - 1], s[j - 1]));
        }
    }
}

/// Whether `a` comes no later than `b` in ascending (`desc == false`) or
/// descending order.
fn number_le(a: i32, b: i32, desc: bool) -> (r: bool)
    ensures
        r == (if desc { desc_order() } else { asc_order() })(a, b),
{
    if desc {
        b <= a
    } else {
        a <= b
    }
}

/// Sorts numbers ascending (`desc == false`) or descending.
pub fn sort_numbers(v: Vec<i32>, desc: bool) -> (r: Vec<i32>)
    ensures
        r@ == v@.sort_by(if desc { desc_order() } else { asc_order() }),
{
    let ghost leq = if desc { desc_order() } else { asc_order() };
    let mut out: Vec<i32> = Vec::new();
    let mut i: usize = 0;
    proof {
        lemma_number_orders();
        assert(v@.take(0) =~= Seq::<i32>::empty());
        assert(out@ =~= Seq::<i32>::empty());
    }
    while i < v.len()
        invariant
            i <= v@.len(),
            leq == (if desc { desc_order() } else { asc_order() }),
            total_ordering(leq),
            sorted_by(out@, leq),
            out@.to_multiset() == v@.take(i as int).to_multiset(),
        decreases v.len() - i,
    {
        let x = v[i];
        let mut p: usize = 0;
        while p < out.len() && number_le(out[p], x, desc)
            invariant
                p <= out@.len(),
                leq == (if desc { desc_order() } else { asc_order() }),
                forall|j: int| 0 <= j < p ==> #[trigger] leq(out@[j], x),
            decreases out.len() - p,
        {
            p = p + 1;
        }
        proof {
            assert forall|j: int| p <= j < out@.len() implies #[trigger] leq(x, out@[j]) by {
                assert(leq(x, out@[p as int]));
                assert(leq(out@[p as int], out@[j]));
            }
            lemma_insert_sorted(out@, p as int, x, leq);
            to_multiset_insert(out@, p as int, x);
            assert(v@.take(i + 1) =~= v@.take(i as int).push(x));
            vstd::seq_lib::to_multiset_build(v@.take(i as int), x);
        }
        out.insert(p, x);
        i = i + 1;
    }
    proof {
        assert(v@.take(i as int) =~= v@);
        lemma_is_sort_by(v@, out@, leq);
    }
    out
}

/// Decides `lex_le`.
pub fn lex_le_str(a: &str, b: &str) -> (r: bool)
    ensures
        r == lex_le(a@, b@),
{
    let ca = chars_of(a);
    let cb = chars_of(b);
    let mut i: usize = 0;
    proof {
        assert(a@.skip(0) =~= a@);
        assert(b@.skip(0) =~= b@);
    }
    while i < ca.len() && i < cb.len() && ca[i] == cb[i]
        invariant
            i <= ca@.len(),
            i <= cb@.len(),
            ca@ == a@,
            cb@ == b@,
            lex_le(a@, b@) == lex_le(a@.skip(i as int), b@.skip(i as int)),
        decreases ca.len() - i,
    {
        proof {
            assert(a@.skip(i as int).drop_first() =~= a@.skip(i + 1));
            assert(b@.skip(i as int).drop_first() =~= b@.skip(i + 1));
        }
        i = i + 1;
    }
    if i == ca.len() {
        true
    } else if i == cb.len() {
        false
    } else {
        ca[i] < cb[i]
    }
}

/// Sorts strings in lexicographic order.
pub fn sort_alpha(v: &Vec<String>) -> (r: Vec<String>)
    ensures
        strings_view(r@) == strings_view(v@).sort_by(alpha_order()),
{
    let ghost leq = alpha_order();
    let ghost vv = strings_view(v@);
    let mut out: Vec<String> = Vec::new();
    let mut i: usize = 0;
    proof {
        lemma_alpha_order();
        assert(vv.take(0) =~= Seq::<Seq<char>>::empty());
        assert(strings_view(out@) =~= Seq::<Seq<char>>::empty());
    }
    while i < v.len()
        invariant
            i <= v@.len(),
            vv == strings_view(v@),
            leq == alpha_order(),
            total_ordering(leq),
            sorted_by(strings_view(out@), leq),
            strings_view(out@).to_multiset() == vv.take(i as int).to_multiset(),
        decreases v.len() - i,
    {
        let x = v[i].clone();
        let mut p: usize = 0;
        while p < out.len() && lex_le_str(out[p].as_str(), x.as_str())
            invariant
                p <= out@.len(),
                leq == alpha_order(),
                forall|j: int| 0 <= j < p ==> #[trigger] leq(strings_view(out@)[j], x@),
            decreases out.len() - p,
        {
            p = p + 1;
        }
        let ghost o = strings_view(out@);
        proof {
            assert forall|j: int| p <= j < o.len() implies #[trigger] leq(x@, o[j]) by {
                lemma_lex_total(x@, o[p as int]);
                assert(leq(x@, o[p as int]));
                assert(leq(o[p as int], o[j]));
            }
            lemma_insert_sorted(o, p as int, x@, leq);
            to_multiset_insert(o, p as int, x@);
            assert(vv.take(i + 1) =~= vv.take(i as int).push(x@));
            vstd::seq_lib::to_multiset_build(vv.take(i as int), x@);
        }
        out.insert(p, x);
        proof {
            assert(strings_view(out@) =~= o.insert(p as int, v@[i as int]@));
        }
        i = i + 1;
    }
    proof {
        assert(vv.take(i as int) =~= vv);
        lemma_is_sort_by(vv, strings_view(out@), leq);
    }
    out
}

/// Orders the positions `0..ws.len()` by weight, keeping the order of
/// equal weights.
pub fn sort_by_weight(ws: &Vec<i32>) -> (r: Vec<(usize, i32)>)
    ensures
        r@ == positioned(ws@).sort_by(weight_order()),
{
    let ghost leq = weight_order();
    let ghost ps = positioned(ws@);
    let mut out: Vec<(usize, i32)> = Vec::new();
    let mut i: usize = 0;
    proof {
        lemma_number_orders();
        assert(ps.take(0) =~= Seq::<(usize, i32)>::empty());
        assert(out@ =~= Seq::<(usize, i32)>::empty());
    }
    while i < ws.len()
        invariant
            i <= ws@.len(),
            ps == positioned(ws@),
            leq == weight_order(),
            total_ordering(leq),
            sorted_by(out@, leq),
            out@.to_multiset() == ps.take(i as int).to_multiset(),
            forall|j: int| 0 <= j < out@.len() ==> (#[trigger] out@[j]).0 < i,
        decreases ws.len() - i,
    {
        let x = (i, ws[i]);
        let mut p: usize = 0;
        while p < out.len() && out[p].1 <= x.1
            invariant
                p <= out@.len(),
                x.0 == i,
                leq == weight_order(),
                forall|j: int| 0 <= j < out@.len() ==> (#[trigger] out@[j]).0 < i,
                forall|j: int| 0 <= j < p ==> #[trigger] leq(out@[j], x),
            decreases out.len() - p,
        {
            p = p + 1;
        }
        proof {
            assert forall|j: int| p <= j < out@.len() implies #[trigger] leq(x, out@[j]) by {
                assert(leq(out@[p as int], out@[j]));
            }
            lemma_insert_sorted(out@, p as int, x, leq);
            to_multiset_insert(out@, p as int, x);
            assert(ps[i as int] == x);
            assert(ps.take(i + 1) =~= ps.take(i as int).push(x));
            vstd::seq_lib::to_multiset_build(ps.take(i as int), x);
        }
        let ghost o = out@;
        out.insert(p, x);
        proof {
            assert forall|j: int| 0 <= j < out@.len() implies (#[trigger] out@[j]).0 < i + 1 by {
                if j < p {
                    assert(out@[j] == o[j]);
                } else if j > p {
                    assert(out@[j] == o[j - 1]);
                }
            }
        }
        i = i + 1;
    }
    proof {
        assert(ps.take(i as int) =~= ps);
        lemma_is_sort_by(ps, out@, leq);
    }
    out
}

} // verus!
