//! Operations on lists of strings: removing occurrences, appending, and
//! the set operations of a list that holds each member once.
use vstd::prelude::*;
use crate::databasehelper::strings_view;

verus! {

/// The texts of a list of string slices.
pub open spec fn strs_view(v: Seq<&str>) -> Seq<Seq<char>> {
    v.map_values(|s: &str| s@)
}

/// `l` without its first `n` occurrences of `e`.
pub open spec fn remove_first_n(l: Seq<Seq<char>>, e: Seq<char>, n: nat) -> Seq<Seq<char>>
    decreases l.len(),
{
    if l.len() == 0 || n == 0 {
        l
    } else if l[0] == e {
        remove_first_n(l.drop_first(), e, (n - 1) as nat)
    } else {
        seq![l[0]] + remove_first_n(l.drop_first(), e, n)
    }
}

/// `l` without its last `n` occurrences of `e`.
pub open spec fn remove_last_n(l: Seq<Seq<char>>, e: Seq<char>, n: nat) -> Seq<Seq<char>> {
    remove_first_n(l.reverse(), e, n).reverse()
}

/// What `lrem` leaves of `l`: `count > 0` removes the first `count`
/// occurrences of `e`, `count < 0` the last `-count`, `count == 0` all.
pub open spec fn lrem_list(l: Seq<Seq<char>>, count: i32, e: Seq<char>) -> Seq<Seq<char>> {
    if count > 0 {
        remove_first_n(l, e, count as nat)
    } else if count < 0 {
        remove_last_n(l, e, (-count) as nat)
    } else {
        remove_first_n(l, e, l.len())
    }
}

/// The members `m` after adding each of `vs` in turn that is not a member
/// yet.
pub open spec fn add_members(m: Seq<Seq<char>>, vs: Seq<Seq<char>>) -> Seq<Seq<char>>
    decreases vs.len(),
{
    if vs.len() == 0 {
        m
    } else {
        let p = add_members(m, vs.drop_last());
        if p.contains(vs.last()) {
            p
        } else {
            p.push(vs.last())
        }
    }
}

/// The members of `m` that are not among `ms`, in order.
pub open spec fn without_members(m: Seq<Seq<char>>, ms: Seq<Seq<char>>) -> Seq<Seq<char>>
    decreases m.len(),
{
    if m.len() == 0 {
        m
    } else {
        let p = without_members(m.drop_last(), ms);
        if ms.contains(m.last()) {
            p
        } else {
            p.push(m.last())
        }
    }
}

/// Adding members keeps a list free of repetitions.
pub proof fn lemma_add_members_unique(m: Seq<Seq<char>>, vs: Seq<Seq<char>>)
    requires
        m.no_duplicates(),
    ensures
        add_members(m, vs).no_duplicates(),
        add_members(m, vs).len() >= m.len(),
        add_members(m, vs).len() <= m.len() + vs.len(),
        forall|x: Seq<char>| #[trigger]
            add_members(m, vs).contains(x) <==> m.contains(x) || vs.contains(x),
    decreases vs.len(),
{
    if vs.len() > 0 {
        let p = add_members(m, vs.drop_last());
        lemma_add_members_unique(m, vs.drop_last());
        assert forall|x: Seq<char>| #[trigger]
            add_members(m, vs).contains(x) <==> m.contains(x) || vs.contains(x) by {
            if vs.contains(x) && !vs.drop_last().contains(x) {
                let i = choose|i: int| 0 <= i < vs.len() && vs[i] == x;
                if i < vs.len() - 1 {
                    assert(vs.drop_last()[i] == x);
                }
                assert(x == vs.last());
                if !p.contains(x) {
                    assert(p.push(x)[p.len() as int] == x);
                }
            }
            if vs.drop_last().contains(x) {
                let i = choose|i: int| 0 <= i < vs.drop_last().len() && vs.drop_last()[i] == x;
                assert(vs[i] == x);
            }
            if !p.contains(vs.last()) && p.push(vs.last()).contains(x) {
                let i = choose|i: int| 0 <= i < p.len() + 1 && p.push(vs.last())[i] == x;
                if i < p.len() {
                    assert(p[i] == x);
                } else {
                    assert(vs[vs.len() - 1] == x);
                }
            }
            if p.contains(x) && !p.contains(vs.last()) {
                let i = choose|i: int| 0 <= i < p.len() && p[i] == x;
                assert(p.push(vs.last())[i] == x);
            }
        }
    }
}

/// Removing members keeps a list free of repetitions, and an item stays
/// exactly when it is not among the removed.
pub proof fn lemma_without_members(m: Seq<Seq<char>>, ms: Seq<Seq<char>>)
    requires
        m.no_duplicates(),
    ensures
        without_members(m, ms).no_duplicates(),
        without_members(m, ms).len() <= m.len(),
        forall|x: Seq<char>| #[trigger]
            without_members(m, ms).contains(x) <==> m.contains(x) && !ms.contains(x),
    decreases m.len(),
{
    if m.len() > 0 {
        let p = without_members(m.drop_last(), ms);
        lemma_without_members(m.drop_last(), ms);
        assert(m.drop_last().no_duplicates());
        assert(!m.drop_last().contains(m.last())) by {
            if m.drop_last().contains(m.last()) {
                let i = choose|i: int| 0 <= i < m.drop_last().len() && m.drop_last()[i] == m.last();
                assert(m[i] == m[m.len() - 1]);
            }
        }
        if !ms.contains(m.last()) {
            assert(!p.contains(m.last()));
            let q = p.push(m.last());
            assert forall|i: int, j: int|
                0 <= i < q.len() && 0 <= j < q.len() && i != j implies q[i] != q[j] by {
                if i == p.len() {
                    assert(p[j] == q[j]);
                } else if j == p.len() {
                    assert(p[i] == q[i]);
                } else {
                    assert(p[i] == q[i] && p[j] == q[j]);
                }
            }
        }
        assert forall|x: Seq<char>| #[trigger]
            without_members(m, ms).contains(x) <==> m.contains(x) && !ms.contains(x) by {
            if m.contains(x) {
                let i = choose|i: int| 0 <= i < m.len() && m[i] == x;
                if i < m.len() - 1 {
                    assert(m.drop_last()[i] == x);
                }
            }
            if m.drop_last().contains(x) {
                let i = choose|i: int| 0 <= i < m.drop_last().len() && m.drop_last()[i] == x;
                assert(m[i] == x);
            }
            if !ms.contains(m.last()) {
                if p.push(m.last()).contains(x) {
                    let i = choose|i: int| 0 <= i < p.len() + 1 && p.push(m.last())[i] == x;
                    if i < p.len() {
                        assert(p[i] == x);
                    }
                }
                if p.contains(x) {
                    let i = choose|i: int| 0 <= i < p.len() && p[i] == x;
                    assert(p.push(m.last())[i] == x);
                }
                if x == m.last() {
                    assert(p.push(m.last())[p.len() as int] == x);
                }
            }
        }
    }
}

/// The position of the first item equal to `e`.
pub fn position_of(v: &Vec<String>, e: &str) -> (r: Option<usize>)
    ensures
        match r {
            Some(i) => i < v@.len() && v@[i as int]@ == e@ && forall|j: int|
                0 <= j < i ==> (#[trigger] v@[j])@ != e@,
            None => !strings_view(v@).contains(e@),
        },
{
    let es = String::from_str(e);
    let mut i: usize = 0;
    while i < v.len()
        invariant
            i <= v@.len(),
            es@ == e@,
            forall|j: int| 0 <= j < i ==> (#[trigger] v@[j])@ != e@,
        decreases v.len() - i,
    {
        if v[i] == es {
            return Some(i);
        }
        i = i + 1;
    }
    proof {
        if strings_view(v@).contains(e@) {
            let j = choose|j: int| 0 <= j < v@.len() && strings_view(v@)[j] == e@;
            assert(v@[j]@ == e@);
        }
    }
    None
}

/// `l` without its first `n` occurrences of `e`.
pub fn without_first(l: &Vec<String>, e: &str, n: u64) -> (r: Vec<String>)
    ensures
        strings_view(r@) == remove_first_n(strings_view(l@), e@, n as nat),
{
    let ghost lv = strings_view(l@);
    let es = String::from_str(e);
    let mut out: Vec<String> = Vec::new();
    let mut removed: u64 = 0;
    let mut i: usize = 0;
    proof {
        assert(lv.skip(0) =~= lv);
        assert(strings_view(out@) + lv =~= lv);
    }
    while i < l.len()
        invariant
            i <= l@.len(),
            removed <= n,
            es@ == e@,
            lv == strings_view(l@),
            strings_view(out@) + remove_first_n(lv.skip(i as int), e@, (n - removed) as nat)
                == remove_first_n(lv, e@, n as nat),
        decreases l.len() - i,
    {
        let ghost s = lv.skip(i as int);
        let ghost o = strings_view(out@);
        proof {
            assert(s[0] == l@[i as int]@);
            assert(s.drop_first() =~= lv.skip(i + 1));
        }
        if removed < n && l[i] == es {
            removed = removed + 1;
        } else {
            out.push(l[i].clone());
            proof {
                assert(strings_view(out@) =~= o.push(l@[i as int]@));
                if removed == n {
                    assert(s =~= seq![s[0]] + s.drop_first());
                }
                assert(strings_view(out@) + remove_first_n(lv.skip(i + 1), e@, (n - removed) as nat)
                    =~= o + (seq![s[0]] + remove_first_n(s.drop_first(), e@, (n - removed) as nat)));
            }
        }
        i = i + 1;
    }
    proof {
        assert(lv.skip(i as int) =~= Seq::<Seq<char>>::empty());
        assert(strings_view(out@) + Seq::<Seq<char>>::empty() =~= strings_view(out@));
    }
    out
}

/// The items of `l` in reverse order.
pub fn reversed(l: &Vec<String>) -> (r: Vec<String>)
    ensures
        strings_view(r@) == strings_view(l@).reverse(),
{
    let mut out: Vec<String> = Vec::new();
    let mut i: usize = l.len();
    while i > 0
        invariant
            i <= l@.len(),
            strings_view(out@) == strings_view(l@).skip(i as int).reverse(),
        decreases i,
    {
        i = i - 1;
        let ghost o = strings_view(out@);
        out.push(l[i].clone());
        proof {
            assert(strings_view(out@) =~= o.push(l@[i as int]@));
            assert(strings_view(l@).skip(i as int).reverse() =~= strings_view(l@).skip(
                i + 1,
            ).reverse().push(strings_view(l@)[i as int]));
        }
    }
    proof {
        assert(strings_view(l@).skip(0) =~= strings_view(l@));
    }
    out
}

/// `l` without its last `n` occurrences of `e`.
pub fn without_last(l: &Vec<String>, e: &str, n: u64) -> (r: Vec<String>)
    ensures
        strings_view(r@) == remove_last_n(strings_view(l@), e@, n as nat),
{
    let rev = reversed(l);
    let kept = without_first(&rev, e, n);
    reversed(&kept)
}

/// `l` followed by the strings of `vs`.
pub fn appended(l: Vec<String>, vs: &Vec<&str>) -> (r: Vec<String>)
    ensures
        strings_view(r@) == strings_view(l@) + strs_view(vs@),
{
    let mut out = l;
    let ghost base = strings_view(out@);
    let mut i: usize = 0;
    while i < vs.len()
        invariant
            i <= vs@.len(),
            strings_view(out@) == base + strs_view(vs@).take(i as int),
        decreases vs.len() - i,
    {
        let ghost o = strings_view(out@);
        out.push(String::from_str(vs[i]));
        proof {
            assert(strings_view(out@) =~= o.push(vs@[i as int]@));
            assert(strs_view(vs@).take(i + 1) =~= strs_view(vs@).take(i as int).push(
                vs@[i as int]@,
            ));
        }
        i = i + 1;
        proof {
            assert(strings_view(out@) =~= base + strs_view(vs@).take(i as int));
        }
    }
    proof {
        assert(strs_view(vs@).take(i as int) =~= strs_view(vs@));
    }
    out
}

/// The items of `m` that are not among `ms`, in order.
pub fn members_without(m: &Vec<String>, ms: &Vec<&str>) -> (r: Vec<String>)
    ensures
        strings_view(r@) == without_members(strings_view(m@), strs_view(ms@)),
{
    let mut names: Vec<String> = Vec::new();
    let mut k: usize = 0;
    while k < ms.len()
        invariant
            k <= ms@.len(),
            strings_view(names@) == strs_view(ms@).take(k as int),
        decreases ms.len() - k,
    {
        let ghost o = strings_view(names@);
        names.push(String::from_str(ms[k]));
        proof {
            assert(strings_view(names@) =~= o.push(ms@[k as int]@));
            assert(strs_view(ms@).take(k + 1) =~= strs_view(ms@).take(k as int).push(
                ms@[k as int]@,
            ));
        }
        k = k + 1;
        proof {
            assert(strings_view(names@) =~= strs_view(ms@).take(k as int));
        }
    }
    proof {
        assert(strs_view(ms@).take(k as int) =~= strs_view(ms@));
    }
    let ghost mv = strings_view(m@);
    let ghost msv = strs_view(ms@);
    let mut out: Vec<String> = Vec::new();
    let mut i: usize = 0;
    proof {
        assert(mv.take(0) =~= Seq::<Seq<char>>::empty());
    }
    while i < m.len()
        invariant
            i <= m@.len(),
            mv == strings_view(m@),
            strings_view(names@) == msv,
            strings_view(out@) == without_members(mv.take(i as int), msv),
        decreases m.len() - i,
    {
        proof {
            assert(mv.take(i + 1).drop_last() =~= mv.take(i as int));
            assert(mv.take(i + 1).last() == m@[i as int]@);
        }
        match position_of(&names, m[i].as_str()) {
            Some(j) => {
                proof {
                    assert(strings_view(names@)[j as int] == m@[i as int]@);
                }
            },
            None => {
                let ghost o = strings_view(out@);
                out.push(m[i].clone());
                proof {
                    assert(strings_view(out@) =~= o.push(m@[i as int]@));
                }
            },
        }
        i = i + 1;
    }
    proof {
        assert(mv.take(i as int) =~= mv);
    }
    out
}


/// Adding members that are all members already changes nothing.
pub proof fn lemma_add_members_present(m: Seq<Seq<char>>, vs: Seq<Seq<char>>)
    requires
        forall|i: int| 0 <= i < vs.len() ==> m.contains(#[trigger] vs[i]),
    ensures
        add_members(m, vs) == m,
    decreases vs.len(),
{
    if vs.len() > 0 {
        lemma_add_members_present(m, vs.drop_last());
        assert(m.contains(vs[vs.len() - 1]));
    }
}

/// Adding the members of a list without repetitions to no members gives
/// that list.
pub proof fn lemma_add_members_fresh(m: Seq<Seq<char>>)
    requires
        m.no_duplicates(),
    ensures
        add_members(Seq::empty(), m) == m,
    decreases m.len(),
{
    if m.len() > 0 {
        let p = m.drop_last();
        assert(p.no_duplicates());
        lemma_add_members_fresh(p);
        assert(!p.contains(m.last())) by {
            if p.contains(m.last()) {
                let i = choose|i: int| 0 <= i < p.len() && p[i] == m.last();
                assert(m[i] == m[m.len() - 1]);
            }
        }
        assert(p.push(m.last()) =~= m);
    }
}

} // verus!
