//! What the options of `sort` do to a list: the numeric and alphabetic
//! orders, `LIMIT`'s offset and count, and options given together.
use vstd::prelude::*;
use crate::databasehelper::{SortFlags, DataBaseError, SuccessQuery, QueryView, strings_view};
use crate::sorting::{asc_order, desc_order, alpha_order, sort_numbers};
use crate::text::{spec_parse_i32, int_str, parse_i32, int_to_string};

verus! {

/// What `limit` makes of a list of `len` items, an offset and a count:
/// whether the list is emptied, and the offset and count that follow.
pub open spec fn limit_view(len: int, pos: i32, num: i32) -> (bool, i32, i32) {
    let l = len as i32;
    if pos >= l {
        (true, pos, num)
    } else if num == 0 {
        (true, pos, num)
    } else {
        (
            false,
            if pos < 0 {
                0
            } else {
                pos
            },
            if num < 0 || num > l {
                l
            } else {
                num
            },
        )
    }
}

/// `x` moved into `0..=len`.
pub open spec fn clamp_pos(x: int, len: int) -> int {
    if x < 0 {
        0
    } else if x > len {
        len
    } else {
        x
    }
}

/// At most `num` items from position `pos`, stopping at the end of the
/// list; nothing when `num` is not positive.
pub open spec fn build_view(items: Seq<Seq<char>>, pos: i32, num: i32) -> Seq<Seq<char>> {
    if num > 0 {
        items.subrange(
            clamp_pos(pos as int, items.len() as int),
            clamp_pos(pos + num, items.len() as int),
        )
    } else {
        Seq::empty()
    }
}

/// String replies of the items.
pub open spec fn str_replies(items: Seq<Seq<char>>) -> Seq<QueryView> {
    items.map_values(|x: Seq<char>| QueryView::Str(x))
}

/// The numbers the items hold, if each is an `i32`.
pub open spec fn parsed_numbers(items: Seq<Seq<char>>) -> Option<Seq<i32>> {
    if forall|i: int| 0 <= i < items.len() ==> (#[trigger] spec_parse_i32(items[i])) is Some {
        Some(items.map_values(|x: Seq<char>| spec_parse_i32(x)->Some_0))
    } else {
        None
    }
}

/// The order of numbers: ascending, or descending when `desc`.
pub open spec fn number_order(desc: bool) -> spec_fn(i32, i32) -> bool {
    if desc {
        desc_order()
    } else {
        asc_order()
    }
}

/// The items sorted as numbers and written back in decimal, or
/// `SortParseError` when one of them is not an `i32`.
pub open spec fn numeric_sort(items: Seq<Seq<char>>, desc: bool) -> Result<
    Seq<Seq<char>>,
    DataBaseError,
> {
    match parsed_numbers(items) {
        Some(ns) => Ok(ns.sort_by(number_order(desc)).map_values(|n: i32| int_str(n as int))),
        None => Err(DataBaseError::SortParseError),
    }
}

/// Some option is `LIMIT`.
pub open spec fn has_limit<'a>(fs: Seq<SortFlags<'a>>) -> bool {
    exists|i: int| 0 <= i < fs.len() && #[trigger] fs[i] is Limit
}

/// Some option is `DESC`.
pub open spec fn has_desc<'a>(fs: Seq<SortFlags<'a>>) -> bool {
    exists|i: int| 0 <= i < fs.len() && #[trigger] fs[i] is Desc
}

/// Some option is `ALPHA`.
pub open spec fn has_alpha<'a>(fs: Seq<SortFlags<'a>>) -> bool {
    exists|i: int| 0 <= i < fs.len() && #[trigger] fs[i] is Alpha
}

/// Some option is `BY`.
pub open spec fn has_by<'a>(fs: Seq<SortFlags<'a>>) -> bool {
    exists|i: int| 0 <= i < fs.len() && #[trigger] fs[i] is By
}

/// The pattern of the first `BY`.
pub open spec fn first_by<'a>(fs: Seq<SortFlags<'a>>) -> Seq<char>
    decreases fs.len(),
{
    if fs.len() == 0 {
        Seq::empty()
    } else if fs[0] is By {
        fs[0]->By_0@
    } else {
        first_by(fs.drop_first())
    }
}

/// The offset and count of the first `LIMIT`.
pub open spec fn first_limit<'a>(fs: Seq<SortFlags<'a>>) -> (i32, i32)
    decreases fs.len(),
{
    if fs.len() == 0 {
        (0, 0)
    } else if fs[0] is Limit {
        (fs[0]->Limit_0, fs[0]->Limit_1)
    } else {
        first_limit(fs.drop_first())
    }
}

/// Exactly a `LIMIT` and a `DESC` given together: numbers, descending, then
/// the limit.
pub open spec fn limit_desc_pair<'a>(fs: Seq<SortFlags<'a>>) -> bool {
    fs.len() == 2 && has_limit(fs) && has_desc(fs)
}

/// Goes through options given together, in order: `DESC` reverses the
/// list, `LIMIT` applies `limit_view` and sets the offset and count.
pub open spec fn apply_flags<'a>(
    cur: Seq<Seq<char>>,
    pos: i32,
    num: i32,
    fs: Seq<SortFlags<'a>>,
) -> (Seq<Seq<char>>, i32, i32)
    decreases fs.len(),
{
    if fs.len() == 0 {
        (cur, pos, num)
    } else {
        let step: (Seq<Seq<char>>, i32, i32) = match fs[0] {
            SortFlags::Desc => (cur.reverse(), pos, num),
            SortFlags::Limit(p, n) => {
                let lv = limit_view(cur.len() as int, p, n);
                (
                    if lv.0 {
                        Seq::empty()
                    } else {
                        cur
                    },
                    lv.1,
                    lv.2,
                )
            },
            _ => (cur, pos, num),
        };
        apply_flags(step.0, step.1, step.2, fs.drop_first())
    }
}

/// `apply_flags` on the length of the list alone.
pub open spec fn apply_flags_len<'a>(len: int, pos: i32, num: i32, fs: Seq<SortFlags<'a>>) -> (
    int,
    i32,
    i32,
)
    decreases fs.len(),
{
    if fs.len() == 0 {
        (len, pos, num)
    } else {
        let step: (int, i32, i32) = match fs[0] {
            SortFlags::Limit(p, n) => {
                let lv = limit_view(len, p, n);
                (
                    if lv.0 {
                        0
                    } else {
                        len
                    },
                    lv.1,
                    lv.2,
                )
            },
            _ => (len, pos, num),
        };
        apply_flags_len(step.0, step.1, step.2, fs.drop_first())
    }
}

/// `apply_flags` changes the length as `apply_flags_len` says.
pub proof fn lemma_apply_flags_len<'a>(
    cur: Seq<Seq<char>>,
    pos: i32,
    num: i32,
    fs: Seq<SortFlags<'a>>,
)
    ensures
        ({
            let a = apply_flags(cur, pos, num, fs);
            let b = apply_flags_len(cur.len() as int, pos, num, fs);
            a.0.len() == b.0 && a.1 == b.1 && a.2 == b.2
        }),
    decreases fs.len(),
{
    if fs.len() > 0 {
        match fs[0] {
            SortFlags::Desc => {
                lemma_apply_flags_len(cur.reverse(), pos, num, fs.drop_first());
            },
            SortFlags::Limit(p, n) => {
                let lv = limit_view(cur.len() as int, p, n);
                let c1 = if lv.0 {
                    Seq::<Seq<char>>::empty()
                } else {
                    cur
                };
                lemma_apply_flags_len(c1, lv.1, lv.2, fs.drop_first());
            },
            _ => {
                lemma_apply_flags_len(cur, pos, num, fs.drop_first());
            },
        }
    }
}

/// The list's length, and so every offset and count `sort` works out from
/// it, fits in an `i32`.
pub open spec fn sort_fits<'a>(len: int, flags: SortFlags<'a>) -> bool {
    len <= i32::MAX
}

/// What `sort` gives for `items` and the options, where `weigh` gives the
/// items ordered by the weights of a pattern.
pub open spec fn sort_outcome<'a>(
    items: Seq<Seq<char>>,
    flags: SortFlags<'a>,
    weigh: spec_fn(Seq<char>) -> Result<Seq<Seq<char>>, DataBaseError>,
) -> Result<Seq<Seq<char>>, DataBaseError> {
    let len = items.len() as i32;
    match flags {
        SortFlags::WithoutFlags => match numeric_sort(items, false) {
            Ok(s) => Ok(build_view(s, 0, len)),
            Err(e) => Err(e),
        },
        SortFlags::Alpha => Ok(build_view(items.sort_by(alpha_order()), 0, len)),
        SortFlags::Desc => match numeric_sort(items, true) {
            Ok(s) => Ok(build_view(s, 0, len)),
            Err(e) => Err(e),
        },
        SortFlags::Limit(p, n) => {
            let lv = limit_view(items.len() as int, p, n);
            match numeric_sort(
                if lv.0 {
                    Seq::empty()
                } else {
                    items
                },
                false,
            ) {
                Ok(s) => Ok(build_view(s, lv.1, lv.2)),
                Err(e) => Err(e),
            }
        },
        SortFlags::By(p) => match weigh(p@) {
            Ok(s) => Ok(build_view(s, 0, len)),
            Err(e) => Err(e),
        },
        SortFlags::CompositeFlags(fs) => if limit_desc_pair(fs@) {
            match numeric_sort(items, true) {
                Ok(s) => {
                    let lv = limit_view(s.len() as int, first_limit(fs@).0, first_limit(fs@).1);
                    Ok(
                        build_view(
                            if lv.0 {
                                Seq::empty()
                            } else {
                                s
                            },
                            lv.1,
                            lv.2,
                        ),
                    )
                },
                Err(e) => Err(e),
            }
        } else {
            let weighed = if has_by(fs@) {
                weigh(first_by(fs@))
            } else {
                Ok(items)
            };
            match weighed {
                Ok(i1) => {
                    let i2 = if has_alpha(fs@) && !has_by(fs@) {
                        i1.sort_by(alpha_order())
                    } else {
                        i1
                    };
                    let a = apply_flags(i2, 0, len, fs@);
                    Ok(build_view(a.0, a.1, a.2))
                },
                Err(e) => Err(e),
            }
        },
    }
}

/// The options given together hold a `LIMIT`.
pub fn flags_have_limit(fs: &Vec<SortFlags>) -> (r: bool)
    ensures
        r == has_limit(fs@),
{
    let mut i: usize = 0;
    while i < fs.len()
        invariant
            i <= fs@.len(),
            forall|j: int| 0 <= j < i ==> !(#[trigger] fs@[j] is Limit),
        decreases fs.len() - i,
    {
        if let SortFlags::Limit(_, _) = &fs[i] {
            return true;
        }
        i = i + 1;
    }
    false
}

/// The options given together hold a `DESC`.
pub fn flags_have_desc(fs: &Vec<SortFlags>) -> (r: bool)
    ensures
        r == has_desc(fs@),
{
    let mut i: usize = 0;
    while i < fs.len()
        invariant
            i <= fs@.len(),
            forall|j: int| 0 <= j < i ==> !(#[trigger] fs@[j] is Desc),
        decreases fs.len() - i,
    {
        if let SortFlags::Desc = &fs[i] {
            return true;
        }
        i = i + 1;
    }
    false
}

/// The options given together hold an `ALPHA`.
pub fn flags_have_alpha(fs: &Vec<SortFlags>) -> (r: bool)
    ensures
        r == has_alpha(fs@),
{
    let mut i: usize = 0;
    while i < fs.len()
        invariant
            i <= fs@.len(),
            forall|j: int| 0 <= j < i ==> !(#[trigger] fs@[j] is Alpha),
        decreases fs.len() - i,
    {
        if let SortFlags::Alpha = &fs[i] {
            return true;
        }
        i = i + 1;
    }
    false
}

/// The pattern of the first `BY` among the options, if any.
pub fn flags_first_by<'a>(fs: &Vec<SortFlags<'a>>) -> (r: Option<&'a str>)
    ensures
        r is Some <==> has_by(fs@),
        r is Some ==> r->Some_0@ == first_by(fs@),
{
    let mut i: usize = 0;
    proof {
        assert(fs@.skip(0) =~= fs@);
    }
    while i < fs.len()
        invariant
            i <= fs@.len(),
            forall|j: int| 0 <= j < i ==> !(#[trigger] fs@[j] is By),
            first_by(fs@) == first_by(fs@.skip(i as int)),
        decreases fs.len() - i,
    {
        proof {
            assert(fs@.skip(i as int).drop_first() =~= fs@.skip(i + 1));
        }
        if let SortFlags::By(p) = &fs[i] {
            return Some(*p);
        }
        i = i + 1;
    }
    None
}

/// The offset and count of the first `LIMIT` among the options.
pub fn flags_first_limit(fs: &Vec<SortFlags>) -> (r: (i32, i32))
    ensures
        r == first_limit(fs@),
{
    let mut i: usize = 0;
    proof {
        assert(fs@.skip(0) =~= fs@);
    }
    while i < fs.len()
        invariant
            i <= fs@.len(),
            first_limit(fs@) == first_limit(fs@.skip(i as int)),
        decreases fs.len() - i,
    {
        proof {
            assert(fs@.skip(i as int).drop_first() =~= fs@.skip(i + 1));
        }
        if let SortFlags::Limit(p, n) = &fs[i] {
            return (*p, *n);
        }
        i = i + 1;
    }
    (0, 0)
}

/// The numbers the strings hold, or `SortParseError`.
pub fn parse_numbers(items: &Vec<String>) -> (r: Result<Vec<i32>, DataBaseError>)
    ensures
        match r {
            Ok(ns) => parsed_numbers(strings_view(items@)) == Some(ns@),
            Err(e) => parsed_numbers(strings_view(items@)) is None && e
                == DataBaseError::SortParseError,
        },
{
    let ghost iv = strings_view(items@);
    let mut ns: Vec<i32> = Vec::new();
    let mut i: usize = 0;
    while i < items.len()
        invariant
            i <= items@.len(),
            iv == strings_view(items@),
            ns@.len() == i,
            forall|j: int| 0 <= j < i ==> spec_parse_i32(iv[j]) == Some(#[trigger] ns@[j]),
        decreases items.len() - i,
    {
        match parse_i32(items[i].as_str()) {
            Some(n) => {
                ns.push(n);
            },
            None => {
                proof {
                    assert(spec_parse_i32(iv[i as int]) is None);
                }
                return Err(DataBaseError::SortParseError);
            },
        }
        i = i + 1;
    }
    proof {
        assert forall|j: int| 0 <= j < iv.len() implies (#[trigger] spec_parse_i32(iv[j])) is Some by {
            assert(spec_parse_i32(iv[j]) == Some(ns@[j]));
        }
        assert(iv.map_values(|x: Seq<char>| spec_parse_i32(x)->Some_0) =~= ns@);
    }
    Ok(ns)
}

/// The decimal texts of numbers.
pub fn number_texts(ns: &Vec<i32>) -> (r: Vec<String>)
    ensures
        strings_view(r@) == ns@.map_values(|n: i32| int_str(n as int)),
{
    let mut out: Vec<String> = Vec::new();
    let mut i: usize = 0;
    while i < ns.len()
        invariant
            i <= ns@.len(),
            strings_view(out@) == ns@.take(i as int).map_values(|n: i32| int_str(n as int)),
        decreases ns.len() - i,
    {
        let ghost o = strings_view(out@);
        out.push(int_to_string(ns[i] as i128));
        proof {
            assert(strings_view(out@) =~= o.push(int_str(ns@[i as int] as int)));
            assert(ns@.take(i + 1).map_values(|n: i32| int_str(n as int)) =~= ns@.take(
                i as int,
            ).map_values(|n: i32| int_str(n as int)).push(int_str(ns@[i as int] as int)));
        }
        i = i + 1;
    }
    proof {
        assert(ns@.take(i as int) =~= ns@);
    }
    out
}

/// The strings sorted as numbers, ascending or descending, written back in
/// decimal.
pub fn numbers_sorted(items: &Vec<String>, desc: bool) -> (r: Result<Vec<String>, DataBaseError>)
    ensures
        match r {
            Ok(v) => numeric_sort(strings_view(items@), desc) == Ok::<
                Seq<Seq<char>>,
                DataBaseError,
            >(strings_view(v@)),
            Err(e) => numeric_sort(strings_view(items@), desc) == Err::<
                Seq<Seq<char>>,
                DataBaseError,
            >(e),
        },
{
    match parse_numbers(items) {
        Ok(ns) => {
            let sorted = sort_numbers(ns, desc);
            Ok(number_texts(&sorted))
        },
        Err(e) => Err(e),
    }
}


/// `limit_view` computed.
fn limit_of(len: usize, pos: i32, num: i32) -> (r: (bool, i32, i32))
    ensures
        r == limit_view(len as int, pos, num),
{
    let l = #[verifier::truncate] (len as i32);
    if pos >= l {
        (true, pos, num)
    } else if num == 0 {
        (true, pos, num)
    } else {
        (false, if pos < 0 {
            0
        } else {
            pos
        }, if num < 0 || num > l {
            l
        } else {
            num
        })
    }
}

/// Decides `sort_fits`.
pub fn sort_fits_len(len: usize, flags: &SortFlags) -> (b: bool)
    ensures
        b == sort_fits(len as int, *flags),
{
    len <= i32::MAX as usize
}

} // verus!
