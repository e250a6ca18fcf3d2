//! What holds of the commands taken together: what a read gives back of a
//! write, what one command undoes of another, what stays unchanged.
use vstd::prelude::*;
use std::sync::mpsc::Sender;
use crate::database::{Database, key_live, mset_dict, mset_ttls, is_ttl_line, dump_line_ok, value_line,
    line_cut_ok,
    loaded_values, ttl_item_ok, ttl_item, ttl_text, ttl_items, nonempty_parts, value_lines,
    expire_all, expireat_step, loaded_expires};
use crate::hash_shard::EntryView;
use crate::databasehelper::{SuccessQuery, DataBaseError, QueryView, ValueView, result_view, made_of_words,
    serialized, unserialized, kind_name, spaced, lemma_words_spaced};
use crate::text::{int_str, words, is_token, is_ws, lemma_words_token, lemma_words_token_then, split_on,
    lemma_split_on_first, lemma_split_on_none, lemma_nat_str_digits, lemma_digit_plain};
use crate::databasehelper::SortFlags;
use crate::sortflags::{parsed_numbers, number_order, sort_outcome, numeric_sort, has_alpha, has_by,
    has_limit, has_desc, apply_flags, build_view, limit_desc_pair, str_replies, first_by};
use crate::database::{outcome_replies, item_weights};
use crate::sorting::{lemma_number_orders, lemma_sort_by_len, by_weight, positioned, weight_order, lex_le,
    alpha_order, lemma_alpha_order};
use crate::request::{request_form, ReqForm, QForm, SuscriberRequest, Query, FlagForm, SortEnd,
    sort_scan, lemma_first_pos};
use crate::pubsub::{subscribe_all, suscriber_post};
use crate::dispatch::{ReponseForm, query_post};
use crate::text::{spec_parse_i32, spec_parse_i64, spec_parse_usize};
use crate::assoc::{keys_unique, assoc_has, assoc_pos, assoc_map, lemma_assoc_has, lemma_assoc_update,
    lemma_assoc_insert};
use crate::conftable::put;
use crate::server_conf::option_value;
use crate::channels::{ChannelsView, Listener, deliveries, names_unique, subscribed, unsubscribed, other_listeners,
    listeners_of, channel_pos,
    lemma_channel_pos, lemma_channel_absent};
use crate::strvec::{strs_view, add_members, lemma_add_members_unique, lemma_add_members_present,
    lemma_add_members_fresh, lemma_without_members};
use crate::text::lemma_parse_int_str;
use crate::strvec::{remove_first_n, lrem_list};
use vstd::utf8::{encode_utf8, encode_scalar, is_char_boundary, length_of_first_scalar,
    pop_first_scalar, leading_byte_width_1};

verus! {

/// A string that `set` stored is what `get` gives back, at any later time:
/// `set` drops the key's expiry time.
pub proof fn law_get_after_set(
    pre: Database,
    mid: Database,
    post: Database,
    key: &str,
    val: &str,
    r1: Result<SuccessQuery, DataBaseError>,
    r2: Result<SuccessQuery, DataBaseError>,
)
    requires
        Database::set_post(pre, mid, key, val, r1),
        Database::get_post(mid, post, key, r2),
    ensures
        result_view(r2) == Ok::<QueryView, DataBaseError>(QueryView::Str(val@)),
{
}

/// A deleted key does not exist.
pub proof fn law_exists_after_del(
    pre: Database,
    mid: Database,
    post: Database,
    key: &str,
    r1: Result<SuccessQuery, DataBaseError>,
    r2: Result<SuccessQuery, DataBaseError>,
)
    requires
        Database::del_post(pre, mid, key, r1),
        Database::exists_key_post(mid, post, key, r2),
    ensures
        result_view(r2) == Ok::<QueryView, DataBaseError>(QueryView::Boolean(false)),
{
}

/// `rename` moves the value: the new name holds what the old one held, and
/// the old name is gone.
pub proof fn law_rename_moves(
    pre: Database,
    post: Database,
    old_key: &str,
    new_key: &str,
    r: Result<SuccessQuery, DataBaseError>,
)
    requires
        Database::rename_post(pre, post, old_key, new_key, r),
        r is Ok,
        old_key@ != new_key@,
    ensures
        post.dict().contains_key(new_key@),
        post.dict()[new_key@].0 == pre.dict()[old_key@].0,
        !post.dict().contains_key(old_key@),
{
}

/// `flushdb` leaves no key: `dbsize` then answers 0.
pub proof fn law_dbsize_after_flushdb(
    pre: Database,
    mid: Database,
    r1: Result<SuccessQuery, DataBaseError>,
    r2: Result<SuccessQuery, DataBaseError>,
)
    requires
        Database::flushdb_post(pre, mid, r1),
        Database::dbsize_post(mid, r2),
    ensures
        result_view(r2) == Ok::<QueryView, DataBaseError>(QueryView::Integer(0)),
{
}

/// A value pushed at the head of a list that does not expire is what
/// `lpop` gives back.
pub proof fn law_lpop_after_lpush(
    pre: Database,
    mid: Database,
    post: Database,
    key: &str,
    values: Vec<&str>,
    r1: Result<SuccessQuery, DataBaseError>,
    r2: Result<SuccessQuery, DataBaseError>,
)
    requires
        Database::lpush_post(pre, mid, key, values, r1),
        Database::lpop_post(mid, post, key, r2),
        values@.len() == 1,
        r1 is Ok,
        !pre.ttls().contains_key(key@),
    ensures
        result_view(r2) == Ok::<QueryView, DataBaseError>(QueryView::Str(values@[0]@)),
{
    let vs = strs_view(values@);
    assert(vs.reverse()[0] == values@[0]@);
}

/// A value pushed at the tail of a list that does not expire is what
/// `rpop` gives back.
pub proof fn law_rpop_after_rpush(
    pre: Database,
    mid: Database,
    post: Database,
    key: &str,
    values: Vec<&str>,
    r1: Result<SuccessQuery, DataBaseError>,
    r2: Result<SuccessQuery, DataBaseError>,
)
    requires
        Database::rpush_post(pre, mid, key, values, r1),
        Database::rpop_post(mid, post, key, r2),
        values@.len() == 1,
        r1 is Ok,
        !pre.ttls().contains_key(key@),
    ensures
        result_view(r2) == Ok::<QueryView, DataBaseError>(QueryView::Str(values@[0]@)),
{
    let vs = strs_view(values@);
    let d = pre.dict();
    if key_live(d, pre.ttls(), mid.now(), key@) {
        let l = d[key@].0->List_0;
        assert((l + vs).last() == vs[0]);
    } else {
        assert(vs.last() == vs[0]);
    }
}

/// Adding the same members a second time to a set that does not expire
/// adds nothing and changes no member.
pub proof fn law_sadd_twice(
    pre: Database,
    mid: Database,
    post: Database,
    key: &str,
    values: Vec<&str>,
    r1: Result<SuccessQuery, DataBaseError>,
    r2: Result<SuccessQuery, DataBaseError>,
)
    requires
        pre.wf(),
        Database::sadd_post(pre, mid, key, values, r1),
        Database::sadd_post(mid, post, key, values, r2),
        r1 is Ok,
        !pre.ttls().contains_key(key@),
    ensures
        result_view(r2) == Ok::<QueryView, DataBaseError>(QueryView::Integer(0)),
        post.dict()[key@].0 == mid.dict()[key@].0,
{
    pre.lemma_wf();
    let vs = strs_view(values@);
    let d = pre.dict();
    let base = if key_live(d, pre.ttls(), mid.now(), key@) {
        d[key@].0->Members_0
    } else {
        Seq::empty()
    };
    assert(base.no_duplicates());
    lemma_add_members_unique(base, vs);
    let m1 = add_members(base, vs);
    assert forall|i: int| 0 <= i < vs.len() implies m1.contains(#[trigger] vs[i]) by {
        assert(vs.contains(vs[i]));
    }
    lemma_add_members_present(m1, vs);
}

/// A member just added to a set that does not expire is a member.
pub proof fn law_sismember_after_sadd(
    pre: Database,
    mid: Database,
    post: Database,
    key: &str,
    values: Vec<&str>,
    value: &str,
    r1: Result<SuccessQuery, DataBaseError>,
    r2: Result<SuccessQuery, DataBaseError>,
)
    requires
        pre.wf(),
        Database::sadd_post(pre, mid, key, values, r1),
        Database::sismember_post(mid, post, key, value, r2),
        r1 is Ok,
        strs_view(values@).contains(value@),
        !pre.ttls().contains_key(key@),
    ensures
        result_view(r2) == Ok::<QueryView, DataBaseError>(QueryView::Boolean(true)),
{
    pre.lemma_wf();
    let vs = strs_view(values@);
    let d = pre.dict();
    let base = if key_live(d, pre.ttls(), mid.now(), key@) {
        d[key@].0->Members_0
    } else {
        Seq::empty()
    };
    lemma_add_members_unique(base, vs);
}

/// Adding `n` to a number and then taking `n` away gives the number back,
/// for a key that does not expire.
pub proof fn law_decrby_undoes_incrby(
    pre: Database,
    mid: Database,
    post: Database,
    key: &str,
    x: i32,
    n: i32,
    r1: Result<SuccessQuery, DataBaseError>,
    r2: Result<SuccessQuery, DataBaseError>,
)
    requires
        Database::incrby_post(pre, mid, key, n, r1),
        Database::decrby_post(mid, post, key, n, r2),
        pre.dict().contains_key(key@),
        pre.dict()[key@].0 == ValueView::Str(int_str(x as int)),
        !pre.ttls().contains_key(key@),
        i32::MIN <= x + n <= i32::MAX,
        n > i32::MIN,
    ensures
        result_view(r2) == Ok::<QueryView, DataBaseError>(QueryView::Integer(x)),
        post.dict()[key@].0 == ValueView::Str(int_str(x as int)),
{
    lemma_parse_int_str(x as int, true, i32::MIN as int, i32::MAX as int);
    lemma_parse_int_str(x + n, true, i32::MIN as int, i32::MAX as int);
}

/// An element `lset` wrote is what `lindex` reads at that position, for a
/// list that does not expire.
pub proof fn law_lindex_after_lset(
    pre: Database,
    mid: Database,
    post: Database,
    key: &str,
    index: usize,
    value: &str,
    r1: Result<SuccessQuery, DataBaseError>,
    r2: Result<SuccessQuery, DataBaseError>,
)
    requires
        Database::lset_post(pre, mid, key, index, value, r1),
        Database::lindex_post(mid, post, key, index as i32, r2),
        r1 is Ok,
        index <= i32::MAX,
        !pre.ttls().contains_key(key@),
    ensures
        result_view(r2) == Ok::<QueryView, DataBaseError>(QueryView::Str(value@)),
{
}

/// After `persist` removes a timeout, `ttl` answers that the key does not
/// expire.
pub proof fn law_ttl_after_persist(
    pre: Database,
    mid: Database,
    post: Database,
    key: &str,
    r1: Result<SuccessQuery, DataBaseError>,
    r2: Result<SuccessQuery, DataBaseError>,
)
    requires
        Database::persist_post(pre, mid, key, r1),
        Database::ttl_post(mid, post, key, r2),
        result_view(r1) == Ok::<QueryView, DataBaseError>(QueryView::Boolean(true)),
    ensures
        result_view(r2) == Ok::<QueryView, DataBaseError>(QueryView::Integer(-1i32)),
{
}

/// A value whose texts are all words reads back from the text it is stored
/// as: `unserialize` undoes `serialize`.
pub proof fn law_unserialize_after_serialize(v: ValueView)
    requires
        v.wf(),
        made_of_words(v),
    ensures
        unserialized(serialized(v)) == Some(v),
{
    reveal_strlit("String");
    reveal_strlit("List");
    reveal_strlit("Set");
    let k = kind_name(v);
    assert(is_token(k));
    let rest = match v {
        ValueView::Str(t) => t,
        ValueView::List(l) => spaced(l),
        ValueView::Members(m) => spaced(m),
    };
    lemma_words_token_then(k, ' ', rest);
    let w = words(serialized(v));
    assert(w == seq![k] + words(rest));
    assert(w[0] == k);
    assert(w.drop_first() =~= words(rest));
    match v {
        ValueView::Str(t) => {
            lemma_words_token(t);
        },
        ValueView::List(l) => {
            lemma_words_spaced(l);
        },
        ValueView::Members(m) => {
            lemma_words_spaced(m);
            lemma_add_members_fresh(m);
        },
    }
}

/// A key whose expiry time has come is gone: `get` answers `Nil`.
pub proof fn law_get_after_expiry(
    pre: Database,
    post: Database,
    key: &str,
    r: Result<SuccessQuery, DataBaseError>,
)
    requires
        Database::get_post(pre, post, key, r),
        pre.ttls().contains_key(key@),
        pre.ttls()[key@] < post.now(),
    ensures
        result_view(r) == Ok::<QueryView, DataBaseError>(QueryView::Nil),
{
}

/// `rename` moves the expiry time with the value: the new name expires when
/// the old one would have, and the old name has no expiry time left.
pub proof fn law_rename_moves_ttl(
    pre: Database,
    post: Database,
    old_key: &str,
    new_key: &str,
    r: Result<SuccessQuery, DataBaseError>,
)
    requires
        Database::rename_post(pre, post, old_key, new_key, r),
        r is Ok,
        old_key@ != new_key@,
    ensures
        post.ttls().contains_key(new_key@) == pre.ttls().contains_key(old_key@),
        pre.ttls().contains_key(old_key@) ==> post.ttls()[new_key@] == pre.ttls()[old_key@],
        !post.ttls().contains_key(old_key@),
{
}

/// `expireat` with a time already past deletes a live key at once.
pub proof fn law_expireat_past_deletes(
    pre: Database,
    mid: Database,
    post: Database,
    key: &str,
    seconds: i64,
    r1: Result<SuccessQuery, DataBaseError>,
    r2: Result<SuccessQuery, DataBaseError>,
)
    requires
        Database::expireat_post(pre, mid, key, seconds, r1),
        Database::exists_key_post(mid, post, key, r2),
        result_view(r1) == Ok::<QueryView, DataBaseError>(QueryView::Boolean(true)),
        seconds < mid.now(),
    ensures
        result_view(r2) == Ok::<QueryView, DataBaseError>(QueryView::Boolean(false)),
{
}

/// `getdel` that gives a string deletes the key.
pub proof fn law_exists_after_getdel(
    pre: Database,
    mid: Database,
    post: Database,
    key: &str,
    r1: Result<SuccessQuery, DataBaseError>,
    r2: Result<SuccessQuery, DataBaseError>,
)
    requires
        Database::getdel_post(pre, mid, key, r1),
        Database::exists_key_post(mid, post, key, r2),
        r1 matches Ok(SuccessQuery::String(_)),
    ensures
        result_view(r2) == Ok::<QueryView, DataBaseError>(QueryView::Boolean(false)),
{
}

/// After a `getset` that succeeds, `get` gives the new string, at any later
/// time: `getset` drops the expiry time.
pub proof fn law_get_after_getset(
    pre: Database,
    mid: Database,
    post: Database,
    key: &str,
    val: &str,
    r1: Result<SuccessQuery, DataBaseError>,
    r2: Result<SuccessQuery, DataBaseError>,
)
    requires
        Database::getset_post(pre, mid, key, val, r1),
        Database::get_post(mid, post, key, r2),
        r1 is Ok,
    ensures
        result_view(r2) == Ok::<QueryView, DataBaseError>(QueryView::Str(val@)),
{
}

/// `append` to a key that does not exist and does not expire works as
/// `set`: `get` then gives the appended string.
pub proof fn law_get_after_append_absent(
    pre: Database,
    mid: Database,
    post: Database,
    key: &str,
    val: &str,
    r1: Result<SuccessQuery, DataBaseError>,
    r2: Result<SuccessQuery, DataBaseError>,
)
    requires
        Database::append_post(pre, mid, key, val, r1),
        Database::get_post(mid, post, key, r2),
        !pre.dict().contains_key(key@),
        !pre.ttls().contains_key(key@),
    ensures
        result_view(r2) == Ok::<QueryView, DataBaseError>(QueryView::Str(val@)),
{
}

/// A member removed from a set that does not expire is no longer a member.
pub proof fn law_sismember_after_srem(
    pre: Database,
    mid: Database,
    post: Database,
    key: &str,
    values: Vec<&str>,
    value: &str,
    r1: Result<SuccessQuery, DataBaseError>,
    r2: Result<SuccessQuery, DataBaseError>,
)
    requires
        pre.wf(),
        Database::srem_post(pre, mid, key, values, r1),
        Database::sismember_post(mid, post, key, value, r2),
        r1 is Ok,
        strs_view(values@).contains(value@),
        !pre.ttls().contains_key(key@),
    ensures
        result_view(r2) == Ok::<QueryView, DataBaseError>(QueryView::Boolean(false)),
{
    pre.lemma_wf();
    let d = pre.dict();
    if key_live(d, pre.ttls(), mid.now(), key@) {
        if let ValueView::Members(m) = d[key@].0 {
            lemma_without_members(m, strs_view(values@));
        }
    }
}

/// The length `lpush` gives is what `llen` then reads, for a list that does
/// not expire.
pub proof fn law_llen_after_lpush(
    pre: Database,
    mid: Database,
    post: Database,
    key: &str,
    values: Vec<&str>,
    r1: Result<SuccessQuery, DataBaseError>,
    r2: Result<SuccessQuery, DataBaseError>,
)
    requires
        Database::lpush_post(pre, mid, key, values, r1),
        Database::llen_post(mid, post, key, r2),
        r1 is Ok,
        !pre.ttls().contains_key(key@),
    ensures
        result_view(r2) == result_view(r1),
{
}

/// `sort` of a list of numbers gives each of its numbers as often as it
/// occurs, from small to large, or from large to small with `DESC`.
pub proof fn law_sort_orders_numbers(
    items: Seq<Seq<char>>,
    desc: bool,
    weigh: spec_fn(Seq<char>) -> Result<Seq<Seq<char>>, DataBaseError>,
)
    requires
        parsed_numbers(items) is Some,
        items.len() <= i32::MAX,
    ensures
        ({
            let ns = parsed_numbers(items)->Some_0;
            let s = ns.sort_by(number_order(desc));
            let flags = if desc {
                SortFlags::Desc
            } else {
                SortFlags::WithoutFlags
            };
            &&& s.to_multiset() == ns.to_multiset()
            &&& forall|i: int, j: int|
                0 <= i < j < s.len() ==> (if desc {
                    s[j] <= s[i]
                } else {
                    s[i] <= s[j]
                })
            &&& sort_outcome(items, flags, weigh) == Ok::<Seq<Seq<char>>, DataBaseError>(
                s.map_values(|n: i32| int_str(n as int)),
            )
        }),
{
    let ns = parsed_numbers(items)->Some_0;
    let leq = number_order(desc);
    lemma_number_orders();
    ns.lemma_sort_by_ensures(leq);
    lemma_sort_by_len(ns, leq);
    let s = ns.sort_by(leq);
    let out = s.map_values(|n: i32| int_str(n as int));
    assert forall|i: int, j: int| 0 <= i < j < s.len() implies (if desc {
        s[j] <= s[i]
    } else {
        s[i] <= s[j]
    }) by {
        assert(leq(s[i], s[j]));
    }
    assert(out.len() == items.len());
    assert(out.subrange(0, items.len() as i32 as int) =~= out);
    if items.len() == 0 {
        assert(out =~= Seq::<Seq<char>>::empty());
    }
    if desc {
        assert(numeric_sort(items, true) == Ok::<Seq<Seq<char>>, DataBaseError>(out));
    } else {
        assert(numeric_sort(items, false) == Ok::<Seq<Seq<char>>, DataBaseError>(out));
    }
}

/// The key of the `j`-th key/value pair of `ps`.
pub open spec fn pair_key(ps: Seq<Seq<char>>, j: int) -> Seq<char> {
    ps[2 * j]
}

/// No pair after the `j`-th among the first `n` has the same key.
pub open spec fn last_of_its_key(ps: Seq<Seq<char>>, j: int, n: int) -> bool {
    forall|k: int| j < k < n ==> #[trigger] pair_key(ps, k) != pair_key(ps, j)
}

proof fn lemma_mset_last_wins(
    d: Map<Seq<char>, EntryView>,
    t: Map<Seq<char>, u64>,
    ps: Seq<Seq<char>>,
    n: nat,
    now: u64,
    j: int,
)
    requires
        0 <= j < n,
        2 * n <= ps.len(),
        last_of_its_key(ps, j, n as int),
    ensures
        mset_dict(d, ps, n, now).contains_key(ps[2 * j]),
        mset_dict(d, ps, n, now)[ps[2 * j]] == (ValueView::Str(ps[2 * j + 1]), now),
        !mset_ttls(t, ps, n).contains_key(ps[2 * j]),
    decreases n,
{
    if j < n - 1 {
        assert(pair_key(ps, n - 1) != pair_key(ps, j));
        lemma_mset_last_wins(d, t, ps, (n - 1) as nat, now, j);
    }
}

/// After `mset`, `mget` gives for each key the value of the last pair that
/// set it, at any later time: `mset` drops the expiry times of its keys.
pub proof fn law_mget_after_mset(
    pre: Database,
    mid: Database,
    post: Database,
    params: Vec<&str>,
    keys: Vec<&str>,
    r1: Result<SuccessQuery, DataBaseError>,
    r2: Result<SuccessQuery, DataBaseError>,
    i: int,
    j: int,
)
    requires
        Database::mset_post(pre, mid, params, r1),
        Database::mget_post(mid, post, keys, r2),
        0 <= j < params@.len() / 2,
        last_of_its_key(strs_view(params@), j, (params@.len() / 2) as int),
        0 <= i < keys@.len(),
        keys@[i]@ == params@[2 * j]@,
    ensures
        result_view(r2) matches Ok(QueryView::List(l)) && l[i] == QueryView::Str(params@[2 * j + 1]@),
{
    let ps = strs_view(params@);
    let n = (params@.len() / 2) as nat;
    lemma_mset_last_wins(pre.dict(), pre.ttls(), ps, n, mid.now(), j);
    assert(ps[2 * j] == params@[2 * j]@);
    assert(ps[2 * j + 1] == params@[2 * j + 1]@);
    assert(strs_view(keys@)[i] == keys@[i]@);
}

/// A configuration option written by `set_config` (the table `put` gives)
/// is what a read of that option then finds; every other option keeps its
/// value, and no option occurs twice.
pub proof fn law_option_after_put(s: Seq<(Seq<char>, Seq<char>)>, k: Seq<char>, v: Seq<char>)
    requires
        keys_unique(s),
    ensures
        keys_unique(put(s, k, v)),
        option_value(put(s, k, v), k) == Some(v),
        forall|k2: Seq<char>|
            k2 != k ==> #[trigger] option_value(put(s, k, v), k2) == option_value(s, k2),
{
    lemma_assoc_has(s, k);
    if assoc_has(s, k) {
        let p = assoc_pos(s, k);
        lemma_assoc_update(s, p, (k, v));
    } else {
        lemma_assoc_insert(s, s.len() as int, (k, v));
        assert(s.insert(s.len() as int, (k, v)) =~= s.push((k, v)));
    }
}

/// `r` holds the items at the positions `perm`, each position once, in an
/// order in which the weights `ws` of those positions do not decrease and
/// positions of equal weight keep their order.
pub open spec fn stable_weight_order(
    items: Seq<Seq<char>>,
    ws: Seq<i32>,
    perm: Seq<int>,
    r: Seq<Seq<char>>,
) -> bool {
    &&& perm.len() == items.len()
    &&& r.len() == items.len()
    &&& forall|i: int|
        0 <= i < r.len() ==> 0 <= #[trigger] perm[i] < items.len() && r[i] == items[perm[i]]
    &&& forall|i: int, j: int|
        0 <= i < j < r.len() ==> #[trigger] perm[i] != #[trigger] perm[j] && (ws[perm[i]]
            < ws[perm[j]] || (ws[perm[i]] == ws[perm[j]] && perm[i] < perm[j]))
}

/// `sort` by the weights of its items (`by_weight`, what `sort_by` gives)
/// rearranges the items, each once, so that their weights do not decrease,
/// items of equal weight keeping their order.
pub proof fn law_by_weight_is_stable_sort(items: Seq<Seq<char>>, ws: Seq<i32>)
    requires
        items.len() == ws.len(),
        ws.len() <= usize::MAX,
    ensures
        exists|perm: Seq<int>| stable_weight_order(items, ws, perm, by_weight(items, ws)),
{
    let leq = weight_order();
    let ps = positioned(ws);
    let ss = ps.sort_by(leq);
    lemma_number_orders();
    ps.lemma_sort_by_ensures(leq);
    lemma_sort_by_len(ps, leq);
    let perm = ss.map_values(|p: (usize, i32)| p.0 as int);
    assert forall|i: int| 0 <= i < ss.len() implies 0 <= (#[trigger] ss[i]).0 < ws.len() && ss[i].1
        == ws[ss[i].0 as int] by {
        assert(ss.contains(ss[i]));
        assert(ps.contains(ss[i]));
        let k = choose|k: int| 0 <= k < ps.len() && ps[k] == ss[i];
        assert(ps[k] == (k as usize, ws[k]));
    }
    assert(ps.no_duplicates()) by {
        assert forall|a: int, b: int|
            0 <= a < ps.len() && 0 <= b < ps.len() && a != b implies ps[a] != ps[b] by {
            assert(ps[a].0 == a as usize);
            assert(ps[b].0 == b as usize);
        }
    }
    ps.lemma_multiset_has_no_duplicates();
    ss.lemma_multiset_has_no_duplicates_conv();
    let r = by_weight(items, ws);
    assert forall|i: int, j: int| 0 <= i < j < r.len() implies #[trigger] perm[i] != #[trigger] perm[j]
        && (ws[perm[i]] < ws[perm[j]] || (ws[perm[i]] == ws[perm[j]] && perm[i] < perm[j])) by {
        assert(leq(ss[i], ss[j]));
        if ss[i].0 == ss[j].0 {
            assert(ss[i] == ss[j]);
        }
    }
    assert(stable_weight_order(items, ws, perm, r));
}

/// A subscription adds one listener to its channel, whom `send` then
/// counts; the other channels keep theirs.
pub proof fn law_listeners_after_subscribe(s: ChannelsView, c: Seq<char>, l: Listener)
    requires
        names_unique(s),
    ensures
        names_unique(subscribed(s, c, l)),
        listeners_of(subscribed(s, c, l), c) == listeners_of(s, c) + 1,
        forall|c2: Seq<char>|
            c2 != c ==> #[trigger] listeners_of(subscribed(s, c, l), c2) == listeners_of(s, c2),
{
    let t = subscribed(s, c, l);
    let p = channel_pos(s, c);
    if p >= 0 {
        assert(t.len() == s.len());
        assert forall|i: int| 0 <= i < t.len() implies t[i].0 == s[i].0 by {}
        lemma_channel_pos(t, c, p);
        assert forall|c2: Seq<char>| c2 != c implies #[trigger] listeners_of(t, c2) == listeners_of(s, c2) by {
            let q = channel_pos(s, c2);
            if q >= 0 {
                lemma_channel_pos(t, c2, q);
            } else {
                lemma_channel_absent(t, c2);
            }
        }
    } else {
        lemma_channel_absent(s, c);
        lemma_channel_pos(t, c, s.len() as int);
        assert forall|c2: Seq<char>| c2 != c implies #[trigger] listeners_of(t, c2) == listeners_of(s, c2) by {
            let q = channel_pos(s, c2);
            if q >= 0 {
                lemma_channel_pos(t, c2, q);
            } else {
                lemma_channel_absent(t, c2);
            }
        }
    }
}

proof fn lemma_other_listeners_fresh(ls: Seq<Listener>, id: u32)
    requires
        forall|j: int| 0 <= j < ls.len() ==> (#[trigger] ls[j]).0 != id,
    ensures
        other_listeners(ls, id) == ls,
    decreases ls.len(),
{
    if ls.len() > 0 {
        assert forall|j: int| 0 <= j < ls.drop_last().len() implies (
        #[trigger] ls.drop_last()[j]).0 != id by {
            assert(ls.drop_last()[j] == ls[j]);
        }
        lemma_other_listeners_fresh(ls.drop_last(), id);
        assert(ls.last().0 != id);
        assert(ls.drop_last().push(ls.last()) =~= ls);
    }
}

/// Unsubscribing a listener that had just subscribed to a channel, and whose
/// id did not listen to it before, leaves the channel as many listeners as
/// before.
pub proof fn law_unsubscribe_undoes_subscribe(s: ChannelsView, c: Seq<char>, l: Listener)
    requires
        names_unique(s),
        channel_pos(s, c) >= 0 ==> forall|j: int|
            0 <= j < s[channel_pos(s, c)].1.len() ==> (#[trigger] s[channel_pos(s, c)].1[j]).0
                != l.0,
    ensures
        listeners_of(unsubscribed(subscribed(s, c, l), c, l.0), c) == listeners_of(s, c),
{
    law_listeners_after_subscribe(s, c, l);
    let t = subscribed(s, c, l);
    let p = channel_pos(s, c);
    let ls = if p >= 0 {
        s[p].1
    } else {
        Seq::<Listener>::empty()
    };
    let q = if p >= 0 {
        p
    } else {
        s.len() as int
    };
    if p < 0 {
        lemma_channel_absent(s, c);
    }
    lemma_channel_pos(t, c, q);
    assert(t[q].1 =~= ls.push(l));
    assert(ls.push(l).drop_last() =~= ls);
    lemma_other_listeners_fresh(ls, l.0);
    assert(other_listeners(ls.push(l), l.0) == ls);
    if ls.len() == 0 {
        let u = t.remove(q);
        assert forall|i: int| 0 <= i < u.len() implies u[i].0 != c by {
            if i < q {
                assert(u[i] == t[i]);
            } else {
                assert(u[i] == t[i + 1]);
            }
        }
        lemma_channel_absent(u, c);
    } else {
        let u = t.update(q, (c, ls));
        assert forall|i: int, j: int|
            0 <= i < u.len() && 0 <= j < u.len() && i != j implies u[i].0 != u[j].0 by {
            assert(u[i].0 == t[i].0);
            assert(u[j].0 == t[j].0);
        }
        lemma_channel_pos(u, c, q);
    }
}

/// The line of the dump for key `k` holding `v`.
pub open spec fn value_line_text(k: Seq<char>, v: ValueView) -> Seq<char> {
    "Key:"@ + k + ","@ + serialized(v)
}

/// The value lines of the dump for the keys `ks` of `d`, in order.
pub open spec fn value_line_texts(ks: Seq<Seq<char>>, d: Map<Seq<char>, EntryView>) -> Seq<Seq<char>> {
    ks.map_values(|k: Seq<char>| value_line_text(k, d[k].0))
}

/// A key the dump can hold: it has no `,` and no `:`.
pub open spec fn plain_key(k: Seq<char>) -> bool {
    !k.contains(',') && !k.contains(':')
}

/// A value the dump can hold: its texts are words and have no `,`.
pub open spec fn plain_value(v: ValueView) -> bool {
    v.wf() && made_of_words(v) && !serialized(v).contains(',')
}

/// The value line that `dump_text` writes for a key and its value reads
/// back, as `load` reads it, as that key and value.
#[verifier::spinoff_prover]
pub proof fn law_value_line_round_trip(k: Seq<char>, v: ValueView)
    requires
        plain_key(k),
        plain_value(v),
    ensures
        !is_ttl_line(value_line_text(k, v)),
        dump_line_ok(value_line_text(k, v)),
        value_line(value_line_text(k, v)) == Some((k, v)),
{
    reveal_strlit("Key:");
    reveal_strlit(",");
    let line = value_line_text(k, v);
    let head = "Key:"@ + k;
    let ser = serialized(v);
    assert(!head.contains(',')) by {
        if head.contains(',') {
            let i = choose|i: int| 0 <= i < head.len() && head[i] == ',';
            if i >= 4 {
                assert(k[i - 4] == ',');
            }
        }
    }
    assert(line =~= head + seq![','] + ser);
    lemma_split_on_first(head, ',', ser);
    lemma_split_on_none(ser, ',');
    assert(split_on(line, ',') =~= seq![head, ser]);
    let key_word = seq!['K', 'e', 'y'];
    assert("Key:"@ =~= key_word + seq![':']);
    assert(head =~= key_word + seq![':'] + k);
    assert(!key_word.contains(':'));
    lemma_split_on_first(key_word, ':', k);
    lemma_split_on_none(k, ':');
    assert(split_on(head, ':') =~= seq![key_word, k]);
    law_unserialize_after_serialize(v);
    assert(line[0] == 'K');
}

/// Loading the value lines of the dump stores each of their keys with its
/// value, read now; the other keys keep what they held.
pub proof fn law_load_restores_values(
    d0: Map<Seq<char>, EntryView>,
    ks: Seq<Seq<char>>,
    d: Map<Seq<char>, EntryView>,
    now: u64,
)
    requires
        ks.no_duplicates(),
        forall|i: int|
            0 <= i < ks.len() ==> d.contains_key(#[trigger] ks[i]) && plain_key(ks[i]) && plain_value(
                d[ks[i]].0,
            ),
    ensures
        forall|i: int|
            0 <= i < ks.len() ==> loaded_values(d0, value_line_texts(ks, d), now).contains_key(
                #[trigger] ks[i],
            ) && loaded_values(d0, value_line_texts(ks, d), now)[ks[i]] == (d[ks[i]].0, now),
        forall|k: Seq<char>|
            !ks.contains(k) ==> (#[trigger] loaded_values(d0, value_line_texts(ks, d), now).contains_key(k)
                == d0.contains_key(k) && (d0.contains_key(k) ==> loaded_values(
                d0,
                value_line_texts(ks, d),
                now,
            )[k] == d0[k])),
    decreases ks.len(),
{
    if ks.len() > 0 {
        let p = ks.drop_last();
        let k = ks.last();
        let lines = value_line_texts(ks, d);
        assert(lines.drop_last() =~= value_line_texts(p, d));
        assert(p.no_duplicates());
        assert forall|i: int|
            0 <= i < p.len() implies d.contains_key(#[trigger] p[i]) && plain_key(p[i]) && plain_value(
                d[p[i]].0,
            ) by {
            assert(p[i] == ks[i]);
        }
        law_load_restores_values(d0, p, d, now);
        assert(d.contains_key(ks[ks.len() - 1]));
        law_value_line_round_trip(k, d[k].0);
        assert(lines.last() == value_line_text(k, d[k].0));
        assert(!p.contains(k)) by {
            if p.contains(k) {
                let j = choose|j: int| 0 <= j < p.len() && p[j] == k;
                assert(ks[j] == ks[ks.len() - 1]);
            }
        }
        let pre = loaded_values(d0, value_line_texts(p, d), now);
        assert(loaded_values(d0, lines, now) == pre.insert(k, (d[k].0, now)));
        assert forall|i: int| 0 <= i < ks.len() implies loaded_values(d0, lines, now).contains_key(
            #[trigger] ks[i],
        ) && loaded_values(d0, lines, now)[ks[i]] == (d[ks[i]].0, now) by {
            if i < ks.len() - 1 {
                assert(ks[i] == p[i]);
                assert(ks[i] != k);
            }
        }
        assert forall|k2: Seq<char>| !ks.contains(k2) implies (#[trigger] loaded_values(
            d0,
            lines,
            now,
        ).contains_key(k2) == d0.contains_key(k2) && (d0.contains_key(k2) ==> loaded_values(
            d0,
            lines,
            now,
        )[k2] == d0[k2])) by {
            assert(k2 != ks[ks.len() - 1]);
            if p.contains(k2) {
                let j = choose|j: int| 0 <= j < p.len() && p[j] == k2;
                assert(ks[j] == k2);
            }
        }
    }
}

/// The item of the dump's `TTL` line for key `k` expiring at `n`.
pub open spec fn ttl_item_text(k: Seq<char>, n: u64) -> Seq<char> {
    "Key:"@ + k + ",Ttl:"@ + int_str(n as int)
}

/// No character of `s` is whitespace.
pub open spec fn no_ws(s: Seq<char>) -> bool {
    forall|j: int| 0 <= j < s.len() ==> !is_ws(#[trigger] s[j])
}

/// A key the dump's `TTL` line can hold: no `,`, `:` or `;`, and no
/// whitespace.
pub open spec fn plain_ttl_key(k: Seq<char>) -> bool {
    plain_key(k) && !k.contains(';') && no_ws(k)
}

proof fn lemma_no_char_concat(a: Seq<char>, b: Seq<char>, c: char)
    requires
        !a.contains(c),
        !b.contains(c),
    ensures
        !(a + b).contains(c),
{
    if (a + b).contains(c) {
        let i = choose|i: int| 0 <= i < (a + b).len() && (a + b)[i] == c;
        if i < a.len() {
            assert(a[i] == c);
        } else {
            assert(b[i - a.len()] == c);
        }
    }
}

proof fn lemma_no_ws_concat(a: Seq<char>, b: Seq<char>)
    requires
        no_ws(a),
        no_ws(b),
    ensures
        no_ws(a + b),
{
    assert forall|j: int| 0 <= j < (a + b).len() implies !is_ws(#[trigger] (a + b)[j]) by {
        if j < a.len() {
            assert((a + b)[j] == a[j]);
        } else {
            assert((a + b)[j] == b[j - a.len()]);
        }
    }
}

/// The text of a number holds only digits.
proof fn lemma_int_str_plain(n: u64)
    ensures
        no_ws(int_str(n as int)),
        !int_str(n as int).contains(','),
        !int_str(n as int).contains(':'),
        !int_str(n as int).contains(';'),
{
    lemma_nat_str_digits(n as nat);
    let t = int_str(n as int);
    assert forall|j: int| 0 <= j < t.len() implies !is_ws(#[trigger] t[j]) by {
        lemma_digit_plain(t[j]);
    }
    if t.contains(',') || t.contains(':') || t.contains(';') {
        let i = choose|i: int| 0 <= i < t.len() && (t[i] == ',' || t[i] == ':' || t[i] == ';');
        lemma_digit_plain(t[i]);
    }
}

/// An item of the dump's `TTL` line reads back, as `load` reads it, as its
/// key and time.
pub proof fn law_ttl_item_round_trip(k: Seq<char>, n: u64)
    requires
        plain_key(k),
        n <= i64::MAX,
    ensures
        ttl_item_ok(ttl_item_text(k, n)),
        ttl_item(ttl_item_text(k, n)) == (k, n as i64),
{
    reveal_strlit("Key:");
    reveal_strlit(",Ttl:");
    let item = ttl_item_text(k, n);
    let t = int_str(n as int);
    lemma_int_str_plain(n);
    let key_word = seq!['K', 'e', 'y'];
    let ttl_word = seq!['T', 't', 'l'];
    let head = key_word + seq![':'] + k;
    let tail = ttl_word + seq![':'] + t;
    assert(item =~= head + seq![','] + tail);
    assert(!head.contains(',')) by {
        lemma_no_char_concat(key_word + seq![':'], k, ',');
    }
    assert(!tail.contains(',')) by {
        lemma_no_char_concat(ttl_word + seq![':'], t, ',');
    }
    lemma_split_on_first(head, ',', tail);
    lemma_split_on_none(tail, ',');
    assert(split_on(item, ',') =~= seq![head, tail]);
    assert(!key_word.contains(':'));
    assert(!ttl_word.contains(':'));
    lemma_split_on_first(key_word, ':', k);
    lemma_split_on_none(k, ':');
    assert(split_on(head, ':') =~= seq![key_word, k]);
    lemma_split_on_first(ttl_word, ':', t);
    lemma_split_on_none(t, ':');
    assert(split_on(tail, ':') =~= seq![ttl_word, t]);
    lemma_parse_int_str(n as int, true, i64::MIN as int, i64::MAX as int);
}

/// The items of the dump's `TTL` line for the keys and times `es`.
pub open spec fn ttl_item_texts(es: Seq<(Seq<char>, u64)>) -> Seq<Seq<char>> {
    es.map_values(|e: (Seq<char>, u64)| ttl_item_text(e.0, e.1))
}

/// Keys and times the dump's `TTL` line can hold.
pub open spec fn plain_ttls(es: Seq<(Seq<char>, u64)>) -> bool {
    forall|i: int| 0 <= i < es.len() ==> plain_ttl_key(#[trigger] es[i].0) && es[i].1 <= i64::MAX
}

proof fn lemma_ttl_text_front(es: Seq<(Seq<char>, u64)>)
    requires
        es.len() > 0,
    ensures
        ttl_text(es) == ttl_item_text(es[0].0, es[0].1) + seq![';'] + ttl_text(es.drop_first()),
    decreases es.len(),
{
    reveal_strlit(";");
    let f = ttl_item_text(es[0].0, es[0].1);
    if es.len() == 1 {
        assert(ttl_text(es.drop_last()) == Seq::<char>::empty());
        assert(ttl_text(es.drop_first()) == Seq::<char>::empty());
        assert(ttl_text(es) =~= f + seq![';'] + Seq::<char>::empty());
    } else {
        let p = es.drop_last();
        lemma_ttl_text_front(p);
        assert(p.drop_first() =~= es.drop_first().drop_last());
        assert(es.drop_first().last() == es.last());
        let l = es.last();
        let li = "Key:"@ + l.0 + ",Ttl:"@ + int_str(l.1 as int) + ";"@;
        assert(ttl_text(es) =~= ttl_text(p) + li);
        assert(ttl_text(es.drop_first()) =~= ttl_text(p.drop_first()) + li);
        assert(ttl_text(es) =~= f + seq![';'] + ttl_text(es.drop_first()));
    }
}

proof fn lemma_ttl_item_plain(k: Seq<char>, n: u64)
    requires
        plain_ttl_key(k),
    ensures
        !ttl_item_text(k, n).contains(';'),
        no_ws(ttl_item_text(k, n)),
        ttl_item_text(k, n).len() > 0,
{
    reveal_strlit("Key:");
    reveal_strlit(",Ttl:");
    lemma_int_str_plain(n);
    let a = "Key:"@;
    let b = ",Ttl:"@;
    assert(!a.contains(';'));
    assert(!b.contains(';'));
    assert(no_ws(a));
    assert(no_ws(b));
    lemma_no_char_concat(a, k, ';');
    lemma_no_char_concat(a + k, b, ';');
    lemma_no_char_concat(a + k + b, int_str(n as int), ';');
    lemma_no_ws_concat(a, k);
    lemma_no_ws_concat(a + k, b);
    lemma_no_ws_concat(a + k + b, int_str(n as int));
}

proof fn lemma_split_ttl_text(es: Seq<(Seq<char>, u64)>)
    requires
        plain_ttls(es),
    ensures
        split_on(ttl_text(es), ';') == ttl_item_texts(es).push(Seq::<char>::empty()),
        no_ws(ttl_text(es)),
        es.len() > 0 ==> ttl_text(es).len() > 0,
    decreases es.len(),
{
    if es.len() == 0 {
        assert(ttl_text(es) == Seq::<char>::empty());
        assert(split_on(Seq::<char>::empty(), ';') =~= seq![Seq::<char>::empty()]);
        assert(ttl_item_texts(es).push(Seq::<char>::empty()) =~= seq![Seq::<char>::empty()]);
    } else {
        let r = es.drop_first();
        assert forall|i: int| 0 <= i < r.len() implies plain_ttl_key(#[trigger] r[i].0) && r[i].1
            <= i64::MAX by {
            assert(r[i] == es[i + 1]);
            assert(plain_ttl_key(es[i + 1].0) && es[i + 1].1 <= i64::MAX);
        }
        lemma_split_ttl_text(r);
        lemma_ttl_text_front(es);
        assert(plain_ttl_key(es[0].0));
        let f = ttl_item_text(es[0].0, es[0].1);
        lemma_ttl_item_plain(es[0].0, es[0].1);
        lemma_split_on_first(f, ';', ttl_text(r));
        assert(ttl_item_texts(es) =~= seq![f] + ttl_item_texts(r));
        assert(split_on(ttl_text(es), ';') =~= ttl_item_texts(es).push(Seq::<char>::empty()));
        assert(no_ws(seq![';']));
        lemma_no_ws_concat(f, seq![';']);
        lemma_no_ws_concat(f + seq![';'], ttl_text(r));
    }
}

proof fn lemma_nonempty_all(xs: Seq<Seq<char>>)
    requires
        forall|i: int| 0 <= i < xs.len() ==> (#[trigger] xs[i]).len() > 0,
    ensures
        nonempty_parts(xs) == xs,
        nonempty_parts(xs.push(Seq::<char>::empty())) == xs,
    decreases xs.len(),
{
    assert(xs.push(Seq::<char>::empty()).drop_last() =~= xs);
    if xs.len() > 0 {
        let p = xs.drop_last();
        assert forall|i: int| 0 <= i < p.len() implies (#[trigger] p[i]).len() > 0 by {
            assert(p[i] == xs[i]);
        }
        lemma_nonempty_all(p);
        assert(xs.last().len() > 0);
        assert(p.push(xs.last()) =~= xs);
    }
    let ys = xs.push(Seq::<char>::empty());
    assert(ys.last().len() == 0);
    assert(nonempty_parts(ys) == nonempty_parts(ys.drop_last()));
}

/// The dump's `TTL` line reads back, as `load` reads it, as the keys and
/// times it was written from, in order.
pub proof fn law_ttl_line_round_trip(es: Seq<(Seq<char>, u64)>)
    requires
        plain_ttls(es),
    ensures
        is_ttl_line("TTL "@ + ttl_text(es)),
        dump_line_ok("TTL "@ + ttl_text(es)),
        ttl_items("TTL "@ + ttl_text(es)).map_values(|it: Seq<char>| ttl_item(it)) == es.map_values(
            |e: (Seq<char>, u64)| (e.0, e.1 as i64),
        ),
{
    reveal_strlit("TTL ");
    let t = ttl_text(es);
    let line = "TTL "@ + t;
    let ttl_word = seq!['T', 'T', 'L'];
    assert(line =~= ttl_word + seq![' '] + t);
    assert(is_token(ttl_word));
    assert(is_ws(' '));
    lemma_words_token_then(ttl_word, ' ', t);
    lemma_split_ttl_text(es);
    let items = ttl_item_texts(es);
    assert forall|i: int| 0 <= i < items.len() implies (#[trigger] items[i]).len() > 0 by {
        lemma_ttl_item_plain(es[i].0, es[i].1);
    }
    lemma_nonempty_all(items);
    if es.len() == 0 {
        assert(t == Seq::<char>::empty());
        assert(words(Seq::<char>::empty()) =~= Seq::<Seq<char>>::empty());
        assert(words(line) =~= seq![ttl_word]);
        assert(ttl_items(line) =~= Seq::<Seq<char>>::empty());
    } else {
        lemma_words_token(t);
        assert(words(line) =~= seq![ttl_word, t]);
        assert(ttl_items(line) == items);
    }
    assert forall|i: int| 0 <= i < ttl_items(line).len() implies ttl_item_ok(
        #[trigger] ttl_items(line)[i],
    ) by {
        law_ttl_item_round_trip(es[i].0, es[i].1);
    }
    assert forall|i: int| 0 <= i < es.len() implies ttl_item(#[trigger] items[i]) == (
        es[i].0,
        es[i].1 as i64,
    ) by {
        law_ttl_item_round_trip(es[i].0, es[i].1);
    }
    assert(ttl_items(line).map_values(|it: Seq<char>| ttl_item(it)) =~= es.map_values(
        |e: (Seq<char>, u64)| (e.0, e.1 as i64),
    ));
}

/// The lines, each followed by a newline.
pub open spec fn lines_text(ls: Seq<Seq<char>>) -> Seq<char>
    decreases ls.len(),
{
    if ls.len() == 0 {
        Seq::empty()
    } else {
        lines_text(ls.drop_last()) + ls.last() + seq!['\n']
    }
}

/// The lines of the dump of `db`: the `TTL` line, then a line for each key.
pub open spec fn dump_lines(db: Database) -> Seq<Seq<char>> {
    seq!["TTL "@ + ttl_text(db.ttl_entries())] + value_line_texts(db.keys_seq(), db.dict())
}

proof fn lemma_value_lines_text(ks: Seq<Seq<char>>, d: Map<Seq<char>, EntryView>)
    ensures
        value_lines(ks, d) == lines_text(value_line_texts(ks, d)),
    decreases ks.len(),
{
    reveal_strlit("\n");
    if ks.len() > 0 {
        let p = ks.drop_last();
        lemma_value_lines_text(p, d);
        let v = value_line_texts(ks, d);
        assert(v.drop_last() =~= value_line_texts(p, d));
        let k = ks.last();
        assert(v.last() == value_line_text(k, d[k].0));
        assert(value_lines(ks, d) =~= lines_text(v));
    }
}

proof fn lemma_lines_text_cons(t: Seq<char>, v: Seq<Seq<char>>)
    ensures
        lines_text(seq![t] + v) == t + seq!['\n'] + lines_text(v),
    decreases v.len(),
{
    let w = seq![t] + v;
    if v.len() == 0 {
        assert(w =~= seq![t]);
        assert(w.drop_last() =~= Seq::<Seq<char>>::empty());
        assert(lines_text(Seq::<Seq<char>>::empty()) == Seq::<char>::empty());
        assert(lines_text(v) == Seq::<char>::empty());
        assert(lines_text(w) == lines_text(w.drop_last()) + w.last() + seq!['\n']);
        assert(lines_text(w) =~= t + seq!['\n'] + lines_text(v));
    } else {
        lemma_lines_text_cons(t, v.drop_last());
        assert(w.drop_last() =~= seq![t] + v.drop_last());
        assert(w.last() == v.last());
        assert(lines_text(w) == lines_text(w.drop_last()) + w.last() + seq!['\n']);
        assert(lines_text(v) == lines_text(v.drop_last()) + v.last() + seq!['\n']);
        assert(lines_text(w) =~= t + seq!['\n'] + lines_text(v));
    }
}

/// The text `dump_text` writes is the dump's lines, each followed by a
/// newline: reading it line by line gives `dump_lines`.
pub proof fn law_dump_text_lines(db: Database)
    ensures
        db.dump_view() == lines_text(dump_lines(db)),
{
    reveal_strlit("\n");
    let t = "TTL "@ + ttl_text(db.ttl_entries());
    let v = value_line_texts(db.keys_seq(), db.dict());
    lemma_value_lines_text(db.keys_seq(), db.dict());
    lemma_lines_text_cons(t, v);
    assert(db.dump_view() =~= t + seq!['\n'] + lines_text(v));
}

/// The keys and times of expiry entries, the times read as `i64`.
pub open spec fn signed_times(es: Seq<(Seq<char>, u64)>) -> Seq<(Seq<char>, i64)> {
    es.map_values(|e: (Seq<char>, u64)| (e.0, e.1 as i64))
}

/// What applying the expiry times `m` at `now` does to key `k` of the
/// loaded dictionary `d1`, in the outcome `st`: a key with a time that has
/// come, or that was not loaded, is gone; one with a time to come is kept,
/// read now, with that time; any other key is left as loaded.
pub open spec fn expire_effect(
    d1: Map<Seq<char>, EntryView>,
    m: Map<Seq<char>, u64>,
    now: u64,
    st: (Map<Seq<char>, EntryView>, Map<Seq<char>, u64>),
    k: Seq<char>,
) -> bool {
    if m.contains_key(k) {
        if !d1.contains_key(k) || m[k] <= now {
            !st.0.contains_key(k) && !st.1.contains_key(k)
        } else {
            &&& st.0.contains_key(k)
            &&& st.0[k] == (d1[k].0, now)
            &&& st.1.contains_key(k)
            &&& st.1[k] == m[k]
        }
    } else {
        &&& st.0.contains_key(k) == d1.contains_key(k)
        &&& d1.contains_key(k) ==> st.0[k] == d1[k]
        &&& !st.1.contains_key(k)
    }
}

proof fn lemma_expire_all(d1: Map<Seq<char>, EntryView>, es: Seq<(Seq<char>, u64)>, now: u64)
    requires
        keys_unique(es),
        forall|i: int| 0 <= i < es.len() ==> (#[trigger] es[i]).1 <= i64::MAX,
    ensures
        forall|k: Seq<char>|
            #[trigger] expire_effect(
                d1,
                assoc_map(es),
                now,
                expire_all(d1, Map::empty(), now, signed_times(es)),
                k,
            ),
    decreases es.len(),
{
    if es.len() == 0 {
        assert(signed_times(es) =~= Seq::<(Seq<char>, i64)>::empty());
        assert forall|k: Seq<char>| #[trigger] expire_effect(
            d1,
            assoc_map(es),
            now,
            expire_all(d1, Map::empty(), now, signed_times(es)),
            k,
        ) by {
            lemma_assoc_has(es, k);
        }
    } else {
        let p = es.drop_last();
        let e = es.last();
        assert forall|i: int, j: int|
            0 <= i < p.len() && 0 <= j < p.len() && i != j implies (#[trigger] p[i]).0 != (
            #[trigger] p[j]).0 by {
            assert(p[i] == es[i] && p[j] == es[j]);
        }
        assert forall|i: int| 0 <= i < p.len() implies (#[trigger] p[i]).1 <= i64::MAX by {
            assert(p[i] == es[i]);
        }
        lemma_expire_all(d1, p, now);
        assert(!assoc_has(p, e.0)) by {
            if assoc_has(p, e.0) {
                let i = choose|i: int| 0 <= i < p.len() && (#[trigger] p[i]).0 == e.0;
                assert(es[i].0 == es[es.len() - 1].0);
            }
        }
        lemma_assoc_insert(p, p.len() as int, e);
        assert(p.insert(p.len() as int, e) =~= es);
        lemma_assoc_has(p, e.0);
        let sp = signed_times(p);
        assert(signed_times(es).drop_last() =~= sp);
        assert(signed_times(es).last() == (e.0, e.1 as i64));
        let st0 = expire_all(d1, Map::empty(), now, sp);
        let st = expire_all(d1, Map::empty(), now, signed_times(es));
        assert(expire_effect(d1, assoc_map(p), now, st0, e.0));
        assert forall|k: Seq<char>| #[trigger] expire_effect(
            d1,
            assoc_map(es),
            now,
            st,
            k,
        ) by {
            assert(expire_effect(d1, assoc_map(p), now, st0, k));
            lemma_assoc_has(p, k);
        }
    }
}

proof fn lemma_loaded_values_skip(
    t: Seq<char>,
    v: Seq<Seq<char>>,
    d0: Map<Seq<char>, EntryView>,
    now: u64,
)
    requires
        is_ttl_line(t),
    ensures
        loaded_values(d0, seq![t] + v, now) == loaded_values(d0, v, now),
    decreases v.len(),
{
    let w = seq![t] + v;
    if v.len() == 0 {
        assert(w.drop_last() =~= Seq::<Seq<char>>::empty());
        assert(w.last() == t);
        assert(loaded_values(d0, Seq::<Seq<char>>::empty(), now) == d0);
        assert(loaded_values(d0, w, now) == loaded_values(d0, w.drop_last(), now));
    } else {
        lemma_loaded_values_skip(t, v.drop_last(), d0, now);
        assert(w.drop_last() =~= seq![t] + v.drop_last());
        assert(w.last() == v.last());
    }
}

proof fn lemma_loaded_expires_values(t: Seq<char>, v: Seq<Seq<char>>)
    requires
        is_ttl_line(t),
        forall|i: int| 0 <= i < v.len() ==> !is_ttl_line(#[trigger] v[i]),
    ensures
        loaded_expires(seq![t] + v) == ttl_items(t).map_values(|it: Seq<char>| ttl_item(it)),
    decreases v.len(),
{
    let w = seq![t] + v;
    if v.len() == 0 {
        assert(w.drop_last() =~= Seq::<Seq<char>>::empty());
        assert(loaded_expires(Seq::<Seq<char>>::empty()) == Seq::<(Seq<char>, i64)>::empty());
        assert(loaded_expires(w) =~= ttl_items(t).map_values(|it: Seq<char>| ttl_item(it)));
    } else {
        let p = v.drop_last();
        assert forall|i: int| 0 <= i < p.len() implies !is_ttl_line(#[trigger] p[i]) by {
            assert(p[i] == v[i]);
        }
        lemma_loaded_expires_values(t, p);
        assert(w.drop_last() =~= seq![t] + p);
        assert(w.last() == v.last());
        assert(!is_ttl_line(v[v.len() - 1]));
    }
}

/// A database the dump can hold: its keys and values, and the keys and
/// times of its expiry entries, can be written and read back.
pub open spec fn plain_database(db: Database) -> bool {
    &&& forall|k: Seq<char>| #[trigger]
        db.dict().contains_key(k) ==> plain_key(k) && plain_value(db.dict()[k].0)
    &&& plain_ttls(db.ttl_entries())
}

/// Loading the lines of a database's dump into an empty database at time
/// `now` (what `load` does) gives back each key with its value, read now; a
/// key that expires keeps its expiry time, unless that time has come, and
/// then it is gone; no other key appears.
pub proof fn law_load_after_dump(db: Database, now: u64)
    requires
        db.wf(),
        plain_database(db),
    ensures
        ({
            let ls = dump_lines(db);
            let st = expire_all(
                loaded_values(Map::empty(), ls, now),
                Map::empty(),
                now,
                loaded_expires(ls),
            );
            &&& forall|k: Seq<char>| #[trigger] st.0.contains_key(k) ==> db.dict().contains_key(k)
            &&& forall|k: Seq<char>| #[trigger] st.1.contains_key(k) ==> db.ttls().contains_key(k)
            &&& forall|k: Seq<char>| #[trigger]
                db.dict().contains_key(k) ==> if db.ttls().contains_key(k) && db.ttls()[k] <= now {
                    !st.0.contains_key(k) && !st.1.contains_key(k)
                } else {
                    &&& st.0.contains_key(k)
                    &&& st.0[k] == (db.dict()[k].0, now)
                    &&& st.1.contains_key(k) == db.ttls().contains_key(k)
                    &&& db.ttls().contains_key(k) ==> st.1[k] == db.ttls()[k]
                }
        }),
{
    db.lemma_wf();
    db.lemma_ttl_entries();
    let d = db.dict();
    let ks = db.keys_seq();
    let es = db.ttl_entries();
    let t = "TTL "@ + ttl_text(es);
    let v = value_line_texts(ks, d);
    let ls = dump_lines(db);
    assert(ls == seq![t] + v);
    law_ttl_line_round_trip(es);
    assert forall|i: int| 0 <= i < v.len() implies !is_ttl_line(#[trigger] v[i]) by {
        assert(ks.contains(ks[i]));
        law_value_line_round_trip(ks[i], d[ks[i]].0);
    }
    lemma_loaded_values_skip(t, v, Map::empty(), now);
    lemma_loaded_expires_values(t, v);
    assert(loaded_expires(ls) =~= signed_times(es));
    assert forall|i: int| 0 <= i < ks.len() implies d.contains_key(#[trigger] ks[i]) && plain_key(
        ks[i],
    ) && plain_value(d[ks[i]].0) by {
        assert(ks.contains(ks[i]));
    }
    law_load_restores_values(Map::empty(), ks, d, now);
    let d1 = loaded_values(Map::empty(), ls, now);
    assert forall|i: int| 0 <= i < es.len() implies (#[trigger] es[i]).1 <= i64::MAX by {}
    lemma_expire_all(d1, es, now);
    let st = expire_all(d1, Map::empty(), now, loaded_expires(ls));
    assert forall|k: Seq<char>| #[trigger] st.0.contains_key(k) implies d.contains_key(k) by {
        assert(expire_effect(d1, db.ttls(), now, st, k));
        if !ks.contains(k) {
            assert(!d1.contains_key(k));
        }
    }
    assert forall|k: Seq<char>| #[trigger] st.1.contains_key(k) implies db.ttls().contains_key(k) by {
        assert(expire_effect(d1, db.ttls(), now, st, k));
    }
    assert forall|k: Seq<char>| #[trigger] d.contains_key(k) implies (if db.ttls().contains_key(k)
        && db.ttls()[k] <= now {
        !st.0.contains_key(k) && !st.1.contains_key(k)
    } else {
        &&& st.0.contains_key(k)
        &&& st.0[k] == (d[k].0, now)
        &&& st.1.contains_key(k) == db.ttls().contains_key(k)
        &&& db.ttls().contains_key(k) ==> st.1[k] == db.ttls()[k]
    }) by {
        assert(expire_effect(d1, db.ttls(), now, st, k));
        assert(ks.contains(k));
        let i = choose|i: int| 0 <= i < ks.len() && ks[i] == k;
        assert(d1.contains_key(ks[i]));
    }
}

/// In subscription mode a request is a subscription, an unsubscription,
/// `close`, or refused.
pub proof fn law_subscription_mode_refuses_others(text: Seq<char>)
    ensures
        ({
            let f = request_form(text, true);
            ||| f is Subscribe
            ||| f is Unsubscribe
            ||| f is CloseClient
            ||| f is Invalid
        }),
{
}

/// Text that starts with `n` ASCII characters has a character boundary
/// after its first `n` bytes.
proof fn lemma_ascii_prefix_boundary(s: Seq<char>, n: int)
    requires
        0 <= n <= s.len(),
        forall|i: int| 0 <= i < n ==> (#[trigger] s[i] as u32) < 0x80,
    ensures
        encode_utf8(s).len() >= n,
        is_char_boundary(encode_utf8(s), n),
    decreases n,
{
    broadcast use vstd::utf8::encode_utf8_valid_utf8;
    let b = encode_utf8(s);
    if n > 0 {
        let t = s.drop_first();
        assert forall|i: int| 0 <= i < n - 1 implies (#[trigger] t[i] as u32) < 0x80 by {
            assert(t[i] == s[i + 1]);
        }
        lemma_ascii_prefix_boundary(t, n - 1);
        let v = s[0] as u32;
        assert(v < 0x80);
        assert(v & 0x7F <= 0x7F) by (bit_vector);
        let lead = leading_byte_width_1(v);
        assert(lead <= 0x7F);
        assert(encode_scalar(v) =~= seq![lead]);
        assert(b =~= seq![lead] + encode_utf8(t));
        assert(b[0] == lead);
        assert(length_of_first_scalar(b) == 1);
        assert(pop_first_scalar(b) =~= encode_utf8(t));
    }
}

/// Each line of a database's dump is one that `load` accepts.
pub proof fn law_dump_lines_readable(db: Database)
    requires
        db.wf(),
        plain_database(db),
    ensures
        forall|i: int|
            0 <= i < dump_lines(db).len() ==> dump_line_ok(#[trigger] dump_lines(db)[i])
                && line_cut_ok(dump_lines(db)[i]),
{
    reveal_strlit("TTL ");
    reveal_strlit("Key:");
    db.lemma_wf();
    let d = db.dict();
    let ks = db.keys_seq();
    let es = db.ttl_entries();
    let ls = dump_lines(db);
    let v = value_line_texts(ks, d);
    law_ttl_line_round_trip(es);
    assert forall|i: int| 0 <= i < ls.len() implies dump_line_ok(#[trigger] ls[i]) && line_cut_ok(
        ls[i],
    ) by {
        let l = ls[i];
        if i == 0 {
            assert(l == "TTL "@ + ttl_text(es));
            assert(l[0] == 'T' && l[1] == 'T' && l[2] == 'L');
        } else {
            let k = ks[i - 1];
            assert(ks.contains(k));
            law_value_line_round_trip(k, d[k].0);
            assert(l == value_line_text(k, d[k].0));
            assert(l[0] == 'K' && l[1] == 'e' && l[2] == 'y');
        }
        lemma_ascii_prefix_boundary(l, 3);
    }
}

/// The number of times `e` occurs in `l`.
pub open spec fn occurrences(l: Seq<Seq<char>>, e: Seq<char>) -> nat
    decreases l.len(),
{
    if l.len() == 0 {
        0
    } else {
        (if l[0] == e {
            1nat
        } else {
            0nat
        }) + occurrences(l.drop_first(), e)
    }
}

/// How many occurrences of `e` `lrem` of `count` removes from `l`: all of
/// them for `count == 0`, else at most `|count|`.
pub open spec fn lrem_removed(l: Seq<Seq<char>>, count: i32, e: Seq<char>) -> nat {
    let m = occurrences(l, e);
    let c: int = if count < 0 {
        -count
    } else {
        count as int
    };
    if count == 0 || m <= c {
        m
    } else {
        c as nat
    }
}

proof fn lemma_occurrences_concat(a: Seq<Seq<char>>, b: Seq<Seq<char>>, e: Seq<char>)
    ensures
        occurrences(a + b, e) == occurrences(a, e) + occurrences(b, e),
    decreases a.len(),
{
    if a.len() == 0 {
        assert(a + b =~= b);
    } else {
        lemma_occurrences_concat(a.drop_first(), b, e);
        assert((a + b).drop_first() =~= a.drop_first() + b);
        assert((a + b)[0] == a[0]);
    }
}

proof fn lemma_occurrences_reverse(l: Seq<Seq<char>>, e: Seq<char>)
    ensures
        occurrences(l.reverse(), e) == occurrences(l, e),
    decreases l.len(),
{
    if l.len() > 0 {
        lemma_occurrences_reverse(l.drop_first(), e);
        assert(l.reverse() =~= l.drop_first().reverse() + seq![l[0]]);
        lemma_occurrences_concat(l.drop_first().reverse(), seq![l[0]], e);
        let one = seq![l[0]];
        assert(one.drop_first() =~= Seq::<Seq<char>>::empty());
        assert(occurrences(Seq::<Seq<char>>::empty(), e) == 0);
        assert(occurrences(one, e) == (if l[0] == e {
            1nat
        } else {
            0nat
        }) + occurrences(one.drop_first(), e));
    } else {
        assert(l.reverse() =~= l);
    }
}

proof fn lemma_remove_first_n_len(l: Seq<Seq<char>>, e: Seq<char>, n: nat)
    ensures
        occurrences(l, e) <= l.len(),
        remove_first_n(l, e, n).len() == l.len() - (if n <= occurrences(l, e) {
            n
        } else {
            occurrences(l, e)
        }),
    decreases l.len(),
{
    if l.len() > 0 {
        lemma_remove_first_n_len(l.drop_first(), e, n);
        if n > 0 && l[0] == e {
            lemma_remove_first_n_len(l.drop_first(), e, (n - 1) as nat);
        }
    }
}

/// `lrem` answers the length of the list that is left: the old length less
/// the occurrences it removed, all of them for a count of zero and at most
/// the count's size otherwise.
pub proof fn law_lrem_length(
    pre: Database,
    post: Database,
    key: &str,
    count: i32,
    elem: &str,
    r: Result<SuccessQuery, DataBaseError>,
)
    requires
        Database::lrem_post(pre, post, key, count, elem, r),
        key_live(pre.dict(), pre.ttls(), post.now(), key@),
        pre.dict()[key@].0 is List,
        pre.dict()[key@].0->List_0.len() <= i32::MAX,
    ensures
        ({
            let l = pre.dict()[key@].0->List_0;
            result_view(r) == Ok::<QueryView, DataBaseError>(
                QueryView::Integer((l.len() - lrem_removed(l, count, elem@)) as i32),
            )
        }),
{
    let l = pre.dict()[key@].0->List_0;
    let e = elem@;
    if count > 0 {
        lemma_remove_first_n_len(l, e, count as nat);
    } else if count < 0 {
        lemma_remove_first_n_len(l.reverse(), e, (-count) as nat);
        lemma_occurrences_reverse(l, e);
    } else {
        lemma_remove_first_n_len(l, e, l.len());
    }
}

/// Loading the dump of a database none of whose keys' expiry times has
/// come at `now` into an empty database gives back exactly its keys, so
/// `dbsize` then gives the database's number of keys.
pub proof fn law_dbsize_after_load_of_dump(
    db: Database,
    now: u64,
    loaded: Database,
    r: Result<SuccessQuery, DataBaseError>,
)
    requires
        db.wf(),
        plain_database(db),
        forall|k: Seq<char>| #[trigger] db.ttls().contains_key(k) ==> db.ttls()[k] > now,
        loaded.dict() == expire_all(
            loaded_values(Map::empty(), dump_lines(db), now),
            Map::empty(),
            now,
            loaded_expires(dump_lines(db)),
        ).0,
        Database::dbsize_post(loaded, r),
    ensures
        loaded.dict().dom() == db.dict().dom(),
        result_view(r) == Ok::<QueryView, DataBaseError>(
            QueryView::Integer(db.dict().dom().len() as i32),
        ),
{
    law_load_after_dump(db, now);
    assert forall|k: Seq<char>| loaded.dict().dom().contains(k) <==> db.dict().dom().contains(k) by {
        if db.dict().contains_key(k) && db.ttls().contains_key(k) {
            assert(db.ttls()[k] > now);
        }
    }
    assert(loaded.dict().dom() =~= db.dict().dom());
}

/// After `expire` of `s` seconds on a live key, `ttl` read no earlier and
/// before the key expires answers at least 0 and less than `s` seconds.
pub proof fn law_ttl_after_expire(
    pre: Database,
    mid: Database,
    post: Database,
    key: &str,
    s: i64,
    r1: Result<SuccessQuery, DataBaseError>,
    r2: Result<SuccessQuery, DataBaseError>,
)
    requires
        Database::expire_post(pre, mid, key, s, r1),
        Database::ttl_post(mid, post, key, r2),
        key_live(pre.dict(), pre.ttls(), mid.now(), key@),
        0 < s <= i32::MAX,
        mid.now() + s <= u64::MAX,
        mid.now() <= post.now() < mid.now() + s,
    ensures
        result_view(r2) matches Ok(QueryView::Integer(t)) && 0 <= t < s,
{
}

/// `expire` on one key leaves every other key as it was: its value, when
/// it was read and its expiry time.
pub proof fn law_expire_keeps_other_keys(
    pre: Database,
    post: Database,
    key: &str,
    s: i64,
    r: Result<SuccessQuery, DataBaseError>,
    k: Seq<char>,
)
    requires
        Database::expire_post(pre, post, key, s, r),
        k != key@,
    ensures
        post.dict().contains_key(k) == pre.dict().contains_key(k),
        pre.dict().contains_key(k) ==> post.dict()[k] == pre.dict()[k],
        post.ttls().contains_key(k) == pre.ttls().contains_key(k),
        pre.ttls().contains_key(k) ==> post.ttls()[k] == pre.ttls()[k],
{
}

/// After `expire` of `s` seconds on a live key, `exists` tells whether the
/// key's expiry time is still to come at the clock it reads: the key exists
/// exactly while that clock is before the time of `expire` plus `s`.
pub proof fn law_exists_after_expire(
    pre: Database,
    mid: Database,
    post: Database,
    key: &str,
    s: i64,
    r1: Result<SuccessQuery, DataBaseError>,
    r2: Result<SuccessQuery, DataBaseError>,
)
    requires
        Database::expire_post(pre, mid, key, s, r1),
        Database::exists_key_post(mid, post, key, r2),
        key_live(pre.dict(), pre.ttls(), mid.now(), key@),
        0 <= s,
        mid.now() + s <= u64::MAX,
    ensures
        result_view(r2) == Ok::<QueryView, DataBaseError>(
            QueryView::Boolean(post.now() < mid.now() + s),
        ),
{
}

/// `v` is in string order: ascending, or descending when `desc`.
pub open spec fn in_string_order(v: Seq<Seq<char>>, desc: bool) -> bool {
    forall|i: int, j: int|
        0 <= i < j < v.len() ==> if desc {
            lex_le(#[trigger] v[j], #[trigger] v[i])
        } else {
            lex_le(v[i], v[j])
        }
}

/// How many of the options are `DESC`.
pub open spec fn desc_count<'a>(fs: Seq<SortFlags<'a>>) -> nat
    decreases fs.len(),
{
    if fs.len() == 0 {
        0
    } else if fs[0] is Desc {
        1 + desc_count(fs.drop_first())
    } else {
        desc_count(fs.drop_first())
    }
}

/// A piece of `s` holds each item at most as often as `s`.
proof fn lemma_subrange_counts<A>(s: Seq<A>, a: int, b: int)
    requires
        0 <= a <= b <= s.len(),
    ensures
        forall|x: A| #[trigger] s.subrange(a, b).to_multiset().count(x) <= s.to_multiset().count(x),
{
    let p = s.subrange(0, a);
    let q = s.subrange(a, b);
    let t = s.subrange(b, s.len() as int);
    assert(s =~= p + q + t);
    vstd::seq_lib::lemma_multiset_commutative(p, q);
    vstd::seq_lib::lemma_multiset_commutative(p + q, t);
}

/// The options taken in turn keep a list in string order, turned round by
/// each `DESC`; they drop items only through `LIMIT`, and leave the offset
/// and count alone without one.
proof fn lemma_apply_flags_order<'a>(
    cur: Seq<Seq<char>>,
    pos: i32,
    num: i32,
    fs: Seq<SortFlags<'a>>,
    desc: bool,
)
    requires
        in_string_order(cur, desc),
    ensures
        ({
            let a = apply_flags(cur, pos, num, fs);
            &&& in_string_order(a.0, desc != (desc_count(fs) % 2 == 1))
            &&& forall|x: Seq<char>| #[trigger] a.0.to_multiset().count(x) <= cur.to_multiset().count(x)
            &&& !has_limit(fs) ==> a.0.to_multiset() == cur.to_multiset() && a.1 == pos && a.2 == num
        }),
    decreases fs.len(),
{
    if fs.len() > 0 {
        let rest = fs.drop_first();
        assert(!has_limit(fs) ==> !has_limit(rest)) by {
            if has_limit(rest) {
                let i = choose|i: int| 0 <= i < rest.len() && #[trigger] rest[i] is Limit;
                assert(fs[i + 1] is Limit);
            }
        }
        match fs[0] {
            SortFlags::Desc => {
                let c1 = cur.reverse();
                assert(in_string_order(c1, !desc)) by {
                    assert forall|i: int, j: int| 0 <= i < j < c1.len() implies (if !desc {
                        lex_le(c1[j], c1[i])
                    } else {
                        lex_le(c1[i], c1[j])
                    }) by {
                        let n = cur.len() as int;
                        assert(c1[i] == cur[n - 1 - i]);
                        assert(c1[j] == cur[n - 1 - j]);
                        let x = n - 1 - j;
                        let y = n - 1 - i;
                        assert(0 <= x < y < cur.len());
                        if desc {
                            assert(lex_le(cur[y], cur[x]));
                        } else {
                            assert(lex_le(cur[x], cur[y]));
                        }
                    }
                }
                cur.lemma_reverse_to_multiset();
                lemma_apply_flags_order(c1, pos, num, rest, !desc);
            },
            SortFlags::Limit(p, n) => {
                let lv = crate::sortflags::limit_view(cur.len() as int, p, n);
                let c1 = if lv.0 {
                    Seq::<Seq<char>>::empty()
                } else {
                    cur
                };
                assert(fs[0] is Limit);
                assert(has_limit(fs));
                lemma_apply_flags_order(c1, lv.1, lv.2, rest, desc);
                if lv.0 {
                    broadcast use vstd::seq_lib::group_to_multiset_ensures;

                    assert forall|x: Seq<char>| #[trigger] c1.to_multiset().count(x) == 0 by {
                        assert(!c1.contains(x));
                    }
                }
            },
            _ => {
                lemma_apply_flags_order(cur, pos, num, rest, desc);
            },
        }
    }
}

/// `sort` with options that hold `ALPHA` and no `BY` gives the items of the
/// list or set in string order: ascending, or descending when `DESC` is
/// given (an odd number of times; each `DESC` turns the order round).  Each
/// item it gives comes from the list, as often at most; without `LIMIT` it
/// gives every item, as often as the list holds it.
#[verifier::spinoff_prover]
pub proof fn law_sort_alpha_in_string_order(
    pre: Database,
    post: Database,
    key: &str,
    flags: SortFlags,
    items: Seq<Seq<char>>,
    r: Result<SuccessQuery, DataBaseError>,
)
    requires
        Database::sort_post(pre, post, key, flags, r),
        key_live(pre.dict(), pre.ttls(), post.now(), key@),
        pre.dict()[key@].0 == ValueView::List(items) || pre.dict()[key@].0 == ValueView::Members(
            items,
        ),
        items.len() <= i32::MAX,
        flags is CompositeFlags,
        has_alpha(flags->CompositeFlags_0@),
        !has_by(flags->CompositeFlags_0@),
    ensures
        ({
            let fs = flags->CompositeFlags_0@;
            exists|v: Seq<Seq<char>>|
                #![trigger str_replies(v)]
                {
                    &&& result_view(r) == Ok::<QueryView, DataBaseError>(
                        QueryView::List(str_replies(v)),
                    )
                    &&& in_string_order(v, desc_count(fs) % 2 == 1)
                    &&& forall|x: Seq<char>|
                        #[trigger] v.to_multiset().count(x) <= items.to_multiset().count(x)
                    &&& !has_limit(fs) ==> v.to_multiset() == items.to_multiset()
                }
        }),
{
    let fs = flags->CompositeFlags_0@;
    assert(!limit_desc_pair(fs)) by {
        if limit_desc_pair(fs) {
            let i = choose|i: int| 0 <= i < fs.len() && #[trigger] fs[i] is Alpha;
            let j = choose|j: int| 0 <= j < fs.len() && #[trigger] fs[j] is Limit;
            let k = choose|k: int| 0 <= k < fs.len() && #[trigger] fs[k] is Desc;
            assert(i != j && j != k && i != k);
        }
    }
    let len = items.len() as i32;
    let i2 = items.sort_by(alpha_order());
    lemma_alpha_order();
    items.lemma_sort_by_ensures(alpha_order());
    assert(in_string_order(i2, false)) by {
        assert forall|i: int, j: int| 0 <= i < j < i2.len() implies lex_le(i2[i], i2[j]) by {
            assert(alpha_order()(i2[i], i2[j]));
        }
    }
    lemma_apply_flags_order(i2, 0, len, fs, false);
    let a = apply_flags(i2, 0, len, fs);
    let v = build_view(a.0, a.1, a.2);
    let desc = desc_count(fs) % 2 == 1;
    assert(sort_outcome(items, flags, post.weigher(items)) == Ok::<Seq<Seq<char>>, DataBaseError>(v));
    if a.2 > 0 {
        let lo = crate::sortflags::clamp_pos(a.1 as int, a.0.len() as int);
        let hi = crate::sortflags::clamp_pos(a.1 + a.2, a.0.len() as int);
        lemma_subrange_counts(a.0, lo, hi);
        assert(in_string_order(v, desc)) by {
            assert forall|i: int, j: int| 0 <= i < j < v.len() implies (if desc {
                lex_le(v[j], v[i])
            } else {
                lex_le(v[i], v[j])
            }) by {
                assert(v[i] == a.0[lo + i]);
                assert(v[j] == a.0[lo + j]);
            }
        }
    } else {
        broadcast use vstd::seq_lib::group_to_multiset_ensures;

        assert(v.len() == 0);
        assert forall|x: Seq<char>| #[trigger] v.to_multiset().count(x) == 0 by {
            assert(!v.contains(x));
        }
    }
    if !has_limit(fs) {
        vstd::seq_lib::to_multiset_len(a.0);
        vstd::seq_lib::to_multiset_len(items);
        vstd::seq_lib::to_multiset_len(i2);
        if items.len() > 0 {
            assert(v =~= a.0);
        } else {
            assert(a.0.len() == 0);
            assert(v =~= a.0);
        }
    }
    assert(result_view(r) == Ok::<QueryView, DataBaseError>(QueryView::List(str_replies(v))));
    assert(in_string_order(v, desc));
    assert(forall|x: Seq<char>| #[trigger] v.to_multiset().count(x) <= items.to_multiset().count(x));
    assert(!has_limit(fs) ==> v.to_multiset() == items.to_multiset());
}

/// `lrange k a b` asks for the items of `k` from the position `a` to the
/// position `b`: the first number read is the start, the second the end.
#[verifier::spinoff_prover]
pub proof fn law_lrange_request(text: Seq<char>, k: Seq<char>, a: Seq<char>, b: Seq<char>)
    requires
        words(text) == seq!["lrange"@, k, a, b],
        spec_parse_i32(a) is Some,
        spec_parse_i32(b) is Some,
    ensures
        request_form(text, false) == ReqForm::DataBase(
            QForm::Lrange(k, spec_parse_i32(a)->Some_0, spec_parse_i32(b)->Some_0),
        ),
{
    reveal_strlit("lrange");
    reveal_strlit("sort");
    reveal_strlit("mset");
    reveal_strlit("mget");
    reveal_strlit("lpush");
    reveal_strlit("lpushx");
    reveal_strlit("config");
    let ws = words(text);
    assert(ws[0] == "lrange"@);
    assert(ws[0] != "sort"@ && ws[0] != "mset"@ && ws[0] != "mget"@);
    assert("lpush"@.len() == 5 && "lpushx"@[1] == 'p' && "config"@[0] == 'c');
    assert(ws[0] != "lpush"@ && ws[0] != "lpushx"@ && ws[0] != "config"@);
}

/// Subscribing to each of `names` in turn adds the listener `l` once to
/// each channel named that was not among the subscriptions `subs`, and
/// leaves every other channel's listeners as they were; the subscriptions
/// then hold the old ones and the names.
proof fn lemma_subscribe_all_counts(
    subs: Seq<Seq<char>>,
    chans: ChannelsView,
    names: Seq<Seq<char>>,
    l: Listener,
)
    requires
        names_unique(chans),
    ensures
        ({
            let st = subscribe_all(subs, chans, names, l);
            &&& names_unique(st.1)
            &&& forall|c: Seq<char>| #[trigger]
                st.0.contains(c) <==> subs.contains(c) || names.contains(c)
            &&& forall|c: Seq<char>| #[trigger]
                listeners_of(st.1, c) == listeners_of(chans, c) + if !subs.contains(c)
                    && names.contains(c) {
                    1int
                } else {
                    0int
                }
        }),
    decreases names.len(),
{
    if names.len() > 0 {
        let init = names.drop_last();
        let c = names.last();
        lemma_subscribe_all_counts(subs, chans, init, l);
        let pre = subscribe_all(subs, chans, init, l);
        let st = subscribe_all(subs, chans, names, l);
        assert forall|x: Seq<char>| #[trigger] names.contains(x) <==> init.contains(x) || x == c by {
            if names.contains(x) && x != c {
                let i = choose|i: int| 0 <= i < names.len() && names[i] == x;
                assert(i < init.len());
                assert(init[i] == x);
            }
            if init.contains(x) {
                let i = choose|i: int| 0 <= i < init.len() && init[i] == x;
                assert(names[i] == x);
            }
            if x == c {
                assert(names[names.len() - 1] == x);
            }
        }
        if pre.0.contains(c) {
            assert(st.0 == pre.0 && st.1 == pre.1);
            assert forall|x: Seq<char>| #[trigger]
                st.0.contains(x) <==> subs.contains(x) || names.contains(x) by {
                assert(names.contains(x) <==> init.contains(x) || x == c);
                assert(pre.0.contains(x) <==> subs.contains(x) || init.contains(x));
            }
            assert forall|x: Seq<char>| #[trigger]
                listeners_of(st.1, x) == listeners_of(chans, x) + if !subs.contains(x)
                    && names.contains(x) {
                    1int
                } else {
                    0int
                } by {
                assert(names.contains(x) <==> init.contains(x) || x == c);
                assert(pre.0.contains(x) <==> subs.contains(x) || init.contains(x));
            }
        } else {
            law_listeners_after_subscribe(pre.1, c, l);
            assert forall|x: Seq<char>| #[trigger]
                st.0.contains(x) <==> subs.contains(x) || names.contains(x) by {
                assert(names.contains(x) <==> init.contains(x) || x == c);
                assert(pre.0.contains(x) <==> subs.contains(x) || init.contains(x));
                assert(st.0 == pre.0.push(c));
                if x == c {
                    assert(st.0[st.0.len() - 1] == c);
                } else if st.0.contains(x) {
                    let i = choose|i: int| 0 <= i < st.0.len() && st.0[i] == x;
                    assert(pre.0[i] == x);
                } else if pre.0.contains(x) {
                    let i = choose|i: int| 0 <= i < pre.0.len() && pre.0[i] == x;
                    assert(st.0[i] == x);
                }
            }
            assert forall|x: Seq<char>| #[trigger]
                listeners_of(st.1, x) == listeners_of(chans, x) + if !subs.contains(x)
                    && names.contains(x) {
                    1int
                } else {
                    0int
                } by {
                assert(names.contains(x) <==> init.contains(x) || x == c);
                assert(pre.0.contains(x) <==> subs.contains(x) || init.contains(x));
                if x != c {
                    assert(listeners_of(st.1, x) == listeners_of(pre.1, x));
                }
            }
        }
    }
}

/// `subscribe` adds the client once, with its queue, to each channel it
/// names and had not subscribed to (naming a channel twice adds it once);
/// a channel it had subscribed to before keeps its listeners, as does every
/// channel it does not name.  Its subscriptions then hold the old ones and
/// the names.
pub proof fn law_subscribe_adds_each_channel_once(
    names: Seq<Seq<char>>,
    req: SuscriberRequest,
    ch0: ChannelsView,
    ch1: ChannelsView,
    subs0: Seq<Seq<char>>,
    subs1: Seq<Seq<char>>,
    mode0: bool,
    mode1: bool,
    id: u32,
    monitor_sender: Sender<String>,
    sender: Sender<String>,
    r: ReponseForm,
)
    requires
        req is Subscribe,
        strs_view(req->Subscribe_0@) == names,
        names_unique(ch0),
        suscriber_post(req, ch0, ch1, subs0, subs1, mode0, mode1, id, monitor_sender, sender, r),
    ensures
        forall|c: Seq<char>| #[trigger]
            listeners_of(ch1, c) == listeners_of(ch0, c) + if !subs0.contains(c) && names.contains(
                c,
            ) {
                1int
            } else {
                0int
            },
        forall|c: Seq<char>| #[trigger] subs1.contains(c) <==> subs0.contains(c) || names.contains(c),
        mode1,
{
    lemma_subscribe_all_counts(subs0, ch0, names, (id, sender));
}

/// The arguments of a request are read in the order the command takes
/// them: for each command below, the words after its name become its key,
/// numbers and values in that order, a number read as such.
#[verifier::spinoff_prover]
pub proof fn law_request_arguments_in_order(text: Seq<char>)
    ensures
        ({
            let ws = words(text);
            let db = |q: QForm| ReqForm::DataBase(q);
            &&& ws.len() == 3 && ws[0] == "getset"@ ==> request_form(text, false) == db(
                QForm::Getset(ws[1], ws[2]),
            )
            &&& ws.len() == 3 && ws[0] == "set"@ ==> request_form(text, false) == db(
                QForm::SetValue(ws[1], ws[2]),
            )
            &&& ws.len() == 3 && ws[0] == "append"@ ==> request_form(text, false) == db(
                QForm::Append(ws[1], ws[2]),
            )
            &&& ws.len() == 3 && ws[0] == "copy"@ ==> request_form(text, false) == db(
                QForm::Copy(ws[1], ws[2]),
            )
            &&& ws.len() == 3 && ws[0] == "rename"@ ==> request_form(text, false) == db(
                QForm::Rename(ws[1], ws[2]),
            )
            &&& ws.len() == 3 && ws[0] == "sismember"@ ==> request_form(text, false) == db(
                QForm::Sismember(ws[1], ws[2]),
            )
            &&& ws.len() == 3 && ws[0] == "publish"@ ==> request_form(text, false)
                == ReqForm::Publish(ws[1], ws[2])
            &&& ws.len() == 4 && ws[0] == "config"@ && ws[1] == "set"@ ==> request_form(
                text,
                false,
            ) == ReqForm::ConfigSet(ws[2], ws[3])
            &&& ws.len() == 3 && ws[0] == "expire"@ && spec_parse_i64(ws[2]) is Some
                ==> request_form(text, false) == db(
                QForm::Expire(ws[1], spec_parse_i64(ws[2])->Some_0),
            )
            &&& ws.len() == 3 && ws[0] == "expireat"@ && spec_parse_i64(ws[2]) is Some
                ==> request_form(text, false) == db(
                QForm::ExpireAt(ws[1], spec_parse_i64(ws[2])->Some_0),
            )
            &&& ws.len() == 3 && ws[0] == "incrby"@ && spec_parse_i32(ws[2]) is Some
                ==> request_form(text, false) == db(
                QForm::Incrby(ws[1], spec_parse_i32(ws[2])->Some_0),
            )
            &&& ws.len() == 3 && ws[0] == "decrby"@ && spec_parse_i32(ws[2]) is Some
                ==> request_form(text, false) == db(
                QForm::Decrby(ws[1], spec_parse_i32(ws[2])->Some_0),
            )
            &&& ws.len() == 3 && ws[0] == "lindex"@ && spec_parse_i32(ws[2]) is Some
                ==> request_form(text, false) == db(
                QForm::Lindex(ws[1], spec_parse_i32(ws[2])->Some_0),
            )
            &&& ws.len() == 4 && ws[0] == "lrem"@ && spec_parse_i32(ws[2]) is Some
                ==> request_form(text, false) == db(
                QForm::Lrem(ws[1], spec_parse_i32(ws[2])->Some_0, ws[3]),
            )
            &&& ws.len() == 4 && ws[0] == "lset"@ && spec_parse_usize(ws[2]) is Some
                ==> request_form(text, false) == db(
                QForm::Lset(ws[1], spec_parse_usize(ws[2])->Some_0, ws[3]),
            )
        }),
{
    reveal_strlit("expire");
    reveal_strlit("expireat");
    reveal_strlit("ttl");
    reveal_strlit("type");
    reveal_strlit("persist");
    reveal_strlit("append");
    reveal_strlit("incrby");
    reveal_strlit("decrby");
    reveal_strlit("get");
    reveal_strlit("getdel");
    reveal_strlit("getset");
    reveal_strlit("set");
    reveal_strlit("copy");
    reveal_strlit("del");
    reveal_strlit("exists");
    reveal_strlit("keys");
    reveal_strlit("rename");
    reveal_strlit("sort");
    reveal_strlit("strlen");
    reveal_strlit("mset");
    reveal_strlit("mget");
    reveal_strlit("lindex");
    reveal_strlit("llen");
    reveal_strlit("lpop");
    reveal_strlit("lpush");
    reveal_strlit("lpushx");
    reveal_strlit("lrange");
    reveal_strlit("lrem");
    reveal_strlit("lset");
    reveal_strlit("rpop");
    reveal_strlit("rpush");
    reveal_strlit("rpushx");
    reveal_strlit("sadd");
    reveal_strlit("sismember");
    reveal_strlit("scard");
    reveal_strlit("flushdb");
    reveal_strlit("dbsize");
    reveal_strlit("config");
    reveal_strlit("smembers");
    reveal_strlit("srem");
    reveal_strlit("monitor");
    reveal_strlit("subscribe");
    reveal_strlit("publish");
    reveal_strlit("unsubscribe");
    reveal_strlit("pubsub");
    assert("expire"@.len() == 6 && "expire"@[0] == 'e' && "expire"@[1] == 'x' && "expire"@[2] == 'p');
    assert("expireat"@.len() == 8 && "expireat"@[0] == 'e' && "expireat"@[1] == 'x' && "expireat"@[2] == 'p');
    assert("ttl"@.len() == 3 && "ttl"@[0] == 't' && "ttl"@[1] == 't' && "ttl"@[2] == 'l');
    assert("type"@.len() == 4 && "type"@[0] == 't' && "type"@[1] == 'y' && "type"@[2] == 'p');
    assert("persist"@.len() == 7 && "persist"@[0] == 'p' && "persist"@[1] == 'e' && "persist"@[2] == 'r');
    assert("append"@.len() == 6 && "append"@[0] == 'a' && "append"@[1] == 'p' && "append"@[2] == 'p');
    assert("incrby"@.len() == 6 && "incrby"@[0] == 'i' && "incrby"@[1] == 'n' && "incrby"@[2] == 'c');
    assert("decrby"@.len() == 6 && "decrby"@[0] == 'd' && "decrby"@[1] == 'e' && "decrby"@[2] == 'c');
    assert("get"@.len() == 3 && "get"@[0] == 'g' && "get"@[1] == 'e' && "get"@[2] == 't');
    assert("getdel"@.len() == 6 && "getdel"@[0] == 'g' && "getdel"@[1] == 'e' && "getdel"@[2] == 't');
    assert("getset"@.len() == 6 && "getset"@[0] == 'g' && "getset"@[1] == 'e' && "getset"@[2] == 't');
    assert("set"@.len() == 3 && "set"@[0] == 's' && "set"@[1] == 'e' && "set"@[2] == 't');
    assert("copy"@.len() == 4 && "copy"@[0] == 'c' && "copy"@[1] == 'o' && "copy"@[2] == 'p');
    assert("del"@.len() == 3 && "del"@[0] == 'd' && "del"@[1] == 'e' && "del"@[2] == 'l');
    assert("exists"@.len() == 6 && "exists"@[0] == 'e' && "exists"@[1] == 'x' && "exists"@[2] == 'i');
    assert("keys"@.len() == 4 && "keys"@[0] == 'k' && "keys"@[1] == 'e' && "keys"@[2] == 'y');
    assert("rename"@.len() == 6 && "rename"@[0] == 'r' && "rename"@[1] == 'e' && "rename"@[2] == 'n');
    assert("sort"@.len() == 4 && "sort"@[0] == 's' && "sort"@[1] == 'o' && "sort"@[2] == 'r');
    assert("strlen"@.len() == 6 && "strlen"@[0] == 's' && "strlen"@[1] == 't' && "strlen"@[2] == 'r');
    assert("mset"@.len() == 4 && "mset"@[0] == 'm' && "mset"@[1] == 's' && "mset"@[2] == 'e');
    assert("mget"@.len() == 4 && "mget"@[0] == 'm' && "mget"@[1] == 'g' && "mget"@[2] == 'e');
    assert("lindex"@.len() == 6 && "lindex"@[0] == 'l' && "lindex"@[1] == 'i' && "lindex"@[2] == 'n');
    assert("llen"@.len() == 4 && "llen"@[0] == 'l' && "llen"@[1] == 'l' && "llen"@[2] == 'e');
    assert("lpop"@.len() == 4 && "lpop"@[0] == 'l' && "lpop"@[1] == 'p' && "lpop"@[2] == 'o');
    assert("lpush"@.len() == 5 && "lpush"@[0] == 'l' && "lpush"@[1] == 'p' && "lpush"@[2] == 'u');
    assert("lpushx"@.len() == 6 && "lpushx"@[0] == 'l' && "lpushx"@[1] == 'p' && "lpushx"@[2] == 'u');
    assert("lrange"@.len() == 6 && "lrange"@[0] == 'l' && "lrange"@[1] == 'r' && "lrange"@[2] == 'a');
    assert("lrem"@.len() == 4 && "lrem"@[0] == 'l' && "lrem"@[1] == 'r' && "lrem"@[2] == 'e');
    assert("lset"@.len() == 4 && "lset"@[0] == 'l' && "lset"@[1] == 's' && "lset"@[2] == 'e');
    assert("rpop"@.len() == 4 && "rpop"@[0] == 'r' && "rpop"@[1] == 'p' && "rpop"@[2] == 'o');
    assert("rpush"@.len() == 5 && "rpush"@[0] == 'r' && "rpush"@[1] == 'p' && "rpush"@[2] == 'u');
    assert("rpushx"@.len() == 6 && "rpushx"@[0] == 'r' && "rpushx"@[1] == 'p' && "rpushx"@[2] == 'u');
    assert("sadd"@.len() == 4 && "sadd"@[0] == 's' && "sadd"@[1] == 'a' && "sadd"@[2] == 'd');
    assert("sismember"@.len() == 9 && "sismember"@[0] == 's' && "sismember"@[1] == 'i' && "sismember"@[2] == 's');
    assert("scard"@.len() == 5 && "scard"@[0] == 's' && "scard"@[1] == 'c' && "scard"@[2] == 'a');
    assert("flushdb"@.len() == 7 && "flushdb"@[0] == 'f' && "flushdb"@[1] == 'l' && "flushdb"@[2] == 'u');
    assert("dbsize"@.len() == 6 && "dbsize"@[0] == 'd' && "dbsize"@[1] == 'b' && "dbsize"@[2] == 's');
    assert("config"@.len() == 6 && "config"@[0] == 'c' && "config"@[1] == 'o' && "config"@[2] == 'n');
    assert("smembers"@.len() == 8 && "smembers"@[0] == 's' && "smembers"@[1] == 'm' && "smembers"@[2] == 'e');
    assert("srem"@.len() == 4 && "srem"@[0] == 's' && "srem"@[1] == 'r' && "srem"@[2] == 'e');
    assert("monitor"@.len() == 7 && "monitor"@[0] == 'm' && "monitor"@[1] == 'o' && "monitor"@[2] == 'n');
    assert("subscribe"@.len() == 9 && "subscribe"@[0] == 's' && "subscribe"@[1] == 'u' && "subscribe"@[2] == 'b');
    assert("publish"@.len() == 7 && "publish"@[0] == 'p' && "publish"@[1] == 'u' && "publish"@[2] == 'b');
    assert("unsubscribe"@.len() == 11 && "unsubscribe"@[0] == 'u' && "unsubscribe"@[1] == 'n' && "unsubscribe"@[2] == 's');
    assert("pubsub"@.len() == 6 && "pubsub"@[0] == 'p' && "pubsub"@[1] == 'u' && "pubsub"@[2] == 'b');
}

/// `sort` with `ALPHA` gives every item of the list, as often as the list
/// holds it, in ascending string order.
pub proof fn law_sort_alpha_orders_strings(
    items: Seq<Seq<char>>,
    weigh: spec_fn(Seq<char>) -> Result<Seq<Seq<char>>, DataBaseError>,
)
    requires
        items.len() <= i32::MAX,
    ensures
        exists|v: Seq<Seq<char>>|
            #![trigger in_string_order(v, false)]
            {
                &&& sort_outcome(items, SortFlags::Alpha, weigh) == Ok::<
                    Seq<Seq<char>>,
                    DataBaseError,
                >(v)
                &&& in_string_order(v, false)
                &&& v.to_multiset() == items.to_multiset()
            },
{
    let v = items.sort_by(alpha_order());
    lemma_alpha_order();
    items.lemma_sort_by_ensures(alpha_order());
    lemma_sort_by_len(items, alpha_order());
    assert forall|i: int, j: int| 0 <= i < j < v.len() implies lex_le(v[i], v[j]) by {
        assert(alpha_order()(v[i], v[j]));
    }
    assert(in_string_order(v, false));
    assert(build_view(v, 0, items.len() as i32) =~= v);
}

/// `sort` with `LIMIT offset count` on a list of numbers gives, of its
/// numbers from small to large, the `count` ones from position `offset` (as
/// many as there are), or all from `offset` on when `count` is negative;
/// nothing when `count` is 0 or `offset` is past the end.
pub proof fn law_sort_limit_numbers(
    items: Seq<Seq<char>>,
    offset: i32,
    count: i32,
    weigh: spec_fn(Seq<char>) -> Result<Seq<Seq<char>>, DataBaseError>,
)
    requires
        parsed_numbers(items) is Some,
        items.len() <= i32::MAX,
        0 <= offset,
    ensures
        ({
            let ns = parsed_numbers(items)->Some_0;
            let s = ns.sort_by(number_order(false)).map_values(|n: i32| int_str(n as int));
            let len = items.len() as int;
            let end = if count < 0 || offset + count > len {
                len
            } else {
                offset + count
            };
            sort_outcome(items, SortFlags::Limit(offset, count), weigh) == Ok::<
                Seq<Seq<char>>,
                DataBaseError,
            >(
                if offset >= len || count == 0 {
                    Seq::empty()
                } else {
                    s.subrange(offset as int, end)
                },
            )
        }),
{
    let ns = parsed_numbers(items)->Some_0;
    let leq = number_order(false);
    lemma_number_orders();
    ns.lemma_sort_by_ensures(leq);
    lemma_sort_by_len(ns, leq);
    let s = ns.sort_by(leq).map_values(|n: i32| int_str(n as int));
    let len = items.len() as int;
    let lv = crate::sortflags::limit_view(len, offset, count);
    if offset >= len || count == 0 {
        assert(lv.0);
        assert(parsed_numbers(Seq::<Seq<char>>::empty()) == Some(Seq::<i32>::empty()));
        assert(Seq::<i32>::empty().sort_by(leq).len() == 0) by {
            lemma_sort_by_len(Seq::<i32>::empty(), leq);
        }
        assert(numeric_sort(Seq::<Seq<char>>::empty(), false) == Ok::<
            Seq<Seq<char>>,
            DataBaseError,
        >(Seq::<Seq<char>>::empty())) by {
            assert(parsed_numbers(Seq::<Seq<char>>::empty())->Some_0 =~= Seq::<i32>::empty());
            assert(Seq::<i32>::empty().sort_by(leq).map_values(|n: i32| int_str(n as int))
                =~= Seq::<Seq<char>>::empty());
        }
        assert(build_view(Seq::<Seq<char>>::empty(), lv.1, lv.2) =~= Seq::<Seq<char>>::empty());
    } else {
        assert(!lv.0);
        assert(numeric_sort(items, false) == Ok::<Seq<Seq<char>>, DataBaseError>(s));
        let end = if count < 0 || offset + count > len {
            len
        } else {
            offset + count
        };
        assert(build_view(s, lv.1, lv.2) =~= s.subrange(offset as int, end));
    }
}

/// The listeners whose id is not `id`.
pub open spec fn listener_not(id: u32) -> spec_fn(Listener) -> bool {
    |l: Listener| l.0 != id
}

proof fn lemma_other_listeners_filter(ls: Seq<Listener>, id: u32)
    ensures
        other_listeners(ls, id) == ls.filter(listener_not(id)),
    decreases ls.len(),
{
    reveal(Seq::filter);
    if ls.len() > 0 {
        lemma_other_listeners_filter(ls.drop_last(), id);
    }
}

/// `unsubscribe` of client `id` from `c` takes every listener with that id
/// off `c` and keeps the others in their order; the channel goes when no
/// listener is left.  Every other channel keeps its listeners.
pub proof fn law_unsubscribe_removes_the_client(s: ChannelsView, c: Seq<char>, id: u32)
    requires
        names_unique(s),
    ensures
        ({
            let u = unsubscribed(s, c, id);
            let p = channel_pos(s, c);
            &&& names_unique(u)
            &&& forall|c2: Seq<char>| c2 != c ==> #[trigger] listeners_of(u, c2) == listeners_of(s, c2)
            &&& p < 0 ==> u == s
            &&& p >= 0 ==> {
                let kept = s[p].1.filter(listener_not(id));
                &&& forall|i: int| 0 <= i < kept.len() ==> (#[trigger] kept[i]).0 != id
                &&& if kept.len() == 0 {
                    channel_pos(u, c) == -1
                } else {
                    channel_pos(u, c) >= 0 && u[channel_pos(u, c)] == (c, kept)
                }
            }
        }),
{
    let u = unsubscribed(s, c, id);
    let p = channel_pos(s, c);
    if p >= 0 {
        let kept = s[p].1.filter(listener_not(id));
        lemma_other_listeners_filter(s[p].1, id);
        broadcast use vstd::seq_lib::group_filter_ensures;
        if kept.len() == 0 {
            assert(u == s.remove(p));
            assert forall|i: int| 0 <= i < u.len() implies u[i].0 != c by {
                if i < p {
                    assert(u[i] == s[i]);
                } else {
                    assert(u[i] == s[i + 1]);
                }
            }
            lemma_channel_absent(u, c);
            assert forall|i: int, j: int|
                0 <= i < u.len() && 0 <= j < u.len() && i != j implies u[i].0 != u[j].0 by {
                let oi = if i < p { i } else { i + 1 };
                let oj = if j < p { j } else { j + 1 };
                assert(u[i] == s[oi]);
                assert(u[j] == s[oj]);
            }
            assert forall|c2: Seq<char>| c2 != c implies #[trigger] listeners_of(u, c2)
                == listeners_of(s, c2) by {
                let q = channel_pos(s, c2);
                if q >= 0 {
                    let q2 = if q < p { q } else { q - 1 };
                    assert(u[q2] == s[q]);
                    lemma_channel_pos(u, c2, q2);
                } else {
                    assert forall|i: int| 0 <= i < u.len() implies u[i].0 != c2 by {
                        let oi = if i < p { i } else { i + 1 };
                        assert(u[i] == s[oi]);
                    }
                    lemma_channel_absent(u, c2);
                }
            }
        } else {
            assert(u == s.update(p, (c, kept)));
            assert forall|i: int, j: int|
                0 <= i < u.len() && 0 <= j < u.len() && i != j implies u[i].0 != u[j].0 by {
                assert(u[i].0 == s[i].0);
                assert(u[j].0 == s[j].0);
            }
            lemma_channel_pos(u, c, p);
            assert forall|c2: Seq<char>| c2 != c implies #[trigger] listeners_of(u, c2)
                == listeners_of(s, c2) by {
                let q = channel_pos(s, c2);
                if q >= 0 {
                    lemma_channel_pos(u, c2, q);
                } else {
                    assert forall|i: int| 0 <= i < u.len() implies u[i].0 != c2 by {
                        assert(u[i].0 == s[i].0);
                    }
                    lemma_channel_absent(u, c2);
                }
            }
        }
    }
}

/// Sending `msg` on `c` hands it once to each listener of `c`, in the
/// order they listen, with its queue, and to nobody else: as many messages
/// as `c` has listeners, and none when there is no channel `c`.
pub proof fn law_send_reaches_each_listener_once(s: ChannelsView, c: Seq<char>, msg: Seq<char>)
    ensures
        deliveries(s, c, msg).len() == listeners_of(s, c),
        channel_pos(s, c) >= 0 ==> forall|i: int|
            0 <= i < listeners_of(s, c) ==> #[trigger] deliveries(s, c, msg)[i] == (
                s[channel_pos(s, c)].1[i].1,
                msg,
            ),
{
}

/// Options without `LIMIT` turn a list round once for each `DESC`, and
/// change nothing else.
proof fn lemma_apply_flags_turns<'a>(cur: Seq<Seq<char>>, pos: i32, num: i32, fs: Seq<SortFlags<'a>>)
    requires
        !has_limit(fs),
    ensures
        apply_flags(cur, pos, num, fs) == (
            if desc_count(fs) % 2 == 1 {
                cur.reverse()
            } else {
                cur
            },
            pos,
            num,
        ),
    decreases fs.len(),
{
    if fs.len() > 0 {
        let rest = fs.drop_first();
        assert(!has_limit(rest)) by {
            if has_limit(rest) {
                let i = choose|i: int| 0 <= i < rest.len() && #[trigger] rest[i] is Limit;
                assert(fs[i + 1] is Limit);
            }
        }
        assert(!(fs[0] is Limit));
        if fs[0] is Desc {
            lemma_apply_flags_turns(cur.reverse(), pos, num, rest);
            assert(cur.reverse().reverse() =~= cur);
        } else {
            lemma_apply_flags_turns(cur, pos, num, rest);
        }
    }
}

/// `sort` with options that hold `BY` and no `LIMIT` orders the items of
/// the list or set by the weights the first `BY` pattern names (see
/// `law_by_weight_is_stable_sort`), and turns that order round when `DESC`
/// is given (an odd number of times); `ALPHA` plays no part.  When an item's
/// weight is not a number the answer is `SortByParseError`.
pub proof fn law_sort_by_composite(
    pre: Database,
    post: Database,
    key: &str,
    flags: SortFlags,
    items: Seq<Seq<char>>,
    r: Result<SuccessQuery, DataBaseError>,
)
    requires
        Database::sort_post(pre, post, key, flags, r),
        key_live(pre.dict(), pre.ttls(), post.now(), key@),
        pre.dict()[key@].0 == ValueView::List(items) || pre.dict()[key@].0 == ValueView::Members(
            items,
        ),
        items.len() <= i32::MAX,
        flags is CompositeFlags,
        has_by(flags->CompositeFlags_0@),
        !has_limit(flags->CompositeFlags_0@),
    ensures
        ({
            let fs = flags->CompositeFlags_0@;
            match item_weights(items, first_by(fs), post.dict(), post.ttls(), post.now()) {
                Some(ws) => {
                    let o = by_weight(items, ws);
                    result_view(r) == Ok::<QueryView, DataBaseError>(
                        QueryView::List(
                            str_replies(
                                if desc_count(fs) % 2 == 1 {
                                    o.reverse()
                                } else {
                                    o
                                },
                            ),
                        ),
                    )
                },
                None => r == Err::<SuccessQuery, DataBaseError>(DataBaseError::SortByParseError),
            }
        }),
{
    let fs = flags->CompositeFlags_0@;
    assert(!limit_desc_pair(fs));
    let len = items.len() as i32;
    match item_weights(items, first_by(fs), post.dict(), post.ttls(), post.now()) {
        Some(ws) => {
            let o = by_weight(items, ws);
            lemma_number_orders();
            lemma_sort_by_len(positioned(ws), weight_order());
            assert(o.len() == items.len());
            lemma_apply_flags_turns(o, 0, len, fs);
            let t = if desc_count(fs) % 2 == 1 {
                o.reverse()
            } else {
                o
            };
            assert(build_view(t, 0, len) =~= t);
            assert(sort_outcome(items, flags, post.weigher(items)) == Ok::<
                Seq<Seq<char>>,
                DataBaseError,
            >(t));
        },
        None => {
            assert(sort_outcome(items, flags, post.weigher(items)) == Err::<
                Seq<Seq<char>>,
                DataBaseError,
            >(DataBaseError::SortByParseError));
        },
    }
}

/// The items that are not `e`.
pub open spec fn not_item(e: Seq<char>) -> spec_fn(Seq<char>) -> bool {
    |x: Seq<char>| x != e
}

/// `n` if there are at least `n` occurrences of `e` in `l`, else all of them.
pub open spec fn at_most_occurrences(l: Seq<Seq<char>>, e: Seq<char>, n: nat) -> nat {
    if n <= occurrences(l, e) {
        n
    } else {
        occurrences(l, e)
    }
}

proof fn lemma_filter_cons(x: Seq<char>, t: Seq<Seq<char>>, e: Seq<char>)
    ensures
        (seq![x] + t).filter(not_item(e)) == if x != e {
            seq![x] + t.filter(not_item(e))
        } else {
            t.filter(not_item(e))
        },
{
    broadcast use Seq::filter_distributes_over_add;

    reveal_with_fuel(Seq::filter, 2);
    assert(seq![x].drop_last() =~= Seq::<Seq<char>>::empty());
    if x != e {
        assert(seq![x].filter(not_item(e)) =~= seq![x]);
    } else {
        assert(seq![x].filter(not_item(e)) =~= Seq::<Seq<char>>::empty());
    }
    assert((seq![x] + t).filter(not_item(e)) == seq![x].filter(not_item(e)) + t.filter(not_item(e)));
    if x == e {
        assert(Seq::<Seq<char>>::empty() + t.filter(not_item(e)) =~= t.filter(not_item(e)));
    }
}

/// Removing the first `n` occurrences of `e` drops the occurrences in some
/// prefix holding that many (or all, when fewer) and keeps the rest.
proof fn lemma_remove_first_n_split(l: Seq<Seq<char>>, e: Seq<char>, n: nat)
    ensures
        exists|k: int|
            0 <= k <= l.len() && #[trigger] occurrences(l.take(k), e) == at_most_occurrences(l, e, n)
                && remove_first_n(l, e, n) == l.take(k).filter(not_item(e)) + l.skip(k),
    decreases l.len(),
{
    reveal_with_fuel(Seq::filter, 1);
    if l.len() == 0 || n == 0 {
        assert(l.take(0) =~= Seq::<Seq<char>>::empty());
        assert(l.skip(0) =~= l);
        assert(l.take(0).filter(not_item(e)) =~= Seq::<Seq<char>>::empty());
        assert(occurrences(l.take(0), e) == 0);
        assert(remove_first_n(l, e, n) =~= l.take(0).filter(not_item(e)) + l.skip(0));
    } else {
        let t = l.drop_first();
        let m: nat = if l[0] == e {
            (n - 1) as nat
        } else {
            n
        };
        lemma_remove_first_n_split(t, e, m);
        let k1 = choose|k: int|
            0 <= k <= t.len() && #[trigger] occurrences(t.take(k), e) == at_most_occurrences(t, e, m)
                && remove_first_n(t, e, m) == t.take(k).filter(not_item(e)) + t.skip(k);
        let k = k1 + 1;
        assert(l.take(k) =~= seq![l[0]] + t.take(k1));
        assert(l.skip(k) =~= t.skip(k1));
        assert(occurrences(l.take(k), e) == (if l[0] == e { 1nat } else { 0nat }) + occurrences(
            t.take(k1),
            e,
        )) by {
            assert((seq![l[0]] + t.take(k1)).drop_first() =~= t.take(k1));
        }
        assert(occurrences(l, e) == (if l[0] == e { 1nat } else { 0nat }) + occurrences(t, e));
        lemma_filter_cons(l[0], t.take(k1), e);
        if l[0] == e {
            assert(remove_first_n(l, e, n) == remove_first_n(t, e, m));
        } else {
            assert(remove_first_n(l, e, n) == seq![l[0]] + remove_first_n(t, e, m));
            assert(remove_first_n(l, e, n) =~= l.take(k).filter(not_item(e)) + l.skip(k));
        }
        assert(occurrences(l.take(k), e) == at_most_occurrences(l, e, n));
    }
}

proof fn lemma_filter_reverse(s: Seq<Seq<char>>, e: Seq<char>)
    ensures
        s.reverse().filter(not_item(e)) == s.filter(not_item(e)).reverse(),
    decreases s.len(),
{
    if s.len() > 0 {
        let a = s.drop_last();
        let x = s.last();
        lemma_filter_reverse(a, e);
        assert(s.reverse() =~= seq![x] + a.reverse());
        lemma_filter_cons(x, a.reverse(), e);
        reveal_with_fuel(Seq::filter, 1);
        assert(s.drop_last() == a);
        if x != e {
            assert(s.filter(not_item(e)) == a.filter(not_item(e)).push(x));
            assert(a.filter(not_item(e)).push(x).reverse() =~= seq![x] + a.filter(
                not_item(e),
            ).reverse());
        } else {
            assert(s.filter(not_item(e)) == a.filter(not_item(e)));
        }
    } else {
        reveal_with_fuel(Seq::filter, 1);
        assert(s.reverse() =~= s);
    }
}

/// `lrem` of `count` occurrences of `elem` from a list keeps every other
/// item, in order, and removes the occurrences of `elem` that come first
/// (`count > 0`), last (`count < 0`) or all of them (`count == 0`): the
/// list left is the list with the occurrences dropped from a part at its
/// start (or, for a negative count, at its end) that holds `|count|` of
/// them (all, when there are fewer), the rest of the list unchanged.
#[verifier::spinoff_prover]
pub proof fn law_lrem_removes_the_nearest_occurrences(
    pre: Database,
    post: Database,
    key: &str,
    count: i32,
    elem: &str,
    r: Result<SuccessQuery, DataBaseError>,
)
    requires
        Database::lrem_post(pre, post, key, count, elem, r),
        key_live(pre.dict(), pre.ttls(), post.now(), key@),
        pre.dict()[key@].0 is List,
    ensures
        ({
            let l = pre.dict()[key@].0->List_0;
            let e = elem@;
            let kept = post.dict()[key@].0->List_0;
            &&& post.dict()[key@].0 is List
            &&& count >= 0 ==> exists|k: int|
                0 <= k <= l.len() && #[trigger] occurrences(l.take(k), e) == at_most_occurrences(
                    l,
                    e,
                    if count == 0 {
                        l.len()
                    } else {
                        count as nat
                    },
                ) && kept == l.take(k).filter(not_item(e)) + l.skip(k)
            &&& count < 0 ==> exists|k: int|
                0 <= k <= l.len() && #[trigger] occurrences(l.skip(k), e) == at_most_occurrences(
                    l,
                    e,
                    (-count) as nat,
                ) && kept == l.take(k) + l.skip(k).filter(not_item(e))
        }),
{
    let l = pre.dict()[key@].0->List_0;
    let e = elem@;
    let kept = post.dict()[key@].0->List_0;
    assert(kept == lrem_list(l, count, e));
    if count > 0 {
        lemma_remove_first_n_split(l, e, count as nat);
    } else if count == 0 {
        lemma_remove_first_n_split(l, e, l.len());
    } else {
        let n = (-count) as nat;
        let rv = l.reverse();
        lemma_remove_first_n_split(rv, e, n);
        let k1 = choose|k: int|
            0 <= k <= rv.len() && #[trigger] occurrences(rv.take(k), e) == at_most_occurrences(
                rv,
                e,
                n,
            ) && remove_first_n(rv, e, n) == rv.take(k).filter(not_item(e)) + rv.skip(k);
        let k = l.len() - k1;
        let front = l.take(k);
        let back = l.skip(k);
        assert(rv.skip(k1) =~= front.reverse());
        assert(rv.take(k1) =~= back.reverse());
        lemma_filter_reverse(back, e);
        lemma_occurrences_reverse(back, e);
        lemma_occurrences_reverse(l, e);
        assert(front.reverse().reverse() =~= front);
        let fb = back.filter(not_item(e));
        assert(fb.reverse().reverse() =~= fb);
        assert((fb.reverse() + front.reverse()).reverse() =~= front + fb);
        assert(kept == front + fb);
        assert(occurrences(l.skip(k), e) == at_most_occurrences(l, e, n));
    }
}

/// `lpush` puts its values at the head one after the other, so the last
/// value pushed is the first: `lpop` then gives it back (on a list that
/// does not expire).
pub proof fn law_lpop_gives_the_last_value_lpushed(
    pre: Database,
    mid: Database,
    post: Database,
    key: &str,
    values: Vec<&str>,
    r1: Result<SuccessQuery, DataBaseError>,
    r2: Result<SuccessQuery, DataBaseError>,
)
    requires
        Database::lpush_post(pre, mid, key, values, r1),
        Database::lpop_post(mid, post, key, r2),
        values@.len() >= 1,
        r1 is Ok,
        !pre.ttls().contains_key(key@),
    ensures
        result_view(r2) == Ok::<QueryView, DataBaseError>(QueryView::Str(values@.last()@)),
{
    let vs = strs_view(values@);
    assert(vs.reverse()[0] == values@.last()@);
    let d = pre.dict();
    if key_live(d, pre.ttls(), mid.now(), key@) {
        let l = d[key@].0->List_0;
        assert((vs.reverse() + l)[0] == vs.reverse()[0]);
    }
}

/// `rpush` puts its values at the tail one after the other, so the last
/// value pushed is the last: `rpop` then gives it back (on a list that does
/// not expire).
pub proof fn law_rpop_gives_the_last_value_rpushed(
    pre: Database,
    mid: Database,
    post: Database,
    key: &str,
    values: Vec<&str>,
    r1: Result<SuccessQuery, DataBaseError>,
    r2: Result<SuccessQuery, DataBaseError>,
)
    requires
        Database::rpush_post(pre, mid, key, values, r1),
        Database::rpop_post(mid, post, key, r2),
        values@.len() >= 1,
        r1 is Ok,
        !pre.ttls().contains_key(key@),
    ensures
        result_view(r2) == Ok::<QueryView, DataBaseError>(QueryView::Str(values@.last()@)),
{
    let vs = strs_view(values@);
    let d = pre.dict();
    if key_live(d, pre.ttls(), mid.now(), key@) {
        let l = d[key@].0->List_0;
        assert((l + vs).last() == vs.last());
    }
}

/// Run as queries, `lpush` then `lpop` on a list that does not expire give
/// back the last value pushed, and `rpush` then `rpop` likewise: each query
/// runs the command it names.
pub proof fn law_queries_push_then_pop(
    pre: Database,
    mid: Database,
    post: Database,
    key: &str,
    values: Vec<&str>,
    r1: Result<SuccessQuery, DataBaseError>,
    r2: Result<SuccessQuery, DataBaseError>,
    left: bool,
)
    requires
        left ==> query_post(Query::Lpush(key, values), pre, mid, r1) && query_post(
            Query::Lpop(key),
            mid,
            post,
            r2,
        ),
        !left ==> query_post(Query::Rpush(key, values), pre, mid, r1) && query_post(
            Query::Rpop(key),
            mid,
            post,
            r2,
        ),
        values@.len() >= 1,
        r1 is Ok,
        !pre.ttls().contains_key(key@),
    ensures
        result_view(r2) == Ok::<QueryView, DataBaseError>(QueryView::Str(values@.last()@)),
{
    if left {
        law_lpop_gives_the_last_value_lpushed(pre, mid, post, key, values, r1, r2);
    } else {
        law_rpop_gives_the_last_value_rpushed(pre, mid, post, key, values, r1, r2);
    }
}

/// Run as queries, `set` then `get` give back the value set.
pub proof fn law_queries_set_then_get(
    pre: Database,
    mid: Database,
    post: Database,
    key: &str,
    val: &str,
    r1: Result<SuccessQuery, DataBaseError>,
    r2: Result<SuccessQuery, DataBaseError>,
)
    requires
        query_post(Query::SetValue(key, val), pre, mid, r1),
        query_post(Query::Get(key), mid, post, r2),
    ensures
        result_view(r2) == Ok::<QueryView, DataBaseError>(QueryView::Str(val@)),
{
    law_get_after_set(pre, mid, post, key, val, r1, r2);
}

/// The options of a `sort` request: none gives the plain (numeric) sort;
/// one `alpha` or `desc` that option; `limit a b` the offset `a` and the
/// count `b`, in that order; `alpha desc` and `desc alpha` both options, in
/// the order given.
#[verifier::spinoff_prover]
pub proof fn law_sort_request_options(text: Seq<char>)
    ensures
        ({
            let ws = words(text);
            let sort = |f: FlagForm| ReqForm::DataBase(QForm::Sort(ws[1], f));
            &&& ws.len() == 2 && ws[0] == "sort"@ ==> request_form(text, false) == sort(
                FlagForm::Plain,
            )
            &&& ws.len() == 3 && ws[0] == "sort"@ && ws[2] == "alpha"@ ==> request_form(text, false)
                == sort(FlagForm::Alpha)
            &&& ws.len() == 3 && ws[0] == "sort"@ && ws[2] == "desc"@ ==> request_form(text, false)
                == sort(FlagForm::Desc)
            &&& ws.len() == 5 && ws[0] == "sort"@ && ws[2] == "limit"@ && spec_parse_i32(ws[3]) is Some
                && spec_parse_i32(ws[4]) is Some ==> request_form(text, false) == sort(
                FlagForm::Limit(spec_parse_i32(ws[3])->Some_0, spec_parse_i32(ws[4])->Some_0),
            )
            &&& ws.len() == 4 && ws[0] == "sort"@ && ws[2] == "alpha"@ && ws[3] == "desc"@
                ==> request_form(text, false) == sort(
                FlagForm::Composite(seq![FlagForm::Alpha, FlagForm::Desc]),
            )
            &&& ws.len() == 4 && ws[0] == "sort"@ && ws[2] == "desc"@ && ws[3] == "alpha"@
                ==> request_form(text, false) == sort(
                FlagForm::Composite(seq![FlagForm::Desc, FlagForm::Alpha]),
            )
        }),
{
    reveal_strlit("expire");
    reveal_strlit("expireat");
    reveal_strlit("ttl");
    reveal_strlit("type");
    reveal_strlit("persist");
    reveal_strlit("append");
    reveal_strlit("incrby");
    reveal_strlit("decrby");
    reveal_strlit("get");
    reveal_strlit("getdel");
    reveal_strlit("getset");
    reveal_strlit("set");
    reveal_strlit("copy");
    reveal_strlit("del");
    reveal_strlit("exists");
    reveal_strlit("keys");
    reveal_strlit("rename");
    reveal_strlit("sort");
    reveal_strlit("alpha");
    reveal_strlit("desc");
    reveal_strlit("limit");
    reveal_strlit("by");
    assert("expire"@.len() == 6 && "expire"@[0] == 'e' && "expire"@[1] == 'x' && "expire"@[2] == 'p');
    assert("expireat"@.len() == 8 && "expireat"@[0] == 'e' && "expireat"@[1] == 'x' && "expireat"@[2] == 'p');
    assert("ttl"@.len() == 3 && "ttl"@[0] == 't' && "ttl"@[1] == 't' && "ttl"@[2] == 'l');
    assert("type"@.len() == 4 && "type"@[0] == 't' && "type"@[1] == 'y' && "type"@[2] == 'p');
    assert("persist"@.len() == 7 && "persist"@[0] == 'p' && "persist"@[1] == 'e' && "persist"@[2] == 'r');
    assert("append"@.len() == 6 && "append"@[0] == 'a' && "append"@[1] == 'p' && "append"@[2] == 'p');
    assert("incrby"@.len() == 6 && "incrby"@[0] == 'i' && "incrby"@[1] == 'n' && "incrby"@[2] == 'c');
    assert("decrby"@.len() == 6 && "decrby"@[0] == 'd' && "decrby"@[1] == 'e' && "decrby"@[2] == 'c');
    assert("get"@.len() == 3 && "get"@[0] == 'g' && "get"@[1] == 'e' && "get"@[2] == 't');
    assert("getdel"@.len() == 6 && "getdel"@[0] == 'g' && "getdel"@[1] == 'e' && "getdel"@[2] == 't');
    assert("getset"@.len() == 6 && "getset"@[0] == 'g' && "getset"@[1] == 'e' && "getset"@[2] == 't');
    assert("set"@.len() == 3 && "set"@[0] == 's' && "set"@[1] == 'e' && "set"@[2] == 't');
    assert("copy"@.len() == 4 && "copy"@[0] == 'c' && "copy"@[1] == 'o' && "copy"@[2] == 'p');
    assert("del"@.len() == 3 && "del"@[0] == 'd' && "del"@[1] == 'e' && "del"@[2] == 'l');
    assert("exists"@.len() == 6 && "exists"@[0] == 'e' && "exists"@[1] == 'x' && "exists"@[2] == 'i');
    assert("keys"@.len() == 4 && "keys"@[0] == 'k' && "keys"@[1] == 'e' && "keys"@[2] == 'y');
    assert("rename"@.len() == 6 && "rename"@[0] == 'r' && "rename"@[1] == 'e' && "rename"@[2] == 'n');
    assert("sort"@.len() == 4 && "sort"@[0] == 's' && "sort"@[1] == 'o' && "sort"@[2] == 'r');
    assert("alpha"@.len() == 5 && "alpha"@[0] == 'a' && "alpha"@[1] == 'l' && "alpha"@[2] == 'p');
    assert("desc"@.len() == 4 && "desc"@[0] == 'd' && "desc"@[1] == 'e' && "desc"@[2] == 's');
    assert("limit"@.len() == 5 && "limit"@[0] == 'l' && "limit"@[1] == 'i' && "limit"@[2] == 'm');
    assert("by"@.len() == 2 && "by"@[0] == 'b' && "by"@[1] == 'y');
    let ws = words(text);
    let tail = ws.skip(2);
    if ws.len() == 5 && ws[0] == "sort"@ && ws[2] == "limit"@ {
        assert(tail[0] == "limit"@);
        lemma_first_pos(tail, "limit"@, 0);
    }
    if ws.len() == 4 && ws[0] == "sort"@ && ws[2] == "alpha"@ && ws[3] == "desc"@ {
        assert(tail[0] == "alpha"@ && tail[1] == "desc"@);
        let e0 = Seq::<FlagForm>::empty();
        assert(sort_scan(tail, 0, e0) == sort_scan(tail, 1, e0.push(FlagForm::Alpha)));
        assert(sort_scan(tail, 1, e0.push(FlagForm::Alpha)) == sort_scan(
            tail,
            2,
            e0.push(FlagForm::Alpha).push(FlagForm::Desc),
        ));
        assert(sort_scan(tail, 2, seq![FlagForm::Alpha, FlagForm::Desc]) == Ok::<
            Seq<FlagForm>,
            SortEnd,
        >(seq![FlagForm::Alpha, FlagForm::Desc]));
        assert(Seq::<FlagForm>::empty().push(FlagForm::Alpha).push(FlagForm::Desc) =~= seq![
            FlagForm::Alpha,
            FlagForm::Desc,
        ]);
    }
    if ws.len() == 4 && ws[0] == "sort"@ && ws[2] == "desc"@ && ws[3] == "alpha"@ {
        assert(tail[0] == "desc"@ && tail[1] == "alpha"@);
        let e0 = Seq::<FlagForm>::empty();
        assert(sort_scan(tail, 0, e0) == sort_scan(tail, 1, e0.push(FlagForm::Desc)));
        assert(sort_scan(tail, 1, e0.push(FlagForm::Desc)) == sort_scan(
            tail,
            2,
            e0.push(FlagForm::Desc).push(FlagForm::Alpha),
        ));
        assert(sort_scan(tail, 2, e0.push(FlagForm::Desc).push(FlagForm::Alpha)) == Ok::<
            Seq<FlagForm>,
            SortEnd,
        >(e0.push(FlagForm::Desc).push(FlagForm::Alpha)));
        assert(Seq::<FlagForm>::empty().push(FlagForm::Desc).push(FlagForm::Alpha) =~= seq![
            FlagForm::Desc,
            FlagForm::Alpha,
        ]);
    }
}

} // verus!
