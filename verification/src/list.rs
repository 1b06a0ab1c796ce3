//! A recall list: the ordered collection of scheduled items for one
//! `(code, name)` pair, and the scheduling operations over it.
//!
//! The list runs on a virtual clock: the sum of every item's accept
//! count.  Each accept advances the clock by one tick, so progress is
//! strictly monotone and fully deterministic.  The item sequence is kept
//! non-decreasing in the `next` field as an operating invariant; the
//! insertion rule places a rescheduled item after every item that is due
//! no later, so equal priorities keep their relative order.

use crate::bytes::copy_bytes;
use crate::thing::spec_delay_time;
use crate::thing::spec_new_item;
use crate::thing::Thing;
use crate::thing::ThingV;
use crate::thing::TICK_SPAN;
use crate::time::Time;
use vstd::prelude::*;

verus! {

/// The items of a list, seen as their mathematical values.
pub open spec fn views(s: Seq<Thing>) -> Seq<ThingV> {
    s.map_values(|t: Thing| t@)
}

/// The virtual clock of a list: the sum of every item's accept count.
pub open spec fn sum_counts(s: Seq<ThingV>) -> int
    decreases s.len(),
{
    if s.len() == 0 {
        0
    } else {
        sum_counts(s.drop_last()) + s.last().count
    }
}

/// The operating sort invariant: items are non-decreasing in `next`.
pub open spec fn sorted_by_next(s: Seq<ThingV>) -> bool {
    forall|i: int, j: int| #![trigger s[i], s[j]] 0 <= i < j < s.len() ==> s[i].next <= s[j].next
}

/// Where a rescheduled item belongs: one past the last item whose `next`
/// does not exceed `x`, so equal priorities keep their relative order.
pub open spec fn ins_point(s: Seq<ThingV>, x: u64) -> int
    decreases s.len(),
{
    if s.len() == 0 {
        0
    } else if s.last().next <= x {
        s.len() as int
    } else {
        ins_point(s.drop_last(), x)
    }
}

/// The index of the last item carrying the given name, or -1 if no item
/// does.
pub open spec fn last_match(s: Seq<ThingV>, name: Seq<u8>) -> int
    decreases s.len(),
{
    if s.len() == 0 {
        -1
    } else if s.last().name == name {
        s.len() - 1
    } else {
        last_match(s.drop_last(), name)
    }
}

/// The machine-limit budget for one scheduling operation: the virtual
/// clock, the item count, and the accept timestamps all stay well inside
/// the tick span, so every blended interval fits its integer type.
pub open spec fn fits(s: Seq<ThingV>) -> bool {
    &&& sum_counts(s) + 2 <= TICK_SPAN
    &&& s.len() < TICK_SPAN
    &&& forall|i: int|
        0 <= i < s.len() ==> (#[trigger] s[i]).chosen <= TICK_SPAN && s[i].first_chosen
            <= TICK_SPAN
}

/// The virtual clock only adds nonnegative counts.
pub proof fn lemma_sum_counts_nonneg(s: Seq<ThingV>)
    ensures
        0 <= sum_counts(s),
    decreases s.len(),
{
    if s.len() > 0 {
        lemma_sum_counts_nonneg(s.drop_last());
    }
}

/// A prefix sum of counts never exceeds the whole sum.
pub proof fn lemma_sum_counts_prefix(s: Seq<ThingV>, i: int)
    requires
        0 <= i <= s.len(),
    ensures
        sum_counts(s.take(i)) <= sum_counts(s),
    decreases s.len() - i,
{
    if i == s.len() {
        assert(s.take(i) =~= s);
    } else {
        lemma_sum_counts_prefix(s, i + 1);
        assert(s.take(i + 1).drop_last() =~= s.take(i));
        assert(s.take(i + 1).last() == s[i]);
    }
}

/// No single count exceeds the virtual clock.
pub proof fn lemma_count_le_sum(s: Seq<ThingV>, i: int)
    requires
        0 <= i < s.len(),
    ensures
        s[i].count <= sum_counts(s),
    decreases s.len(),
{
    if i == s.len() - 1 {
        lemma_sum_counts_nonneg(s.drop_last());
    } else {
        lemma_count_le_sum(s.drop_last(), i);
    }
}

/// Removing an item takes exactly its count off the virtual clock.
pub proof fn lemma_sum_counts_remove(s: Seq<ThingV>, i: int)
    requires
        0 <= i < s.len(),
    ensures
        sum_counts(s.remove(i)) == sum_counts(s) - s[i].count,
    decreases s.len(),
{
    if i == s.len() - 1 {
        assert(s.remove(i) =~= s.drop_last());
    } else {
        lemma_sum_counts_remove(s.drop_last(), i);
        assert(s.remove(i).drop_last() =~= s.drop_last().remove(i));
        assert(s.remove(i).last() == s.last());
    }
}

/// Inserting an item adds exactly its count to the virtual clock.
pub proof fn lemma_sum_counts_insert(s: Seq<ThingV>, i: int, t: ThingV)
    requires
        0 <= i <= s.len(),
    ensures
        sum_counts(s.insert(i, t)) == sum_counts(s) + t.count,
    decreases s.len(),
{
    if i == s.len() {
        assert(s.insert(i, t).drop_last() =~= s);
        assert(s.insert(i, t).last() == t);
    } else {
        lemma_sum_counts_insert(s.drop_last(), i, t);
        assert(s.insert(i, t).drop_last() =~= s.drop_last().insert(i, t));
        assert(s.insert(i, t).last() == s.last());
    }
}

/// The insertion point lies in range, everything at or past it is due
/// strictly later than `x`, and the item just before it is not.
pub proof fn lemma_ins_point_props(s: Seq<ThingV>, x: u64)
    ensures
        0 <= ins_point(s, x) <= s.len(),
        forall|j: int| ins_point(s, x) <= j < s.len() ==> (#[trigger] s[j]).next > x,
        ins_point(s, x) > 0 ==> s[ins_point(s, x) - 1].next <= x,
    decreases s.len(),
{
    if s.len() > 0 && s.last().next > x {
        lemma_ins_point_props(s.drop_last(), x);
        let p = ins_point(s, x);
        assert forall|j: int| p <= j < s.len() implies (#[trigger] s[j]).next > x by {
            if j < s.len() - 1 {
                assert(s.drop_last()[j] == s[j]);
            }
        }
        if p > 0 {
            assert(s.drop_last()[p - 1] == s[p - 1]);
        }
    }
}

/// The index of the last name match lies in range, carries the name, and
/// nothing after it does.
pub proof fn lemma_last_match_props(s: Seq<ThingV>, name: Seq<u8>)
    ensures
        -1 <= last_match(s, name) < s.len(),
        last_match(s, name) >= 0 ==> s[last_match(s, name)].name == name,
        forall|j: int| last_match(s, name) < j < s.len() ==> (#[trigger] s[j]).name != name,
    decreases s.len(),
{
    if s.len() > 0 && s.last().name != name {
        lemma_last_match_props(s.drop_last(), name);
        let k = last_match(s, name);
        assert forall|j: int| k < j < s.len() implies (#[trigger] s[j]).name != name by {
            if j < s.len() - 1 {
                assert(s.drop_last()[j] == s[j]);
            }
        }
        if k >= 0 {
            assert(s.drop_last()[k] == s[k]);
        }
    }
}

/// Inserting an item at its insertion point keeps the list sorted.
pub proof fn lemma_insert_at_point_sorted(s: Seq<ThingV>, t: ThingV)
    requires
        sorted_by_next(s),
    ensures
        sorted_by_next(s.insert(ins_point(s, t.next), t)),
{
    let p = ins_point(s, t.next);
    lemma_ins_point_props(s, t.next);
    s.insert_ensures(p, t);
    let r = s.insert(p, t);
    assert forall|i: int| p < i < r.len() implies (#[trigger] r[i]) == s[i - 1] by {
        assert(r[(i - 1) + 1] == s[i - 1]);
    }
    // everything before the insertion point is due no later than the new
    // item, everything after it strictly later
    assert forall|i: int| 0 <= i < p implies (#[trigger] r[i]).next <= t.next by {
        if i < p - 1 {
            assert(s[i].next <= s[p - 1].next);
        }
    }
    assert forall|i: int| p < i < r.len() implies (#[trigger] r[i]).next > t.next by {}
    assert forall|i: int, j: int| #![trigger r[i], r[j]] 0 <= i < j < r.len() implies r[i].next
        <= r[j].next by {
        if j < p {
            assert(r[i] == s[i]);
            assert(r[j] == s[j]);
        } else if j == p {
            assert(r[j] == t);
        } else if i == p {
            assert(r[i] == t);
        } else if i > p {
            assert(r[i] == s[i - 1]);
            assert(r[j] == s[j - 1]);
        }
    }
}

/// Removing an item keeps the list sorted.
pub proof fn lemma_remove_sorted(s: Seq<ThingV>, k: int)
    requires
        sorted_by_next(s),
        0 <= k < s.len(),
    ensures
        sorted_by_next(s.remove(k)),
{
    s.remove_ensures(k);
    let r = s.remove(k);
    assert forall|i: int, j: int| #![trigger r[i], r[j]] 0 <= i < j < r.len() implies r[i].next
        <= r[j].next by {
        let i0 = if i < k {
            i
        } else {
            i + 1
        };
        let j0 = if j < k {
            j
        } else {
            j + 1
        };
        assert(r[i] == s[i0]);
        assert(r[j] == s[j0]);
    }
}

/// The rescheduled value of an accepted item: accepted once more, at the
/// virtual instant `now`, and next due `dt` ticks past it.
pub open spec fn spec_choose_update(t: ThingV, now: u64, dt: int) -> ThingV {
    ThingV {
        name: t.name,
        link: t.link,
        created: t.created,
        first_chosen: if t.count == 0 {
            now
        } else {
            t.first_chosen
        },
        chosen: now,
        next: (now + dt) as u64,
        count: (t.count + 1) as u64,
        parent_code: t.parent_code,
        parent_name: t.parent_name,
    }
}

/// What accepting the named item does to a list: an unknown name is first
/// created fresh; then the last item carrying the name is rescheduled to
/// `now + delay_time` and reinserted at its sorted position, where `now`
/// is the virtual clock advanced by one tick.
pub open spec fn spec_choose(
    s: Seq<ThingV>,
    which: Seq<u8>,
    code: Seq<u8>,
    list: Seq<u8>,
) -> Seq<ThingV> {
    let s1 = if last_match(s, which) >= 0 {
        s
    } else {
        s.push(spec_new_item(which, code, list, sum_counts(s) as u64))
    };
    let k = last_match(s1, which);
    let t = s1[k];
    let now = (sum_counts(s1) + 1) as u64;
    let dt = spec_delay_time(t, Time(now), Time(sum_counts(s1) as u64), s1.len() as u64);
    let u = spec_choose_update(t, now, dt);
    let rest = s1.remove(k);
    rest.insert(ins_point(rest, u.next), u)
}

/// The index of the first item carrying the given name, or -1 if no item
/// does.
pub open spec fn first_match(s: Seq<ThingV>, name: Seq<u8>) -> int
    decreases s.len(),
{
    if s.len() == 0 {
        -1
    } else if s.first().name == name {
        0
    } else {
        let r = first_match(s.drop_first(), name);
        if r < 0 {
            -1
        } else {
            r + 1
        }
    }
}

/// What editing an item does to a list: the first item carrying the name
/// (an unknown name is first created fresh, one tick past the virtual
/// clock) has its name replaced, and its link replaced when a non-empty
/// link is given; no scheduling field moves.
pub open spec fn spec_edit(
    s: Seq<ThingV>,
    which: Seq<u8>,
    newname: Seq<u8>,
    link: Seq<u8>,
    code: Seq<u8>,
    list: Seq<u8>,
) -> Seq<ThingV> {
    let s1 = if first_match(s, which) >= 0 {
        s
    } else {
        s.push(spec_new_item(which, code, list, (sum_counts(s) + 1) as u64))
    };
    let i = if first_match(s, which) >= 0 {
        first_match(s, which)
    } else {
        s.len() as int
    };
    let t = s1[i];
    s1.update(
        i,
        ThingV {
            name: newname,
            link: if link.len() > 0 {
                Option::Some(link)
            } else {
                t.link
            },
            created: t.created,
            first_chosen: t.first_chosen,
            chosen: t.chosen,
            next: t.next,
            count: t.count,
            parent_code: t.parent_code,
            parent_name: t.parent_name,
        },
    )
}

/// The manual re-rank order: primarily ascending accept count,
/// secondarily ascending last-accept instant.
pub open spec fn key_le(a: ThingV, b: ThingV) -> bool {
    a.count < b.count || (a.count == b.count && a.chosen <= b.chosen)
}

/// Where an item lands in the manual re-rank: one past the last item
/// whose key does not exceed its own, so equal keys keep their order.
pub open spec fn rank_point(s: Seq<ThingV>, t: ThingV) -> int
    decreases s.len(),
{
    if s.len() == 0 {
        0
    } else if key_le(s.last(), t) {
        s.len() as int
    } else {
        rank_point(s.drop_last(), t)
    }
}

/// The stable sort behind the manual re-rank: items in ascending
/// `(count, chosen)` order, equal keys in their original order.
pub open spec fn spec_sort(s: Seq<ThingV>) -> Seq<ThingV>
    decreases s.len(),
{
    if s.len() == 0 {
        s
    } else {
        let sd = spec_sort(s.drop_last());
        sd.insert(rank_point(sd, s.last()), s.last())
    }
}

/// The rank point lies in range.
pub proof fn lemma_rank_point_le_len(s: Seq<ThingV>, t: ThingV)
    ensures
        0 <= rank_point(s, t) <= s.len(),
    decreases s.len(),
{
    if s.len() > 0 && !key_le(s.last(), t) {
        lemma_rank_point_le_len(s.drop_last(), t);
    }
}

/// Sorting keeps the number of items.
pub proof fn lemma_spec_sort_len(s: Seq<ThingV>)
    ensures
        spec_sort(s).len() == s.len(),
    decreases s.len(),
{
    if s.len() > 0 {
        lemma_spec_sort_len(s.drop_last());
        lemma_rank_point_le_len(spec_sort(s.drop_last()), s.last());
    }
}

/// A re-ranked list: every item handed a fresh priority, consecutive
/// virtual instants starting at `now`.
pub open spec fn spec_renumber(s: Seq<ThingV>, now: int) -> Seq<ThingV> {
    Seq::new(
        s.len(),
        |i: int|
            ThingV {
                name: s[i].name,
                link: s[i].link,
                created: s[i].created,
                first_chosen: s[i].first_chosen,
                chosen: s[i].chosen,
                next: (now + i) as u64,
                count: s[i].count,
                parent_code: s[i].parent_code,
                parent_name: s[i].parent_name,
            },
    )
}

/// The items whose name contains the given pattern, in order.
pub open spec fn matching(s: Seq<ThingV>, pat: Seq<u8>) -> Seq<ThingV> {
    s.filter(|t: ThingV| crate::bytes::contains_bytes(t.name, pat))
}

/// What one displacement pass of a deferral does, under the jitter
/// factor `jit` (in per-mille): the last item carrying the name is
/// removed, its priority is pushed later by the jittered reschedule
/// distance taken over the remaining items (saturating at the numeric
/// ceiling), and the item is reinserted at its sorted position.
pub open spec fn spec_delay_pass(s: Seq<ThingV>, which: Seq<u8>, jit: u64) -> Seq<ThingV> {
    let k = last_match(s, which);
    let t = s[k];
    let rest = s.remove(k);
    let pass_sum = Time((sum_counts(s) - t.count) as u64);
    let dt = spec_delay_time(t, pass_sum, pass_sum, (s.len() - 1) as u64);
    let amount = dt * jit / 1000;
    let bumped = if t.next + amount <= u64::MAX {
        (t.next + amount) as u64
    } else {
        u64::MAX
    };
    let u = ThingV {
        name: t.name,
        link: t.link,
        created: t.created,
        first_chosen: t.first_chosen,
        chosen: t.chosen,
        next: bumped,
        count: t.count,
        parent_code: t.parent_code,
        parent_name: t.parent_name,
    };
    rest.insert(ins_point(rest, bumped), u)
}

/// An item with its priority blanked out: what a deferral may never
/// touch.
pub open spec fn erase_next(t: ThingV) -> ThingV {
    ThingV {
        name: t.name,
        link: t.link,
        created: t.created,
        first_chosen: t.first_chosen,
        chosen: t.chosen,
        next: 0,
        count: t.count,
        parent_code: t.parent_code,
        parent_name: t.parent_name,
    }
}

/// A list with every priority blanked out.
pub open spec fn erased(s: Seq<ThingV>) -> Seq<ThingV> {
    s.map_values(|t: ThingV| erase_next(t))
}

/// The items of a list that do not carry the given name, in order.
pub open spec fn others(s: Seq<ThingV>, name: Seq<u8>) -> Seq<ThingV> {
    s.filter(|t: ThingV| t.name != name)
}

/// Filtering ignores a pushed element the predicate rejects.
proof fn lemma_filter_push_false(s: Seq<ThingV>, t: ThingV, pred: spec_fn(ThingV) -> bool)
    requires
        !pred(t),
    ensures
        s.push(t).filter(pred) == s.filter(pred),
{
    reveal(Seq::filter);
    assert(s.push(t).drop_last() =~= s);
    assert(s.push(t).last() == t);
}

/// Filtering ignores an inserted element the predicate rejects.
proof fn lemma_filter_insert_false(
    s: Seq<ThingV>,
    p: int,
    t: ThingV,
    pred: spec_fn(ThingV) -> bool,
)
    requires
        0 <= p <= s.len(),
        !pred(t),
    ensures
        s.insert(p, t).filter(pred) == s.filter(pred),
{
    let a = s.subrange(0, p);
    let b = s.subrange(p, s.len() as int);
    Seq::filter_distributes_over_add(a.push(t), b, pred);
    lemma_filter_push_false(a, t, pred);
    Seq::filter_distributes_over_add(a, b, pred);
    assert(a + b =~= s);
}

/// Filtering ignores the removal of an element the predicate rejects.
proof fn lemma_filter_remove_false(s: Seq<ThingV>, k: int, pred: spec_fn(ThingV) -> bool)
    requires
        0 <= k < s.len(),
        !pred(s[k]),
    ensures
        s.remove(k).filter(pred) == s.filter(pred),
{
    let a = s.subrange(0, k);
    let b = s.subrange(k + 1, s.len() as int);
    Seq::filter_distributes_over_add(a, b, pred);
    assert(s =~= a.push(s[k]) + b);
    Seq::filter_distributes_over_add(a.push(s[k]), b, pred);
    lemma_filter_push_false(a, s[k], pred);
}

/// Removing an item carrying the given name leaves the other-named items
/// untouched.
pub proof fn lemma_others_remove(s: Seq<ThingV>, k: int, name: Seq<u8>)
    requires
        0 <= k < s.len(),
        s[k].name == name,
    ensures
        others(s.remove(k), name) == others(s, name),
{
    lemma_filter_remove_false(s, k, |t: ThingV| t.name != name);
}

/// Inserting an item carrying the given name leaves the other-named items
/// untouched.
pub proof fn lemma_others_insert(s: Seq<ThingV>, p: int, t: ThingV, name: Seq<u8>)
    requires
        0 <= p <= s.len(),
        t.name == name,
    ensures
        others(s.insert(p, t), name) == others(s, name),
{
    lemma_filter_insert_false(s, p, t, |t2: ThingV| t2.name != name);
}

/// Inserting an element anywhere adds exactly one occurrence of it to the
/// multiset of the sequence.
pub proof fn lemma_to_multiset_insert(s: Seq<ThingV>, p: int, t: ThingV)
    requires
        0 <= p <= s.len(),
    ensures
        s.insert(p, t).to_multiset() =~= s.to_multiset().insert(t),
{
    broadcast use vstd::multiset::group_multiset_axioms;

    let r = s.insert(p, t);
    r.to_multiset_ensures();
    s.to_multiset_ensures();
    s.insert_ensures(p, t);
    assert(r.remove(p) =~= s);
    assert(r.to_multiset().remove(t) =~= s.to_multiset());
    assert(r.contains(t));
    assert(r.to_multiset().count(t) > 0);
    assert forall|v: ThingV| #[trigger]
        r.to_multiset().count(v) == s.to_multiset().insert(t).count(v) by {
        if v == t {
            assert(s.to_multiset().count(t) == r.to_multiset().count(t) - 1);
        } else {
            assert(s.to_multiset().count(v) == r.to_multiset().count(v));
        }
    }
}

/// No earlier index matching means a match is the first one.
proof fn lemma_first_match_at(s: Seq<ThingV>, name: Seq<u8>, i: int)
    requires
        0 <= i < s.len(),
        s[i].name == name,
        forall|j: int| 0 <= j < i ==> (#[trigger] s[j]).name != name,
    ensures
        first_match(s, name) == i,
    decreases i,
{
    if i > 0 {
        assert(s[0].name != name);
        assert forall|j: int| 0 <= j < i - 1 implies (#[trigger] s.drop_first()[j]).name
            != name by {
            assert(s.drop_first()[j] == s[j + 1]);
        }
        assert(s.drop_first()[i - 1] == s[i]);
        lemma_first_match_at(s.drop_first(), name, i - 1);
    }
}

/// No index matching means no first match.
proof fn lemma_first_match_none(s: Seq<ThingV>, name: Seq<u8>)
    requires
        forall|j: int| 0 <= j < s.len() ==> (#[trigger] s[j]).name != name,
    ensures
        first_match(s, name) == -1,
    decreases s.len(),
{
    if s.len() > 0 {
        assert forall|j: int| 0 <= j < s.drop_first().len() implies (
        #[trigger] s.drop_first()[j]).name != name by {
            assert(s.drop_first()[j] == s[j + 1]);
        }
        lemma_first_match_none(s.drop_first(), name);
    }
}

/// The index of the first item named `which`, found by a forward scan.
fn find_first(things: &Vec<Thing>, which: &[u8]) -> (r: Option<usize>)
    ensures
        match r {
            Option::Some(k) => (k as int) < views(things@).len() && first_match(
                views(things@),
                which@,
            ) == k as int,
            Option::None => first_match(views(things@), which@) == -1,
        },
{
    let ghost sv = views(things@);
    let n: usize = things.len();
    let mut i: usize = 0;
    while i < n
        invariant
            sv == views(things@),
            n == sv.len(),
            0 <= i <= n,
            forall|j: int| 0 <= j < i ==> (#[trigger] sv[j]).name != which@,
        decreases n - i,
    {
        if crate::bytes::bytes_eq(things[i].name.as_slice(), which) {
            proof {
                lemma_first_match_at(sv, which@, i as int);
            }
            return Option::Some(i);
        }
        i += 1;
    }
    proof {
        lemma_first_match_none(sv, which@);
    }
    Option::None
}

/// The index of the last item named `which`, found by a forward scan.
fn find_last(things: &Vec<Thing>, which: &[u8]) -> (r: Option<usize>)
    ensures
        match r {
            Option::Some(k) => (k as int) < views(things@).len() && last_match(
                views(things@),
                which@,
            ) == k as int,
            Option::None => last_match(views(things@), which@) == -1,
        },
{
    let ghost sv = views(things@);
    let n: usize = things.len();
    let mut found = false;
    let mut k: usize = 0;
    let mut i: usize = 0;
    while i < n
        invariant
            sv == views(things@),
            n == sv.len(),
            0 <= i <= n,
            found ==> k < i && last_match(sv.take(i as int), which@) == k as int,
            !found ==> last_match(sv.take(i as int), which@) == -1,
        decreases n - i,
    {
        if crate::bytes::bytes_eq(things[i].name.as_slice(), which) {
            found = true;
            k = i;
        }
        proof {
            assert(sv.take(i + 1).drop_last() =~= sv.take(i as int));
            assert(sv.take(i + 1).last() == sv[i as int]);
        }
        i += 1;
    }
    proof {
        assert(sv.take(n as int) =~= sv);
    }
    if found {
        Option::Some(k)
    } else {
        Option::None
    }
}

/// The mathematical value of a recall list: its identity and its items.
#[verifier::ext_equal]
pub ghost struct ListV {
    pub code: Seq<u8>,
    pub name: Seq<u8>,
    pub things: Seq<ThingV>,
}

/// A named, ordered collection of scheduled items within a code.
#[derive(Debug)]
pub struct ThingList {
    pub code: Vec<u8>,
    pub name: Vec<u8>,
    pub things: Vec<Thing>,
}

impl View for ThingList {
    type V = ListV;

    open spec fn view(&self) -> ListV {
        ListV { code: self.code@, name: self.name@, things: views(self.things@) }
    }
}

impl ThingList {
    /// The virtual clock: the sum of every item's accept count.
    pub fn now(&self) -> (r: Time)
        requires
            sum_counts(self@.things) <= u64::MAX as int,
        ensures
            r.0 == sum_counts(self@.things),
    {
        let ghost sv = self@.things;
        let n: usize = self.things.len();
        let mut sum: u64 = 0;
        let mut i: usize = 0;
        while i < n
            invariant
                sv == self@.things,
                sum_counts(sv) <= u64::MAX as int,
                n == sv.len(),
                0 <= i <= n,
                sum == sum_counts(sv.take(i as int)),
            decreases n - i,
        {
            proof {
                lemma_sum_counts_prefix(sv, i + 1);
                lemma_sum_counts_nonneg(sv.take(i as int));
                assert(sv.take(i + 1).drop_last() =~= sv.take(i as int));
                assert(sv.take(i + 1).last() == sv[i as int]);
            }
            sum = sum + self.things[i].count;
            i += 1;
        }
        proof {
            assert(sv.take(n as int) =~= sv);
        }
        Time(sum)
    }

    /// The list-wide mean interval: the smoothed average spacing
    /// `(now + 1) / (len + 1)`, rounded up so it is never zero.
    pub fn mean_interval(&self) -> (r: Time)
        requires
            fits(self@.things),
        ensures
            r.0 == crate::thing::spec_list_interval(
                sum_counts(self@.things),
                self@.things.len() as int,
            ),
    {
        let sum = self.now();
        let len: u64 = self.things.len() as u64;
        Time((sum.0 + 1 + len) / (len + 1))
    }

    /// Appends a fresh item carrying the given name, created at the
    /// current virtual instant, with the list's own identity denormalized
    /// into it.  The caller persists the list afterwards.
    pub fn create(&mut self, name: &[u8])
        requires
            fits(old(self)@.things),
        ensures
            final(self)@.things == old(self)@.things.push(
                spec_new_item(
                    name@,
                    old(self)@.code,
                    old(self)@.name,
                    sum_counts(old(self)@.things) as u64,
                ),
            ),
            final(self)@.code == old(self)@.code,
            final(self)@.name == old(self)@.name,
    {
        proof {
            lemma_sum_counts_nonneg(self@.things);
        }
        let now = self.now();
        let t = Thing {
            name: copy_bytes(name),
            link: Option::None,
            created: now,
            first_chosen: now,
            chosen: now,
            next: now,
            count: 0,
            parent_code: copy_bytes(self.code.as_slice()),
            parent_name: copy_bytes(self.name.as_slice()),
        };
        self.things.push(t);
        proof {
            assert(self@.things =~= old(self)@.things.push(
                spec_new_item(
                    name@,
                    old(self)@.code,
                    old(self)@.name,
                    sum_counts(old(self)@.things) as u64,
                ),
            ));
        }
    }
    /// Accepts ("chooses") the named item: advances the virtual clock one
    /// tick, reschedules the item by the blend of its timing signals, and
    /// reinserts it at its sorted position.  An unknown name is created
    /// fresh and then accepted, so the accept never misfires.  The caller
    /// persists the list afterwards.
    #[verifier::rlimit(100)]
    pub fn accept(&mut self, which: &[u8])
        requires
            fits(old(self)@.things),
        ensures
            final(self)@.things == spec_choose(
                old(self)@.things,
                which@,
                old(self)@.code,
                old(self)@.name,
            ),
            final(self)@.code == old(self)@.code,
            final(self)@.name == old(self)@.name,
            sorted_by_next(old(self)@.things) ==> sorted_by_next(final(self)@.things),
    {
        let ghost s0 = old(self)@.things;
        proof {
            lemma_sum_counts_nonneg(s0);
            lemma_last_match_props(s0, which@);
        }
        let k: usize = match find_last(&self.things, which) {
            Option::Some(k0) => k0,
            Option::None => {
                self.create(which);
                proof {
                    assert(self@.things.len() == s0.len() + 1);
                    assert(self.things@.len() == self@.things.len());
                }
                self.things.len() - 1
            },
        };
        let ghost s1 = self@.things;
        proof {
            if last_match(s0, which@) < 0 {
                // the pushed item is last and carries the name
                assert(s1.last() == spec_new_item(
                    which@,
                    old(self)@.code,
                    old(self)@.name,
                    sum_counts(s0) as u64,
                ));
                assert(last_match(s1, which@) == s1.len() - 1);
                assert(s1.drop_last() =~= s0);
                assert(sum_counts(s1) == sum_counts(s0));
            }
            assert(k as int == last_match(s1, which@));
            lemma_count_le_sum(s1, k as int);
            lemma_sum_counts_nonneg(s1);
        }
        let sum = self.now();
        let now = Time(sum.0 + 1);
        let len_u: u64 = self.things.len() as u64;
        let dt = self.things[k].delay_time(now, sum, len_u);
        let ghost v1 = self.things@;
        let mut t = self.things.remove(k);
        t.chosen = now;
        if t.count == 0 {
            t.first_chosen = now;
        }
        t.count = t.count + 1;
        t.next = Time(now.0 + dt.0);
        let ghost rest = s1.remove(k as int);
        proof {
            s1.remove_ensures(k as int);
            v1.remove_ensures(k as int);
            assert(views(self.things@) =~= rest);
            assert(t@ =~= spec_choose_update(
                s1[k as int],
                now.0,
                spec_delay_time(s1[k as int], now, sum, len_u),
            ));
        }
        let x: u64 = t.next.0;
        let n2: usize = self.things.len();
        let mut place: usize = 0;
        let mut i: usize = 0;
        while i < n2
            invariant
                rest == views(self.things@),
                n2 == rest.len(),
                0 <= i <= n2,
                place <= i,
                place as int == ins_point(rest.take(i as int), x),
                x == t@.next,
            decreases n2 - i,
        {
            proof {
                assert(rest.take(i + 1).drop_last() =~= rest.take(i as int));
                assert(rest.take(i + 1).last() == rest[i as int]);
            }
            if self.things[i].next.0 <= x {
                place = i + 1;
            }
            i += 1;
        }
        proof {
            assert(rest.take(n2 as int) =~= rest);
            lemma_ins_point_props(rest, x);
        }
        self.things.insert(place, t);
        proof {
            rest.insert_ensures(place as int, t@);
            assert(views(self.things@) =~= rest.insert(place as int, t@));
            assert(views(self.things@) =~= spec_choose(
                s0,
                which@,
                old(self)@.code,
                old(self)@.name,
            ));
            if sorted_by_next(s0) {
                if last_match(s0, which@) >= 0 {
                    lemma_remove_sorted(s0, k as int);
                } else {
                    assert(rest =~= s0);
                }
                lemma_insert_at_point_sorted(rest, t@);
            }
        }
    }
    /// Defers the last item carrying the given name: pushes its `next`
    /// later by the jittered reschedule distance and reinserts it at its
    /// sorted position — exactly one such displacement, for some jitter
    /// factor in [0.1, 1.0).  The displacement would repeat while the
    /// original slot still held a matching item with forward progress
    /// made, but one pass either makes no progress or hands the slot to
    /// the next, differently-named item, so one pass is all that ever
    /// runs.  Deferring an unknown name, or the item already last in
    /// priority order, changes nothing.  A deferral never touches any
    /// field but `next`, and never touches items with other names at all.
    /// The caller persists the list afterwards.
    pub fn delay(&mut self, which: &[u8])
        requires
            fits(old(self)@.things),
        ensures
            final(self)@.code == old(self)@.code,
            final(self)@.name == old(self)@.name,
            final(self)@.things.len() == old(self)@.things.len(),
            sum_counts(final(self)@.things) == sum_counts(old(self)@.things),
            erased(final(self)@.things).to_multiset() == erased(old(self)@.things).to_multiset(),
            others(final(self)@.things, which@) == others(old(self)@.things, which@),
            sorted_by_next(old(self)@.things) ==> sorted_by_next(final(self)@.things),
            last_match(old(self)@.things, which@) < 0 ==> final(self)@.things == old(self)@.things,
            last_match(old(self)@.things, which@) == old(self)@.things.len() - 1
                ==> final(self)@.things == old(self)@.things,
            (last_match(old(self)@.things, which@) >= 0 && last_match(old(self)@.things, which@)
                < old(self)@.things.len() - 1) ==> exists|jit: u64|
                100 <= jit < 1000 && final(self)@.things == #[trigger] spec_delay_pass(
                    old(self)@.things,
                    which@,
                    jit,
                ),
    {
        let ghost s0 = old(self)@.things;
        proof {
            lemma_last_match_props(s0, which@);
        }
        let k: usize = match find_last(&self.things, which) {
            Option::Some(k0) => k0,
            Option::None => {
                return ;
            },
        };
        proof {
            assert(k < self.things@.len());
        }
        if k == self.things.len() - 1 {
            // already last: nothing further in the list to overtake
            return ;
        }
        let total = self.now();
        let mut fuel: usize = self.things.len();
        let ghost mut passes: int = 0;
        let ghost mut jit_used: u64 = 0;
        loop
            invariant_except_break
                passes == 1 ==> self@.things[k as int].name != which@,
            invariant
                self@.code == old(self)@.code,
                self@.name == old(self)@.name,
                self@.things.len() == s0.len(),
                0 <= k,
                k as int == last_match(s0, which@),
                (k as int) < s0.len() - 1,
                sum_counts(s0) + 2 <= TICK_SPAN,
                s0.len() < TICK_SPAN,
                total.0 == sum_counts(self@.things),
                sum_counts(self@.things) == sum_counts(s0),
                forall|i: int|
                    0 <= i < self@.things.len() ==> (#[trigger] self@.things[i]).chosen
                        <= TICK_SPAN && self@.things[i].first_chosen <= TICK_SPAN,
                erased(self@.things).to_multiset() == erased(s0).to_multiset(),
                others(self@.things, which@) == others(s0, which@),
                sorted_by_next(s0) ==> sorted_by_next(self@.things),
                0 <= passes <= 1,
                fuel as int == s0.len() - passes,
                passes == 0 ==> self@.things == s0,
                passes == 1 ==> 100 <= jit_used < 1000 && self@.things == spec_delay_pass(
                    s0,
                    which@,
                    jit_used,
                ),
            ensures
                self@.code == old(self)@.code,
                self@.name == old(self)@.name,
                self@.things.len() == s0.len(),
                sum_counts(self@.things) == sum_counts(s0),
                erased(self@.things).to_multiset() == erased(s0).to_multiset(),
                others(self@.things, which@) == others(s0, which@),
                sorted_by_next(s0) ==> sorted_by_next(self@.things),
                passes == 1 && 100 <= jit_used < 1000,
                self@.things == spec_delay_pass(s0, which@, jit_used),
            decreases fuel,
        {
            if fuel == 0 {
                break ;
            }
            if !crate::bytes::bytes_eq(self.things[k].name.as_slice(), which) {
                proof {
                    if passes == 0 {
                        // the last match is still in place on entry, so the
                        // first pass always runs
                        lemma_last_match_props(s0, which@);
                        assert(self@.things[k as int] == self.things@[k as int]@);
                        assert(false);
                    }
                }
                break ;
            }
            proof {
                if passes == 1 {
                    // a finished pass leaves a non-matching item in the
                    // original slot, so a second pass never runs
                    assert(self@.things[k as int] == self.things@[k as int]@);
                    assert(false);
                }
            }
            let ghost c1 = self@.things;
            let ghost v1 = self.things@;
            let mut t = self.things.remove(k);
            let ghost t0 = t@;
            proof {
                c1.remove_ensures(k as int);
                v1.remove_ensures(k as int);
                lemma_sum_counts_remove(c1, k as int);
                lemma_count_le_sum(c1, k as int);
                lemma_sum_counts_nonneg(c1.remove(k as int));
                assert(views(self.things@) =~= c1.remove(k as int));
            }
            let pass_sum = Time(total.0 - t.count);
            let pass_len: u64 = self.things.len() as u64;
            let dt = t.delay_time(pass_sum, pass_sum, pass_len);
            let jit = crate::jitter::jitter_permille();
            proof {
                assert(dt.0 as int * jit as int <= (TICK_SPAN as int + 1) * 999)
                    by (nonlinear_arith)
                    requires
                        dt.0 as int <= TICK_SPAN as int + 1,
                        0 <= jit <= 999,
                        0 <= dt.0,
                ;
            }
            let amount: u64 = dt.0 * jit / 1000;
            let bumped: u64 = if t.next.0 <= u64::MAX - amount {
                t.next.0 + amount
            } else {
                u64::MAX
            };
            t.next = Time(bumped);
            let ghost rest = c1.remove(k as int);
            let x: u64 = t.next.0;
            let n2: usize = self.things.len();
            let mut place: usize = 0;
            let mut i: usize = 0;
            while i < n2
                invariant
                    rest == views(self.things@),
                    n2 == rest.len(),
                    0 <= i <= n2,
                    place <= i,
                    place as int == ins_point(rest.take(i as int), x),
                    x == t@.next,
                decreases n2 - i,
            {
                proof {
                    assert(rest.take(i + 1).drop_last() =~= rest.take(i as int));
                    assert(rest.take(i + 1).last() == rest[i as int]);
                }
                if self.things[i].next.0 <= x {
                    place = i + 1;
                }
                i += 1;
            }
            proof {
                assert(rest.take(n2 as int) =~= rest);
                lemma_ins_point_props(rest, x);
            }
            self.things.insert(place, t);
            proof {
                rest.insert_ensures(place as int, t@);
                assert(views(self.things@) =~= rest.insert(place as int, t@));
                let cur = self@.things;
                // the virtual clock is untouched
                lemma_sum_counts_insert(rest, place as int, t@);
                // priorities aside, the multiset of items is untouched
                assert(erased(rest) =~= erased(c1).remove(k as int));
                assert(erased(cur) =~= erased(rest).insert(place as int, erase_next(t@)));
                erased(c1).to_multiset_ensures();
                lemma_to_multiset_insert(erased(rest), place as int, erase_next(t@));
                assert(erase_next(t@) == erased(c1)[k as int]);
                assert(erased(c1).contains(erased(c1)[k as int]));
                broadcast use vstd::multiset::group_multiset_axioms;

                assert(erased(cur).to_multiset() =~= erased(c1).to_multiset());
                // items with other names are untouched
                assert(c1[k as int].name == which@);
                lemma_others_remove(c1, k as int, which@);
                lemma_others_insert(rest, place as int, t@, which@);
                assert(others(cur, which@) == others(c1, which@));
                // timestamps keep their budget
                assert(forall|i2: int|
                    0 <= i2 < cur.len() ==> (#[trigger] cur[i2]).chosen <= TICK_SPAN
                        && cur[i2].first_chosen <= TICK_SPAN);
                if sorted_by_next(s0) {
                    lemma_remove_sorted(c1, k as int);
                    lemma_insert_at_point_sorted(rest, t@);
                }
                // this was the single displacement pass
                assert(t0 == s0[k as int]);
                assert(pass_sum.0 == (sum_counts(s0) - s0[k as int].count) as u64);
                assert(t@ =~= ThingV {
                    name: t0.name,
                    link: t0.link,
                    created: t0.created,
                    first_chosen: t0.first_chosen,
                    chosen: t0.chosen,
                    next: bumped,
                    count: t0.count,
                    parent_code: t0.parent_code,
                    parent_name: t0.parent_name,
                });
                assert(views(self.things@) =~= spec_delay_pass(s0, which@, jit));
                jit_used = jit;
                passes = passes + 1;
            }
            fuel -= 1;
            if place <= k {
                // no forward progress: stop rather than loop in place
                break ;
            }
            proof {
                // the item moved forward, so the original slot now holds
                // what followed the last match, which carries another name
                lemma_last_match_props(s0, which@);
                assert(self@.things[k as int] == rest[k as int]);
                assert(rest[k as int] == s0[k as int + 1]);
            }
        }
        proof {
            assert(final(self)@.things == spec_delay_pass(s0, which@, jit_used));
        }
    }
    /// Finds the first item carrying the given name and returns its
    /// index, creating the item fresh (one tick past the virtual clock)
    /// when no item carries the name.  Scheduling fields never move.
    pub fn edit(&mut self, which: &[u8]) -> (idx: usize)
        requires
            fits(old(self)@.things),
        ensures
            final(self)@.code == old(self)@.code,
            final(self)@.name == old(self)@.name,
            (idx as int) < final(self)@.things.len(),
            first_match(old(self)@.things, which@) >= 0 ==> final(self)@.things == old(
                self,
            )@.things && idx as int == first_match(old(self)@.things, which@),
            first_match(old(self)@.things, which@) < 0 ==> final(self)@.things == old(
                self,
            )@.things.push(
                spec_new_item(
                    which@,
                    old(self)@.code,
                    old(self)@.name,
                    (sum_counts(old(self)@.things) + 1) as u64,
                ),
            ) && idx as int == old(self)@.things.len(),
    {
        let ghost s0 = old(self)@.things;
        match find_first(&self.things, which) {
            Option::Some(k) => k,
            Option::None => {
                proof {
                    lemma_sum_counts_nonneg(s0);
                }
                let sum = self.now();
                let now = Time(sum.0 + 1);
                let t = Thing {
                    name: copy_bytes(which),
                    link: Option::None,
                    created: now,
                    first_chosen: now,
                    chosen: now,
                    next: now,
                    count: 0,
                    parent_code: copy_bytes(self.code.as_slice()),
                    parent_name: copy_bytes(self.name.as_slice()),
                };
                self.things.push(t);
                proof {
                    assert(self@.things =~= s0.push(
                        spec_new_item(
                            which@,
                            old(self)@.code,
                            old(self)@.name,
                            (sum_counts(s0) + 1) as u64,
                        ),
                    ));
                }
                self.things.len() - 1
            },
        }
    }
    /// Manually re-ranks the whole list: reorders the items primarily by
    /// ascending accept count, secondarily by ascending last-accept
    /// instant (equal keys keep their order), and hands out fresh
    /// priorities as consecutive virtual instants.  The caller persists
    /// the result.
    pub fn sorted(self) -> (r: ThingList)
        requires
            fits(self@.things),
        ensures
            r@.things == spec_renumber(spec_sort(self@.things), sum_counts(self@.things)),
            r@.code == self@.code,
            r@.name == self@.name,
            sorted_by_next(r@.things),
    {
        let ghost s0 = self@.things;
        let sum = self.now();
        let ThingList { code, name, things } = self;
        let mut rem = things;
        let ghost v0 = rem@;
        let mut acc: Vec<Thing> = Vec::new();
        proof {
            assert(s0 == views(v0));
        }
        while rem.len() > 0
            invariant
                s0 == views(v0),
                rem@.len() <= v0.len(),
                rem@ =~= v0.skip(v0.len() - rem@.len()),
                views(acc@) == spec_sort(s0.take(v0.len() - rem@.len())),
            decreases rem@.len(),
        {
            let ghost i = v0.len() - rem@.len();
            let t = rem.remove(0);
            proof {
                assert(t == v0[i as int]);
                assert(rem@ =~= v0.skip(i + 1));
                assert(s0.take(i + 1).drop_last() =~= s0.take(i as int));
                assert(s0.take(i + 1).last() == s0[i as int]);
                lemma_spec_sort_len(s0.take(i as int));
                lemma_rank_point_le_len(views(acc@), t@);
            }
            let ghost sorted_acc = views(acc@);
            let x_count: u64 = t.count;
            let x_chosen: u64 = t.chosen.0;
            let n2: usize = acc.len();
            let mut place: usize = 0;
            let mut i2: usize = 0;
            while i2 < n2
                invariant
                    sorted_acc == views(acc@),
                    n2 == sorted_acc.len(),
                    0 <= i2 <= n2,
                    place <= i2,
                    x_count == t@.count,
                    x_chosen == t@.chosen,
                    place as int == rank_point(sorted_acc.take(i2 as int), t@),
                decreases n2 - i2,
            {
                proof {
                    assert(sorted_acc.take(i2 + 1).drop_last() =~= sorted_acc.take(i2 as int));
                    assert(sorted_acc.take(i2 + 1).last() == sorted_acc[i2 as int]);
                }
                let e_count: u64 = acc[i2].count;
                let e_chosen: u64 = acc[i2].chosen.0;
                if e_count < x_count || (e_count == x_count && e_chosen <= x_chosen) {
                    place = i2 + 1;
                }
                i2 += 1;
            }
            proof {
                assert(sorted_acc.take(n2 as int) =~= sorted_acc);
                lemma_rank_point_le_len(sorted_acc, t@);
            }
            let ghost va = acc@;
            acc.insert(place, t);
            proof {
                va.insert_ensures(place as int, t);
                sorted_acc.insert_ensures(place as int, t@);
                assert(views(acc@) =~= sorted_acc.insert(place as int, t@));
                assert(views(acc@) == spec_sort(s0.take(i + 1)));
            }
        }
        proof {
            assert(s0.take(v0.len() as int) =~= s0);
            lemma_spec_sort_len(s0);
        }
        let ghost sorted_all = views(acc@);
        let n3: usize = acc.len();
        let mut j: usize = 0;
        while j < n3
            invariant
                n3 == acc@.len(),
                n3 == sorted_all.len(),
                n3 == s0.len(),
                0 <= j <= n3,
                sum.0 == sum_counts(s0),
                sum_counts(s0) + 2 <= TICK_SPAN,
                s0.len() < TICK_SPAN,
                forall|l: int|
                    j <= l < n3 ==> views(acc@)[l] == (#[trigger] sorted_all[l]),
                forall|l: int|
                    0 <= l < j ==> views(acc@)[l] == (#[trigger] spec_renumber(
                        sorted_all,
                        sum.0 as int,
                    )[l]),
            decreases n3 - j,
        {
            let ghost va = acc@;
            let mut t = acc.remove(j);
            t.next = Time(sum.0 + j as u64);
            acc.insert(j, t);
            proof {
                va.remove_ensures(j as int);
                va.remove(j as int).insert_ensures(j as int, t);
                assert forall|l: int| 0 <= l < n3 && l != j implies views(acc@)[l] == views(va)[l]
                    by {
                    if l < j {
                        assert(va.remove(j as int)[l] == va[l]);
                        assert(va.remove(j as int).insert(j as int, t)[l] == va.remove(
                            j as int,
                        )[l]);
                    } else {
                        assert(va.remove(j as int)[l - 1] == va[l]);
                        assert(va.remove(j as int).insert(j as int, t)[(l - 1) + 1] == va.remove(
                            j as int,
                        )[l - 1]);
                    }
                }
                assert(views(acc@)[j as int] == t@);
            }
            j += 1;
        }
        proof {
            assert(views(acc@) =~= spec_renumber(sorted_all, sum.0 as int));
            assert forall|i4: int, j4: int|
                #![trigger views(acc@)[i4], views(acc@)[j4]]
                0 <= i4 < j4 < views(acc@).len() implies views(acc@)[i4].next <= views(
                acc@,
            )[j4].next by {
                assert(views(acc@)[i4].next == (sum.0 + i4) as u64);
                assert(views(acc@)[j4].next == (sum.0 + j4) as u64);
            }
        }
        ThingList { code, name, things: acc }
    }

    /// Keeps only the items whose name contains the given byte pattern
    /// (case-sensitive, exact substring); never persisted by itself.
    pub fn filter(self, pattern: &[u8]) -> (r: ThingList)
        ensures
            r@.things == matching(self@.things, pattern@),
            r@.code == self@.code,
            r@.name == self@.name,
    {
        let ghost s0 = self@.things;
        let ThingList { code, name, things } = self;
        let mut rem = things;
        let ghost v0 = rem@;
        let mut acc: Vec<Thing> = Vec::new();
        proof {
            reveal(Seq::filter);
            assert(s0 == views(v0));
            assert(s0.take(0) =~= Seq::<ThingV>::empty());
        }
        while rem.len() > 0
            invariant
                s0 == views(v0),
                rem@.len() <= v0.len(),
                rem@ =~= v0.skip(v0.len() - rem@.len()),
                views(acc@) == matching(s0.take(v0.len() - rem@.len()), pattern@),
            decreases rem@.len(),
        {
            let ghost i = v0.len() - rem@.len();
            let t = rem.remove(0);
            proof {
                assert(t == v0[i as int]);
                assert(rem@ =~= v0.skip(i + 1));
            }
            let keep = crate::bytes::contains_sub(t.name.as_slice(), pattern);
            let ghost va = acc@;
            if keep {
                acc.push(t);
            }
            proof {
                reveal(Seq::filter);
                assert(s0.take(i + 1).drop_last() =~= s0.take(i as int));
                assert(s0.take(i + 1).last() == s0[i as int]);
                if keep {
                    assert(views(acc@) =~= views(va).push(t@));
                }
                assert(views(acc@) == matching(s0.take(i + 1), pattern@));
            }
        }
        proof {
            assert(s0.take(v0.len() as int) =~= s0);
        }
        ThingList { code, name, things: acc }
    }
}

/// The payload of a "new item" request: which list, and the name to add.
pub struct NewThing {
    pub code: Vec<u8>,
    pub name: Vec<u8>,
    pub list: Vec<u8>,
}

impl NewThing {
    /// Appends the named fresh item to the given list, created at the
    /// current virtual instant; the caller loads the list beforehand and
    /// persists it afterwards.
    pub fn save(&self, list: &mut ThingList)
        requires
            fits(old(list)@.things),
        ensures
            final(list)@.things == old(list)@.things.push(
                spec_new_item(
                    self.name@,
                    self.code@,
                    self.list@,
                    sum_counts(old(list)@.things) as u64,
                ),
            ),
            final(list)@.code == old(list)@.code,
            final(list)@.name == old(list)@.name,
    {
        proof {
            lemma_sum_counts_nonneg(list@.things);
        }
        let now = list.now();
        let t = Thing {
            name: copy_bytes(self.name.as_slice()),
            link: Option::None,
            created: now,
            first_chosen: now,
            chosen: now,
            next: now,
            count: 0,
            parent_code: copy_bytes(self.code.as_slice()),
            parent_name: copy_bytes(self.list.as_slice()),
        };
        list.things.push(t);
        proof {
            assert(list@.things =~= old(list)@.things.push(
                spec_new_item(
                    self.name@,
                    self.code@,
                    self.list@,
                    sum_counts(old(list)@.things) as u64,
                ),
            ));
        }
    }
}

/// The payload of an "edit item" request: which item, its new name, and
/// an optional new link (an empty link field means "leave the link").
pub struct EditThing {
    pub code: Vec<u8>,
    pub name: Vec<u8>,
    pub list: Vec<u8>,
    pub link: Vec<u8>,
    pub newname: Vec<u8>,
}

impl EditThing {
    /// Renames the first item carrying the old name (creating it fresh if
    /// unknown) and replaces its link when a non-empty one is given;
    /// scheduling fields never move.  The caller loads the list
    /// beforehand and persists it afterwards.
    pub fn edit(&self, list: &mut ThingList)
        requires
            fits(old(list)@.things),
        ensures
            final(list)@.things == spec_edit(
                old(list)@.things,
                self.name@,
                self.newname@,
                self.link@,
                old(list)@.code,
                old(list)@.name,
            ),
            final(list)@.code == old(list)@.code,
            final(list)@.name == old(list)@.name,
    {
        let idx = list.edit(self.name.as_slice());
        let ghost s1 = list@.things;
        let ghost v1 = list.things@;
        let mut t = list.things.remove(idx);
        t.name = copy_bytes(self.newname.as_slice());
        if self.link.len() > 0 {
            t.link = Option::Some(copy_bytes(self.link.as_slice()));
        }
        list.things.insert(idx, t);
        proof {
            v1.remove_ensures(idx as int);
            s1.remove_ensures(idx as int);
            s1.remove(idx as int).insert_ensures(idx as int, t@);
            v1.remove(idx as int).insert_ensures(idx as int, t);
            assert(list@.things =~= spec_edit(
                old(list)@.things,
                self.name@,
                self.newname@,
                self.link@,
                old(list)@.code,
                old(list)@.name,
            ));
        }
    }
}

} // verus!
