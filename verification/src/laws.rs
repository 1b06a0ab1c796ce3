//! The laws of the scheduler, stated and proved over the mathematical
//! model: what saving and loading round-trips, what an accept does to an
//! item's history, and which timing invariants every operation keeps.

use crate::codec::lemma_store_round_trip;
use crate::codec::parse_items;
use crate::codec::ser_items;
use crate::list::ins_point;
use crate::list::last_match;
use crate::list::spec_delay_pass;
use crate::list::lemma_count_le_sum;
use crate::list::lemma_last_match_props;
use crate::list::lemma_sum_counts_insert;
use crate::list::lemma_sum_counts_nonneg;
use crate::list::lemma_sum_counts_remove;
use crate::list::fits;
use crate::list::spec_choose;
use crate::list::spec_choose_update;
use crate::list::sum_counts;
use crate::store::spec_dedup;
use crate::store::spec_drop_empty;
use crate::store::spec_sanitize;
use crate::thing::spec_delay_time;
use crate::thing::spec_new_item;
use crate::thing::ThingV;
use crate::time::Time;
use vstd::prelude::*;

verus! {

/// A list whose items all carry a name and hold no exact duplicate of
/// an earlier item: what every list the library itself writes looks
/// like, and what loading passes through unchanged.
pub open spec fn well_named(s: Seq<ThingV>) -> bool {
    &&& forall|i: int| 0 <= i < s.len() ==> (#[trigger] s[i]).name.len() > 0
    &&& forall|i: int, j: int| #![trigger s[i], s[j]] 0 <= i < j < s.len() ==> s[i] != s[j]
}

/// The timing invariants of a scheduled item within its list: a
/// never-accepted item still sits at its creation instant, the first
/// accept never postdates the latest, and no accept postdates the
/// virtual clock by more than the one tick an edit may add.
pub open spec fn wf_times(s: Seq<ThingV>) -> bool {
    forall|i: int|
        0 <= i < s.len() ==> {
            let t = #[trigger] s[i];
            &&& (t.count == 0 ==> t.first_chosen == t.chosen && t.chosen == t.created)
            &&& t.first_chosen <= t.chosen
            &&& t.chosen <= sum_counts(s) + 1
        }
}

/// Sanitizing a well-named list changes nothing: dropping empty names
/// and later duplicates only ever removes what the library never
/// writes.
pub proof fn lemma_sanitize_well_named(s: Seq<ThingV>)
    requires
        well_named(s),
    ensures
        spec_sanitize(s) == s,
    decreases s.len(),
{
    reveal(Seq::filter);
    assert(spec_drop_empty(s) =~= s) by {
        lemma_filter_all(s);
    }
    lemma_dedup_distinct(s);
}

/// Filtering for named items keeps a fully named list whole.
proof fn lemma_filter_all(s: Seq<ThingV>)
    requires
        forall|i: int| 0 <= i < s.len() ==> (#[trigger] s[i]).name.len() > 0,
    ensures
        spec_drop_empty(s) == s,
    decreases s.len(),
{
    reveal(Seq::filter);
    if s.len() > 0 {
        assert(forall|i: int|
            0 <= i < s.drop_last().len() ==> (#[trigger] s.drop_last()[i]).name.len() > 0);
        lemma_filter_all(s.drop_last());
        assert(s[s.len() - 1].name.len() > 0);
        assert(spec_drop_empty(s) =~= s);
    }
}

/// Removing duplicates keeps a duplicate-free list whole.
proof fn lemma_dedup_distinct(s: Seq<ThingV>)
    requires
        forall|i: int, j: int| #![trigger s[i], s[j]] 0 <= i < j < s.len() ==> s[i] != s[j],
    ensures
        spec_dedup(s) == s,
    decreases s.len(),
{
    if s.len() > 0 {
        assert(forall|i: int, j: int|
            #![trigger s.drop_last()[i], s.drop_last()[j]]
            0 <= i < j < s.drop_last().len() ==> s.drop_last()[i] != s.drop_last()[j]);
        lemma_dedup_distinct(s.drop_last());
        assert(!s.drop_last().contains(s.last())) by {
            assert(forall|i: int| 0 <= i < s.len() - 1 ==> (#[trigger] s[i]) != s[s.len() - 1]);
            assert(forall|i: int|
                0 <= i < s.drop_last().len() ==> (#[trigger] s.drop_last()[i]) != s.last());
        }
        assert(spec_dedup(s) =~= s);
    }
}

/// Saving and loading round-trips: the stored bytes of a well-named
/// item sequence parse back to exactly that sequence, and the
/// load-time sanitizing pass leaves it untouched.
pub proof fn lemma_save_load_round_trip(s: Seq<ThingV>)
    requires
        well_named(s),
    ensures
        parse_items(ser_items(s)) == Option::Some(s),
        spec_sanitize(s) == s,
{
    lemma_store_round_trip(s);
    lemma_sanitize_well_named(s);
}

/// What one accept does to the accepted item's history: its count grows
/// by exactly one, and neither of its accept instants ever moves
/// backwards.  The rest of the list is the old list with the item
/// reinserted at its sorted position.
pub proof fn lemma_accept_monotone(s: Seq<ThingV>, which: Seq<u8>, code: Seq<u8>, list: Seq<u8>)
    requires
        fits(s),
        wf_times(s),
        last_match(s, which) >= 0,
    ensures
        ({
            let k = last_match(s, which);
            let t = s[k];
            let now = (sum_counts(s) + 1) as u64;
            let dt = spec_delay_time(t, Time(now), Time(sum_counts(s) as u64), s.len() as u64);
            let u = spec_choose_update(t, now, dt);
            let rest = s.remove(k);
            &&& spec_choose(s, which, code, list) == rest.insert(ins_point(rest, u.next), u)
            &&& u.count == t.count + 1
            &&& u.chosen >= t.chosen
            &&& u.first_chosen >= t.first_chosen
            &&& u.first_chosen <= u.chosen
        }),
{
    let k = last_match(s, which);
    lemma_last_match_props(s, which);
    lemma_count_le_sum(s, k);
    lemma_sum_counts_nonneg(s);
}

/// The first-accept fixpoint: a never-accepted item sits at its creation
/// instant; the moment it is first accepted, both of its accept instants
/// land on the new virtual instant and its count becomes one.
pub proof fn lemma_first_accept(s: Seq<ThingV>, which: Seq<u8>)
    requires
        fits(s),
        wf_times(s),
        last_match(s, which) >= 0,
        s[last_match(s, which)].count == 0,
    ensures
        ({
            let k = last_match(s, which);
            let t = s[k];
            let now = (sum_counts(s) + 1) as u64;
            let dt = spec_delay_time(t, Time(now), Time(sum_counts(s) as u64), s.len() as u64);
            let u = spec_choose_update(t, now, dt);
            &&& t.first_chosen == t.chosen && t.chosen == t.created
            &&& u.count == 1
            &&& u.first_chosen == now && u.chosen == now
        }),
{
    let k = last_match(s, which);
    lemma_last_match_props(s, which);
    lemma_sum_counts_nonneg(s);
}

/// A deferral pass with any positive jittered distance pushes the
/// deferred item strictly later; and whenever the push reaches the
/// priority of the item that followed it, the item also moves behind
/// that follower.
pub proof fn lemma_delay_pass_pushes_later(s: Seq<ThingV>, which: Seq<u8>, jit: u64)
    requires
        100 <= jit < 1000,
        0 <= last_match(s, which),
        last_match(s, which) < s.len() - 1,
        ({
            let k = last_match(s, which);
            let t = s[k];
            let pass_sum = Time((sum_counts(s) - t.count) as u64);
            let dt = spec_delay_time(t, pass_sum, pass_sum, (s.len() - 1) as u64);
            dt * jit / 1000 >= 1 && t.next + dt * jit / 1000 <= u64::MAX
        }),
    ensures
        ({
            let k = last_match(s, which);
            let t = s[k];
            let pass_sum = Time((sum_counts(s) - t.count) as u64);
            let dt = spec_delay_time(t, pass_sum, pass_sum, (s.len() - 1) as u64);
            let bumped = (t.next + dt * jit / 1000) as u64;
            let rest = s.remove(k);
            let p = ins_point(rest, bumped);
            let r = spec_delay_pass(s, which, jit);
            &&& r[p].next == bumped
            &&& bumped > t.next
            &&& s[k + 1].next <= bumped ==> p > k
        }),
{
    let k = last_match(s, which);
    lemma_last_match_props(s, which);
    let t = s[k];
    let pass_sum = Time((sum_counts(s) - t.count) as u64);
    let dt = spec_delay_time(t, pass_sum, pass_sum, (s.len() - 1) as u64);
    let bumped = (t.next + dt * jit / 1000) as u64;
    let rest = s.remove(k);
    s.remove_ensures(k);
    let p = ins_point(rest, bumped);
    crate::list::lemma_ins_point_props(rest, bumped);
    let r = spec_delay_pass(s, which, jit);
    assert(r[p].next == bumped) by {
        rest.insert_ensures(p, spec_delay_pass_item(s, which, jit));
    }
    if s[k + 1].next <= bumped {
        assert(rest[k] == s[k + 1]);
        if p <= k {
            assert(rest[k].next > bumped);
        }
    }
}

/// The deferred item as one pass rewrites it.
pub open spec fn spec_delay_pass_item(s: Seq<ThingV>, which: Seq<u8>, jit: u64) -> ThingV {
    let k = last_match(s, which);
    let t = s[k];
    let pass_sum = Time((sum_counts(s) - t.count) as u64);
    let dt = spec_delay_time(t, pass_sum, pass_sum, (s.len() - 1) as u64);
    let amount = dt * jit / 1000;
    let bumped = if t.next + amount <= u64::MAX {
        (t.next + amount) as u64
    } else {
        u64::MAX
    };
    ThingV {
        name: t.name,
        link: t.link,
        created: t.created,
        first_chosen: t.first_chosen,
        chosen: t.chosen,
        next: bumped,
        count: t.count,
        parent_code: t.parent_code,
        parent_name: t.parent_name,
    }
}

/// Every accept keeps the timing invariants: the rescheduled item lands
/// exactly on the new virtual instant, and no other item moves.
pub proof fn lemma_accept_preserves_wf(
    s: Seq<ThingV>,
    which: Seq<u8>,
    code: Seq<u8>,
    list: Seq<u8>,
)
    requires
        fits(s),
        wf_times(s),
    ensures
        wf_times(spec_choose(s, which, code, list)),
{
    lemma_last_match_props(s, which);
    lemma_sum_counts_nonneg(s);
    let s1 = if last_match(s, which) >= 0 {
        s
    } else {
        s.push(spec_new_item(which, code, list, sum_counts(s) as u64))
    };
    assert(sum_counts(s1) == sum_counts(s)) by {
        if last_match(s, which) < 0 {
            assert(s1.drop_last() =~= s);
        }
    }
    assert(wf_times(s1)) by {
        if last_match(s, which) < 0 {
            assert(forall|i: int| 0 <= i < s.len() ==> s1[i] == (#[trigger] s[i]));
            assert(s1[s1.len() - 1] == spec_new_item(which, code, list, sum_counts(s) as u64));
        }
    }
    let k = last_match(s1, which);
    lemma_last_match_props(s1, which);
    assert(k >= 0) by {
        if last_match(s, which) < 0 {
            assert(s1.last().name == which);
        }
    }
    let t = s1[k];
    lemma_count_le_sum(s1, k);
    let now = (sum_counts(s1) + 1) as u64;
    let dt = spec_delay_time(t, Time(now), Time(sum_counts(s1) as u64), s1.len() as u64);
    let u = spec_choose_update(t, now, dt);
    let rest = s1.remove(k);
    s1.remove_ensures(k);
    lemma_sum_counts_remove(s1, k);
    let p = ins_point(rest, u.next);
    crate::list::lemma_ins_point_props(rest, u.next);
    let r = rest.insert(p, u);
    rest.insert_ensures(p, u);
    lemma_sum_counts_insert(rest, p, u);
    assert(sum_counts(r) == sum_counts(s1) + 1);
    assert forall|i: int| 0 <= i < r.len() implies {
        let t2 = #[trigger] r[i];
        &&& (t2.count == 0 ==> t2.first_chosen == t2.chosen && t2.chosen == t2.created)
        &&& t2.first_chosen <= t2.chosen
        &&& t2.chosen <= sum_counts(r) + 1
    } by {
        if i == p {
            assert(r[i] == u);
        } else {
            let i1 = if i < p {
                i
            } else {
                i - 1
            };
            assert(r[i] == rest[i1]);
            let i2 = if i1 < k {
                i1
            } else {
                i1 + 1
            };
            assert(rest[i1] == s1[i2]);
        }
    }
}

/// Filtering for named items removes exactly a single unnamed entry.
proof fn lemma_drop_empty_single(s: Seq<ThingV>, e: int)
    requires
        0 <= e < s.len(),
        s[e].name.len() == 0,
        forall|l: int| 0 <= l < s.len() && l != e ==> (#[trigger] s[l]).name.len() > 0,
    ensures
        spec_drop_empty(s) == s.remove(e),
    decreases s.len(),
{
    reveal(Seq::filter);
    let dl = s.drop_last();
    if e == s.len() - 1 {
        assert forall|l: int| 0 <= l < dl.len() implies (#[trigger] dl[l]).name.len() > 0 by {
            assert(dl[l] == s[l]);
        }
        lemma_filter_all(dl);
        assert(s.remove(e) =~= dl);
    } else {
        assert(s.last().name.len() > 0);
        assert(dl[e] == s[e]);
        assert forall|l: int| 0 <= l < dl.len() && l != e implies (#[trigger] dl[l]).name.len()
            > 0 by {
            assert(dl[l] == s[l]);
        }
        lemma_drop_empty_single(dl, e);
        assert(spec_drop_empty(s) == spec_drop_empty(dl).push(s.last()));
        s.remove_ensures(e);
        dl.remove_ensures(e);
        assert(dl.remove(e).push(s.last()) =~= s.remove(e));
    }
}

/// Removing duplicates removes exactly a single later duplicate.
proof fn lemma_dedup_single(s: Seq<ThingV>, i: int, j: int)
    requires
        0 <= i < j < s.len(),
        s[i] == s[j],
        forall|a: int, b: int|
            #![trigger s[a], s[b]]
            0 <= a < b < s.len() && !(a == i && b == j) ==> s[a] != s[b],
    ensures
        spec_dedup(s) == s.remove(j),
    decreases s.len(),
{
    let dl = s.drop_last();
    if j == s.len() - 1 {
        assert(dl[i] == s[i]);
        assert(dl.contains(s.last()));
        assert forall|a: int, b: int|
            #![trigger dl[a], dl[b]]
            0 <= a < b < dl.len() implies dl[a] != dl[b] by {
            assert(dl[a] == s[a]);
            assert(dl[b] == s[b]);
        }
        lemma_dedup_distinct(dl);
        assert(s.remove(j) =~= dl);
    } else {
        assert(!dl.contains(s.last())) by {
            assert forall|a: int| 0 <= a < dl.len() implies (#[trigger] dl[a]) != s.last() by {
                assert(dl[a] == s[a]);
                assert(s[a] != s[s.len() - 1]);
            }
        }
        assert(dl[i] == s[i]);
        assert(dl[j] == s[j]);
        assert forall|a: int, b: int|
            #![trigger dl[a], dl[b]]
            0 <= a < b < dl.len() && !(a == i && b == j) implies dl[a] != dl[b] by {
            assert(dl[a] == s[a]);
            assert(dl[b] == s[b]);
        }
        lemma_dedup_single(dl, i, j);
        assert(spec_dedup(s) == spec_dedup(dl).push(s.last()));
        s.remove_ensures(j);
        dl.remove_ensures(j);
        assert(dl.remove(j).push(s.last()) =~= s.remove(j));
    }
}

/// One flawed stored sequence loads minus exactly its flaws: a sequence
/// whose only blemishes are a single empty-named entry and a single
/// later exact duplicate of an earlier item sanitizes to the sequence
/// with exactly those two entries removed, earlier occurrences and
/// order kept.
pub proof fn lemma_sanitize_drops_flaws(raw: Seq<ThingV>, e: int, i: int, j: int)
    requires
        0 <= e < raw.len(),
        raw[e].name.len() == 0,
        forall|l: int| 0 <= l < raw.len() && l != e ==> (#[trigger] raw[l]).name.len() > 0,
        0 <= i < j < raw.len(),
        i != e && j != e,
        raw[i] == raw[j],
        forall|a: int, b: int|
            #![trigger raw[a], raw[b]]
            0 <= a < b < raw.len() && a != e && b != e && !(a == i && b == j) ==> raw[a]
                != raw[b],
    ensures
        spec_sanitize(raw) == if e < j {
            raw.remove(j).remove(e)
        } else {
            raw.remove(e).remove(j)
        },
{
    lemma_drop_empty_single(raw, e);
    raw.remove_ensures(e);
    let s1 = raw.remove(e);
    let i1 = if i < e {
        i
    } else {
        i - 1
    };
    let j1 = if j < e {
        j
    } else {
        j - 1
    };
    assert(s1[i1] == raw[i]);
    assert(s1[j1] == raw[j]);
    assert forall|a: int, b: int|
        #![trigger s1[a], s1[b]]
        0 <= a < b < s1.len() && !(a == i1 && b == j1) implies s1[a] != s1[b] by {
        let a0 = if a < e {
            a
        } else {
            a + 1
        };
        let b0 = if b < e {
            b
        } else {
            b + 1
        };
        assert(s1[a] == raw[a0]);
        assert(s1[b] == raw[b0]);
        assert(raw[a0] != raw[b0]);
    }
    lemma_dedup_single(s1, i1, j1);
    s1.remove_ensures(j1);
    if e < j {
        // the duplicate sits past the unnamed entry
        let rj = raw.remove(j);
        raw.remove_ensures(j);
        rj.remove_ensures(e);
        assert(s1.remove(j1) =~= rj.remove(e)) by {
            assert forall|l: int| 0 <= l < s1.remove(j1).len() implies s1.remove(j1)[l]
                == rj.remove(e)[l] by {
                if l < e {
                    assert(s1.remove(j1)[l] == s1[l]);
                    assert(s1[l] == raw[l]);
                    assert(rj.remove(e)[l] == rj[l]);
                    assert(rj[l] == raw[l]);
                } else if l < j - 1 {
                    assert(s1.remove(j1)[l] == s1[l]);
                    assert(s1[l] == raw[l + 1]);
                    assert(rj.remove(e)[l] == rj[l + 1]);
                    assert(rj[l + 1] == raw[l + 1]);
                } else {
                    assert(s1.remove(j1)[l] == s1[l + 1]);
                    assert(s1[l + 1] == raw[l + 2]);
                    assert(rj.remove(e)[l] == rj[l + 1]);
                    assert(rj[l + 1] == raw[l + 2]);
                }
            }
        }
    }
}

} // verus!
