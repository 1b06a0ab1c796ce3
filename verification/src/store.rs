//! Loading and saving a recall list.
//!
//! A list is persisted as the stored record format of its full item
//! sequence, at a path derived from its `(code, name)` pair.  Loading
//! degrades gracefully: missing or unparsable bytes yield the empty
//! list, a valid initial state.  Parsed items are sanitized: items with
//! empty names are dropped, and later exact duplicates of an earlier
//! item are dropped.  The byte-level reading and writing itself (and the
//! write-to-temporary-then-rename discipline that keeps a stored file
//! from ever being seen half written) belongs to the caller.

use crate::bytes::copy_bytes;
use crate::codec::parse_items;
use crate::codec::parse_stored;
use crate::codec::push_item;
use crate::codec::ser_items;
use crate::list::views;
use crate::list::ThingList;
use crate::thing::Thing;
use crate::thing::ThingV;
use vstd::prelude::*;

verus! {

/// The items that carry a name at all; an empty name marks an entry for
/// removal.
pub open spec fn spec_drop_empty(s: Seq<ThingV>) -> Seq<ThingV> {
    s.filter(|t: ThingV| t.name.len() > 0)
}

/// The items with every later exact duplicate of an earlier item
/// removed: an item stays exactly when no structurally equal item
/// precedes it.
pub open spec fn spec_dedup(s: Seq<ThingV>) -> Seq<ThingV>
    decreases s.len(),
{
    if s.len() == 0 {
        s
    } else {
        let d = spec_dedup(s.drop_last());
        if s.drop_last().contains(s.last()) {
            d
        } else {
            d.push(s.last())
        }
    }
}

/// What loading does to a parsed item sequence: drop the empty-named
/// items, then drop later duplicates.
pub open spec fn spec_sanitize(s: Seq<ThingV>) -> Seq<ThingV> {
    spec_dedup(spec_drop_empty(s))
}

/// Removing duplicates keeps membership intact both ways.
pub proof fn lemma_dedup_contains(s: Seq<ThingV>)
    ensures
        forall|x: ThingV| spec_dedup(s).contains(x) <==> s.contains(x),
    decreases s.len(),
{
    if s.len() > 0 {
        lemma_dedup_contains(s.drop_last());
        let d = spec_dedup(s.drop_last());
        assert forall|x: ThingV| spec_dedup(s).contains(x) implies s.contains(x) by {
            if spec_dedup(s).contains(x) {
                let i = choose|i: int|
                    0 <= i < spec_dedup(s).len() && spec_dedup(s)[i] == x;
                if s.drop_last().contains(s.last()) {
                    assert(d.contains(x));
                    assert(s.drop_last().contains(x));
                    let j = choose|j: int| 0 <= j < s.drop_last().len() && s.drop_last()[j] == x;
                    assert(s.drop_last()[j] == s[j]);
                    assert(s[j] == x);
                } else {
                    if i < d.len() {
                        assert(d.contains(x));
                        assert(s.drop_last().contains(x));
                        let j = choose|j: int|
                            0 <= j < s.drop_last().len() && s.drop_last()[j] == x;
                        assert(s.drop_last()[j] == s[j]);
                        assert(s[j] == x);
                    } else {
                        assert(x == s.last());
                        assert(s[s.len() - 1] == x);
                    }
                }
            }
        }
        assert forall|x: ThingV| s.contains(x) implies spec_dedup(s).contains(x) by {
            if s.contains(x) {
                let i = choose|i: int| 0 <= i < s.len() && s[i] == x;
                if i < s.len() - 1 {
                    assert(s.drop_last()[i] == x);
                    assert(s.drop_last().contains(x));
                    assert(d.contains(x));
                    if !s.drop_last().contains(s.last()) {
                        let j = choose|j: int| 0 <= j < d.len() && d[j] == x;
                        assert(d.push(s.last())[j] == x);
                    }
                } else {
                    if s.drop_last().contains(s.last()) {
                        assert(d.contains(x));
                    } else {
                        assert(d.push(s.last()).last() == x);
                    }
                }
            }
        }
    }
}

/// The sanitizing pass over freshly parsed items.
fn sanitize(things: Vec<Thing>) -> (r: Vec<Thing>)
    ensures
        views(r@) == spec_sanitize(views(things@)),
{
    let ghost s0 = views(things@);
    // drop the empty-named items
    let mut rem = things;
    let ghost v0 = rem@;
    let mut named: Vec<Thing> = Vec::new();
    proof {
        reveal(Seq::filter);
        assert(s0.take(0) =~= Seq::<ThingV>::empty());
    }
    while rem.len() > 0
        invariant
            s0 == views(v0),
            rem@.len() <= v0.len(),
            rem@ =~= v0.skip(v0.len() - rem@.len()),
            views(named@) == spec_drop_empty(s0.take(v0.len() - rem@.len())),
        decreases rem@.len(),
    {
        let ghost i = v0.len() - rem@.len();
        let t = rem.remove(0);
        proof {
            assert(t == v0[i as int]);
            assert(rem@ =~= v0.skip(i + 1));
        }
        let keep = t.name.len() > 0;
        let ghost va = named@;
        if keep {
            named.push(t);
        }
        proof {
            reveal(Seq::filter);
            assert(s0.take(i + 1).drop_last() =~= s0.take(i as int));
            assert(s0.take(i + 1).last() == s0[i as int]);
            if keep {
                assert(views(named@) =~= views(va).push(t@));
            }
            assert(views(named@) == spec_drop_empty(s0.take(i + 1)));
        }
    }
    proof {
        assert(s0.take(v0.len() as int) =~= s0);
    }
    // drop later duplicates of an earlier item
    let ghost s1 = views(named@);
    let mut rem2 = named;
    let ghost v1 = rem2@;
    let mut out: Vec<Thing> = Vec::new();
    proof {
        assert(s1.take(0) =~= Seq::<ThingV>::empty());
    }
    while rem2.len() > 0
        invariant
            s1 == views(v1),
            rem2@.len() <= v1.len(),
            rem2@ =~= v1.skip(v1.len() - rem2@.len()),
            views(out@) == spec_dedup(s1.take(v1.len() - rem2@.len())),
        decreases rem2@.len(),
    {
        let ghost i = v1.len() - rem2@.len();
        let t = rem2.remove(0);
        proof {
            assert(t == v1[i as int]);
            assert(rem2@ =~= v1.skip(i + 1));
        }
        let n: usize = out.len();
        let mut j: usize = 0;
        let mut dup = false;
        while j < n
            invariant
                n == out@.len(),
                0 <= j <= n,
                dup <==> exists|l: int| 0 <= l < j && views(out@)[l] == t@,
            decreases n - j,
        {
            let e: bool = &out[j] == &t;
            if e {
                dup = true;
            }
            proof {
                assert(views(out@)[j as int] == out@[j as int]@);
            }
            j += 1;
        }
        let ghost va = out@;
        if !dup {
            out.push(t);
        }
        proof {
            lemma_dedup_contains(s1.take(i as int));
            assert(s1.take(i + 1).drop_last() =~= s1.take(i as int));
            assert(s1.take(i + 1).last() == s1[i as int]);
            if dup {
                assert(views(va).contains(t@));
                assert(s1.take(i as int).contains(t@));
            } else {
                assert(!views(va).contains(t@)) by {
                    assert(forall|l: int| 0 <= l < va.len() ==> views(va)[l] != t@);
                }
                assert(!s1.take(i as int).contains(t@));
                assert(views(out@) =~= views(va).push(t@));
            }
            assert(views(out@) == spec_dedup(s1.take(i + 1)));
        }
    }
    proof {
        assert(s1.take(v1.len() as int) =~= s1);
    }
    out
}

impl ThingList {
    /// Serializes the full item sequence to the stored record format;
    /// the caller writes the bytes to the storage path in one atomic
    /// replacement.
    pub fn save(&self) -> (r: Vec<u8>)
        ensures
            r@ == ser_items(self@.things),
    {
        let ghost s0 = self@.things;
        let n: usize = self.things.len();
        let mut out: Vec<u8> = Vec::new();
        let mut i: usize = 0;
        proof {
            assert(s0.skip(0) =~= s0);
        }
        while i < n
            invariant
                n == self.things@.len(),
                s0 == views(self.things@),
                0 <= i <= n,
                ser_items(s0) == out@ + ser_items(s0.skip(i as int)),
            decreases n - i,
        {
            let ghost pre = out@;
            push_item(&mut out, &self.things[i]);
            proof {
                assert(s0.skip(i as int).first() == s0[i as int]);
                assert(s0.skip(i as int).drop_first() =~= s0.skip(i + 1));
                assert(pre + crate::codec::ser_item(s0[i as int]) + ser_items(s0.skip(i + 1))
                    =~= pre + ser_items(s0.skip(i as int)));
            }
            i += 1;
        }
        proof {
            assert(s0.skip(n as int) =~= Seq::<ThingV>::empty());
            assert(out@ =~= ser_items(s0));
        }
        out
    }

    /// Builds the list for `(code, name)` from the stored bytes; a
    /// missing file (`None`) or unparsable bytes yield the empty list,
    /// and parsed items are sanitized: empty names dropped, later exact
    /// duplicates of an earlier item dropped.
    pub fn load(code: &[u8], name: &[u8], stored: Option<&[u8]>) -> (r: ThingList)
        ensures
            r@.code == code@,
            r@.name == name@,
            match stored {
                Option::None => r@.things == Seq::<ThingV>::empty(),
                Option::Some(bytes) => match parse_items(bytes@) {
                    Option::None => r@.things == Seq::<ThingV>::empty(),
                    Option::Some(items) => r@.things == spec_sanitize(items),
                },
            },
    {
        let empty: Vec<Thing> = Vec::new();
        proof {
            assert(views(empty@) =~= Seq::<ThingV>::empty());
        }
        let things: Vec<Thing> = match stored {
            Option::None => empty,
            Option::Some(bytes) => match parse_stored(bytes) {
                Option::None => empty,
                Option::Some(parsed) => sanitize(parsed),
            },
        };
        ThingList { code: copy_bytes(code), name: copy_bytes(name), things }
    }

    /// The storage path of this list: the fixed root, the code, and the
    /// list name, as path segments.
    pub fn storage_path(&self) -> (r: Vec<u8>)
        ensures
            r@ == seq![100u8, 97, 116, 97, 47] + self@.code + seq![47u8] + self@.name,
    {
        let mut out: Vec<u8> = Vec::new();
        out.push(100);
        out.push(97);
        out.push(116);
        out.push(97);
        out.push(47);
        crate::bytes::push_all(&mut out, self.code.as_slice());
        out.push(47);
        crate::bytes::push_all(&mut out, self.name.as_slice());
        proof {
            assert(out@ =~= seq![100u8, 97, 116, 97, 47] + self@.code + seq![47u8] + self@.name);
        }
        out
    }
}

} // verus!
