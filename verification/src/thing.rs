//! A scheduled item: one recurring entry in a list, with its timing state
//! and the derived metrics that drive rescheduling.

use crate::time::all_positive;
use crate::time::geometric_mean;
use crate::time::lemma_geo_mean_bounds;
use crate::time::lemma_product_le_pow;
use crate::time::product_of;
use crate::time::spec_geo_mean;
use crate::time::Time;
use vstd::arithmetic::power::pow;
use vstd::prelude::*;

verus! {

/// Every tick value the scheduler computes with stays within this span,
/// which keeps products of up to three blended signals inside `u128`.
pub const TICK_SPAN: u64 = 0x400_0000_0000;

/// Subtraction on the virtual clock, clamped at zero.
pub open spec fn sat_sub(a: int, b: int) -> int {
    if a >= b {
        a - b
    } else {
        0
    }
}

/// One recurring item of a list: its identity, its timing state, and the
/// identifiers of the list that owns it.
#[derive(Debug)]
pub struct Thing {
    pub name: Vec<u8>,
    pub link: Option<Vec<u8>>,
    pub created: Time,
    pub first_chosen: Time,
    pub chosen: Time,
    pub next: Time,
    pub count: u64,
    pub parent_code: Vec<u8>,
    pub parent_name: Vec<u8>,
}

/// The mathematical value of a `Thing`: plain byte sequences and tick
/// counts, with the wrapper types erased.
#[verifier::ext_equal]
pub ghost struct ThingV {
    pub name: Seq<u8>,
    pub link: Option<Seq<u8>>,
    pub created: u64,
    pub first_chosen: u64,
    pub chosen: u64,
    pub next: u64,
    pub count: u64,
    pub parent_code: Seq<u8>,
    pub parent_name: Seq<u8>,
}

impl View for Thing {
    type V = ThingV;

    open spec fn view(&self) -> ThingV {
        ThingV {
            name: self.name@,
            link: match self.link {
                Option::Some(l) => Option::Some(l@),
                Option::None => Option::None,
            },
            created: self.created.0,
            first_chosen: self.first_chosen.0,
            chosen: self.chosen.0,
            next: self.next.0,
            count: self.count,
            parent_code: self.parent_code@,
            parent_name: self.parent_name@,
        }
    }
}

impl PartialEq for Thing {
    /// Structural equality over every field; it is what the load-time
    /// duplicate removal compares by.
    fn eq(&self, other: &Self) -> (r: bool) {
        let link_eq: bool = match (&self.link, &other.link) {
            (Option::None, Option::None) => true,
            (Option::Some(a), Option::Some(b)) => {
                let e: bool = a == b;
                proof {
                    if e {
                        assert(a@ =~= b@);
                    }
                }
                e
            },
            _ => false,
        };
        let name_eq: bool = self.name == other.name;
        let code_eq: bool = self.parent_code == other.parent_code;
        let list_eq: bool = self.parent_name == other.parent_name;
        proof {
            if name_eq {
                assert(self.name@ =~= other.name@);
            }
            if code_eq {
                assert(self.parent_code@ =~= other.parent_code@);
            }
            if list_eq {
                assert(self.parent_name@ =~= other.parent_name@);
            }
        }
        let r = name_eq && link_eq && self.created.0 == other.created.0 && self.first_chosen.0
            == other.first_chosen.0 && self.chosen.0 == other.chosen.0 && self.next.0
            == other.next.0 && self.count == other.count && code_eq && list_eq;
        proof {
            if r {
                assert(self@ =~= other@);
            }
        }
        r
    }
}

impl Eq for Thing {

}

impl vstd::std_specs::cmp::PartialEqSpecImpl for Thing {
    open spec fn obeys_eq_spec() -> bool {
        true
    }

    open spec fn eq_spec(&self, other: &Self) -> bool {
        self@ == other@
    }
}

/// A fresh item created at virtual time `now`: never accepted, due
/// immediately, with all of its timestamps at the moment of creation.
pub open spec fn spec_new_item(
    name: Seq<u8>,
    code: Seq<u8>,
    list: Seq<u8>,
    now: u64,
) -> ThingV {
    ThingV {
        name: name,
        link: Option::None,
        created: now,
        first_chosen: now,
        chosen: now,
        next: now,
        count: 0,
        parent_code: code,
        parent_name: list,
    }
}

/// The average spacing between an item's own presentations: one tick of
/// baseline until the item has been accepted twice.
pub open spec fn spec_mean_interval(t: ThingV) -> int {
    if t.count < 2 {
        1
    } else {
        sat_sub(t.chosen as int, t.first_chosen as int) / (t.count - 1)
    }
}

/// The list-wide average spacing, smoothed so that it is defined for an
/// empty list and never returns zero: the ceiling of
/// `(sum + 1) / (len + 1)`, where `sum` is the virtual clock.
pub open spec fn spec_list_interval(sum: int, len: int) -> int {
    (sum + 1 + len) / (len + 1)
}

/// The timing signals blended on a reschedule: the interval since the item
/// was last accepted, the item's own mean interval once it has history,
/// and the list-wide mean interval.
pub open spec fn spec_delay_inputs(t: ThingV, now_v: Time, sum: Time, len: u64) -> Seq<Time> {
    let last = Time(sat_sub(now_v.0 as int, t.chosen as int) as u64);
    let lmi = Time(spec_list_interval(sum.0 as int, len as int) as u64);
    if t.count > 1 {
        seq![last, Time(spec_mean_interval(t) as u64), lmi]
    } else if t.count == 1 {
        seq![last, lmi]
    } else {
        seq![lmi]
    }
}

/// How far past the virtual instant `now_v` the item should next be due:
/// the geometric mean of the available timing signals.
pub open spec fn spec_delay_time(t: ThingV, now_v: Time, sum: Time, len: u64) -> int {
    spec_geo_mean(spec_delay_inputs(t, now_v, sum, len))
}

impl Thing {
    /// The sort key of an item: the virtual instant it next comes due.
    pub fn priority(&self) -> (r: Time)
        ensures
            r == self.next,
    {
        self.next
    }

    /// The item's name with quote-like and blank bytes replaced, safe for
    /// use inside a link target.
    pub fn slug(&self) -> (r: Vec<u8>)
        ensures
            r@.len() == self.name@.len(),
            forall|i: int|
                0 <= i < self.name@.len() ==> r@[i] == slug_byte(#[trigger] self.name@[i]),
    {
        let mut out: Vec<u8> = Vec::new();
        let n: usize = self.name.len();
        let mut i: usize = 0;
        while i < n
            invariant
                n == self.name@.len(),
                0 <= i <= n,
                out@.len() == i,
                forall|j: int|
                    0 <= j < i ==> out@[j] == slug_byte(#[trigger] self.name@[j]),
            decreases n - i,
        {
            let b: u8 = self.name[i];
            if b == 39 || b == 32 || b == 34 || b == 92 {
                out.push(45);
            } else {
                out.push(b);
            }
            i += 1;
        }
        out
    }

    /// The average spacing between this item's own presentations.
    pub fn mean_interval(&self) -> (r: Time)
        ensures
            r.0 == spec_mean_interval(self@),
    {
        if self.count < 2 {
            Time(1)
        } else {
            let spread: u64 = if self.chosen.0 >= self.first_chosen.0 {
                self.chosen.0 - self.first_chosen.0
            } else {
                0
            };
            Time(spread / (self.count - 1))
        }
    }

    /// The reschedule distance for this item, measured from the virtual
    /// instant `now_v`, in a list whose accept counts sum to `sum` and
    /// which holds `len` items.
    pub fn delay_time(&self, now_v: Time, sum: Time, len: u64) -> (r: Time)
        requires
            now_v.0 <= TICK_SPAN,
            sum.0 <= TICK_SPAN,
            len <= TICK_SPAN,
            self@.chosen <= TICK_SPAN,
        ensures
            r.0 == spec_delay_time(self@, now_v, sum, len),
            r.0 <= TICK_SPAN + 1,
    {
        let last = Time(
            if now_v.0 >= self.chosen.0 {
                now_v.0 - self.chosen.0
            } else {
                0
            },
        );
        let lmi = Time((sum.0 + 1 + len) / (len + 1));
        let imi = self.mean_interval();
        let mut inputs: Vec<Time> = Vec::new();
        if self.count > 1 {
            inputs.push(last);
            inputs.push(imi);
            inputs.push(lmi);
        } else if self.count == 1 {
            inputs.push(last);
            inputs.push(lmi);
        } else {
            inputs.push(lmi);
        }
        proof {
            let bound = TICK_SPAN as int + 1;
            assert(spec_mean_interval(self@) <= TICK_SPAN as int) by {
                if self@.count >= 2 {
                    vstd::arithmetic::div_mod::lemma_div_is_ordered(
                        sat_sub(self@.chosen as int, self@.first_chosen as int),
                        TICK_SPAN as int,
                        self@.count - 1,
                    );
                    vstd::arithmetic::div_mod::lemma_div_nonincreasing(
                        TICK_SPAN as int,
                        self@.count - 1,
                    );
                }
            }
            assert(spec_list_interval(sum.0 as int, len as int) <= bound) by {
                vstd::arithmetic::div_mod::lemma_div_is_ordered(
                    sum.0 as int + 1 + len,
                    (TICK_SPAN as int + 1) * (len as int + 1),
                    len as int + 1,
                );
                vstd::arithmetic::div_mod::lemma_div_by_multiple(
                    TICK_SPAN as int + 1,
                    len as int + 1,
                );
                assert(sum.0 as int + 1 + len <= (TICK_SPAN as int + 1) * (len as int + 1))
                    by (nonlinear_arith)
                    requires
                        sum.0 <= TICK_SPAN,
                        0 <= len,
                ;
            }
            if self@.count >= 2 {
                vstd::arithmetic::div_mod::lemma_div_pos_is_pos(
                    sat_sub(self@.chosen as int, self@.first_chosen as int),
                    self@.count - 1,
                );
            }
            vstd::arithmetic::div_mod::lemma_div_pos_is_pos(
                sum.0 as int + 1 + len,
                len as int + 1,
            );
            assert(inputs@ =~= spec_delay_inputs(self@, now_v, sum, len));
            assert(forall|i: int|
                0 <= i < inputs@.len() ==> (#[trigger] inputs@[i]).0 <= bound);
            lemma_product_le_pow(inputs@, bound);
            assert(pow(bound, inputs@.len()) <= u128::MAX as int) by {
                reveal_with_fuel(pow, 4);
                assert(bound * (bound * (bound * 1)) <= u128::MAX as int) by (nonlinear_arith)
                    requires
                        bound == 0x400_0000_0001,
                ;
                assert(bound * (bound * 1) <= u128::MAX as int) by (nonlinear_arith)
                    requires
                        bound == 0x400_0000_0001,
                ;
            }
            lemma_geo_mean_bounds(inputs@, bound);
        }
        geometric_mean(inputs.as_slice())
    }
}

/// What the slug transformation does to one byte.
pub open spec fn slug_byte(b: u8) -> u8 {
    if b == 39 || b == 32 || b == 34 || b == 92 {
        45
    } else {
        b
    }
}

} // verus!
