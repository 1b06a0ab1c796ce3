//! The stored record format: one human-readable key-value record per
//! item, and the decimal form of tick values.
//!
//! A record is a fixed series of `key: value` lines.  Byte-string fields
//! are percent-escaped so a value can never hold a line break; numeric
//! fields are plain decimal.  The parser is proved to invert the
//! serializer on every item sequence, and to reject rather than guess on
//! anything else.

use crate::encoding::spec_decode;
use crate::encoding::spec_encode;
use crate::thing::Thing;
use crate::thing::ThingV;
use vstd::arithmetic::div_mod::lemma_fundamental_div_mod;
use vstd::prelude::*;

verus! {

/// Whether a byte is an ASCII decimal digit.
pub open spec fn is_digit(b: u8) -> bool {
    48 <= b <= 57
}

/// Whether a byte string is all decimal digits.
pub open spec fn all_digits(s: Seq<u8>) -> bool {
    forall|i: int| 0 <= i < s.len() ==> is_digit(#[trigger] s[i])
}

/// The number a digit string denotes.
pub open spec fn dec_value(s: Seq<u8>) -> int
    decreases s.len(),
{
    if s.len() == 0 {
        0
    } else {
        dec_value(s.drop_last()) * 10 + (s.last() - 48)
    }
}

/// The canonical decimal form of a nonnegative number.
pub open spec fn dec_digits(n: int) -> Seq<u8>
    decreases n,
{
    if n <= 0 {
        seq![48u8]
    } else if n < 10 {
        seq![(48 + n) as u8]
    } else {
        dec_digits(n / 10) + seq![(48 + n % 10) as u8]
    }
}

/// What a numeric field accepts: a non-empty digit string whose value
/// fits the tick type.
pub open spec fn parse_num(s: Seq<u8>) -> Option<u64> {
    if s.len() > 0 && all_digits(s) && dec_value(s) <= u64::MAX as int {
        Option::Some(dec_value(s) as u64)
    } else {
        Option::None
    }
}

/// The canonical decimal form is a non-empty digit string without line
/// breaks.
pub proof fn lemma_dec_digits_are_digits(n: int)
    ensures
        dec_digits(n).len() >= 1,
        all_digits(dec_digits(n)),
        forall|i: int| 0 <= i < dec_digits(n).len() ==> dec_digits(n)[i] != 10,
    decreases n,
{
    if n >= 10 {
        lemma_dec_digits_are_digits(n / 10);
        let a = dec_digits(n / 10);
        let d = dec_digits(n);
        assert forall|i: int| 0 <= i < d.len() implies is_digit(d[i]) && d[i] != 10 by {
            if i < a.len() {
                assert(d[i] == a[i]);
            } else {
                assert(d[i] == (48 + n % 10) as u8);
            }
        }
    }
}

/// A digit string denotes a nonnegative number.
pub proof fn lemma_dec_value_nonneg(s: Seq<u8>)
    requires
        all_digits(s),
    ensures
        0 <= dec_value(s),
    decreases s.len(),
{
    if s.len() > 0 {
        assert(all_digits(s.drop_last()));
        lemma_dec_value_nonneg(s.drop_last());
    }
}

/// A digit-string prefix never denotes more than the whole string.
pub proof fn lemma_dec_value_prefix(s: Seq<u8>, i: int)
    requires
        all_digits(s),
        0 <= i <= s.len(),
    ensures
        dec_value(s.take(i)) <= dec_value(s),
    decreases s.len() - i,
{
    if i == s.len() {
        assert(s.take(i) =~= s);
    } else {
        lemma_dec_value_prefix(s, i + 1);
        assert(s.take(i + 1).drop_last() =~= s.take(i));
        assert(s.take(i + 1).last() == s[i]);
        assert(all_digits(s.take(i)));
        lemma_dec_value_nonneg(s.take(i));
    }
}

/// Parsing the canonical decimal form gives the number back.
pub proof fn lemma_parse_print(n: u64)
    ensures
        parse_num(dec_digits(n as int)) == Option::Some(n),
    decreases n,
{
    lemma_dec_digits_are_digits(n as int);
    lemma_dec_value_of_digits(n as int);
}

/// The canonical decimal form denotes the number it was made from.
pub proof fn lemma_dec_value_of_digits(n: int)
    requires
        0 <= n,
    ensures
        dec_value(dec_digits(n)) == n,
    decreases n,
{
    if n < 10 {
        let d = dec_digits(n);
        assert(d.len() == 1);
        assert(d.drop_last() =~= Seq::<u8>::empty());
        assert(dec_value(d.drop_last()) == 0);
        assert(d.last() == (48 + n) as u8);
        assert(((48 + n) as u8) == 48 + n);
    } else {
        lemma_dec_value_of_digits(n / 10);
        let a = dec_digits(n / 10);
        assert((a + seq![(48 + n % 10) as u8]).drop_last() =~= a);
        assert((a + seq![(48 + n % 10) as u8]).last() == (48 + n % 10) as u8);
        lemma_fundamental_div_mod(n, 10);
        assert(0 <= n % 10 < 10);
        assert(((48 + n % 10) as u8) == 48 + n % 10);
        assert(dec_value(dec_digits(n)) == (n / 10) * 10 + ((48 + n % 10) as u8 - 48));
        assert(dec_value(dec_digits(n)) == n);
    }
}

/// A decimal digit string, parsed with an exact overflow check.
pub fn parse_u64(s: &[u8]) -> (r: Option<u64>)
    ensures
        r == parse_num(s@),
{
    let n: usize = s.len();
    if n == 0 {
        return Option::None;
    }
    let mut val: u64 = 0;
    let mut i: usize = 0;
    while i < n
        invariant
            n == s@.len(),
            0 <= i <= n,
            all_digits(s@.take(i as int)),
            val as int == dec_value(s@.take(i as int)),
        decreases n - i,
    {
        let b: u8 = s[i];
        proof {
            assert(s@.take(i + 1).drop_last() =~= s@.take(i as int));
            assert(s@.take(i + 1).last() == s@[i as int]);
        }
        if b < 48 || b > 57 {
            proof {
                assert(!is_digit(s@[i as int]));
                assert(!all_digits(s@));
            }
            return Option::None;
        }
        let d: u64 = (b - 48) as u64;
        let q: u64 = (u64::MAX - d) / 10;
        proof {
            lemma_fundamental_div_mod(u64::MAX as int - d as int, 10);
        }
        if val > q {
            proof {
                assert(dec_value(s@.take(i + 1)) > u64::MAX as int);
                if all_digits(s@) {
                    lemma_dec_value_prefix(s@, i + 1);
                }
            }
            return Option::None;
        }
        val = val * 10 + d;
        i += 1;
    }
    proof {
        assert(s@.take(n as int) =~= s@);
    }
    Option::Some(val)
}

/// The canonical decimal form of a number, appended to a buffer.
pub fn push_dec(n: u64, out: &mut Vec<u8>)
    ensures
        final(out)@ == old(out)@ + dec_digits(n as int),
    decreases n,
{
    if n < 10 {
        out.push(48 + (n as u8));
        proof {
            assert(out@ =~= old(out)@ + dec_digits(n as int));
        }
    } else {
        push_dec(n / 10, out);
        out.push(48 + ((n % 10) as u8));
        proof {
            assert(out@ =~= old(out)@ + dec_digits(n as int));
        }
    }
}

/// The field prefix `- name: ` of a stored record line.
#[verifier::opaque]
pub open spec fn head_pre() -> Seq<u8> {
    seq![45u8, 32, 110, 97, 109, 101, 58, 32]
}
/// The field prefix `  link: ` of a stored record line.
#[verifier::opaque]
pub open spec fn link_pre() -> Seq<u8> {
    seq![32u8, 32, 108, 105, 110, 107, 58, 32]
}
/// The field prefix `  created: ` of a stored record line.
#[verifier::opaque]
pub open spec fn created_pre() -> Seq<u8> {
    seq![32u8, 32, 99, 114, 101, 97, 116, 101, 100, 58, 32]
}
/// The field prefix `  first_chosen: ` of a stored record line.
#[verifier::opaque]
pub open spec fn first_pre() -> Seq<u8> {
    seq![32u8, 32, 102, 105, 114, 115, 116, 95, 99, 104, 111, 115, 101, 110, 58, 32]
}
/// The field prefix `  chosen: ` of a stored record line.
#[verifier::opaque]
pub open spec fn chosen_pre() -> Seq<u8> {
    seq![32u8, 32, 99, 104, 111, 115, 101, 110, 58, 32]
}
/// The field prefix `  next: ` of a stored record line.
#[verifier::opaque]
pub open spec fn next_pre() -> Seq<u8> {
    seq![32u8, 32, 110, 101, 120, 116, 58, 32]
}
/// The field prefix `  count: ` of a stored record line.
#[verifier::opaque]
pub open spec fn count_pre() -> Seq<u8> {
    seq![32u8, 32, 99, 111, 117, 110, 116, 58, 32]
}
/// The field prefix `  parent_code: ` of a stored record line.
#[verifier::opaque]
pub open spec fn pcode_pre() -> Seq<u8> {
    seq![32u8, 32, 112, 97, 114, 101, 110, 116, 95, 99, 111, 100, 101, 58, 32]
}
/// The field prefix `  parent_name: ` of a stored record line.
#[verifier::opaque]
pub open spec fn pname_pre() -> Seq<u8> {
    seq![32u8, 32, 112, 97, 114, 101, 110, 116, 95, 110, 97, 109, 101, 58, 32]
}

fn head_bytes() -> (r: [u8; 8])
    ensures
        r@ == head_pre(),
{
    let a: [u8; 8] = [45, 32, 110, 97, 109, 101, 58, 32];
    proof {
        reveal(head_pre);
        assert(a@ =~= head_pre());
    }
    a
}
fn link_bytes() -> (r: [u8; 8])
    ensures
        r@ == link_pre(),
{
    let a: [u8; 8] = [32, 32, 108, 105, 110, 107, 58, 32];
    proof {
        reveal(link_pre);
        assert(a@ =~= link_pre());
    }
    a
}
fn created_bytes() -> (r: [u8; 11])
    ensures
        r@ == created_pre(),
{
    let a: [u8; 11] = [32, 32, 99, 114, 101, 97, 116, 101, 100, 58, 32];
    proof {
        reveal(created_pre);
        assert(a@ =~= created_pre());
    }
    a
}
fn first_bytes() -> (r: [u8; 16])
    ensures
        r@ == first_pre(),
{
    let a: [u8; 16] = [32, 32, 102, 105, 114, 115, 116, 95, 99, 104, 111, 115, 101, 110, 58, 32];
    proof {
        reveal(first_pre);
        assert(a@ =~= first_pre());
    }
    a
}
fn chosen_bytes() -> (r: [u8; 10])
    ensures
        r@ == chosen_pre(),
{
    let a: [u8; 10] = [32, 32, 99, 104, 111, 115, 101, 110, 58, 32];
    proof {
        reveal(chosen_pre);
        assert(a@ =~= chosen_pre());
    }
    a
}
fn next_bytes() -> (r: [u8; 8])
    ensures
        r@ == next_pre(),
{
    let a: [u8; 8] = [32, 32, 110, 101, 120, 116, 58, 32];
    proof {
        reveal(next_pre);
        assert(a@ =~= next_pre());
    }
    a
}
fn count_bytes() -> (r: [u8; 9])
    ensures
        r@ == count_pre(),
{
    let a: [u8; 9] = [32, 32, 99, 111, 117, 110, 116, 58, 32];
    proof {
        reveal(count_pre);
        assert(a@ =~= count_pre());
    }
    a
}
fn pcode_bytes() -> (r: [u8; 15])
    ensures
        r@ == pcode_pre(),
{
    let a: [u8; 15] = [32, 32, 112, 97, 114, 101, 110, 116, 95, 99, 111, 100, 101, 58, 32];
    proof {
        reveal(pcode_pre);
        assert(a@ =~= pcode_pre());
    }
    a
}
fn pname_bytes() -> (r: [u8; 15])
    ensures
        r@ == pname_pre(),
{
    let a: [u8; 15] = [32, 32, 112, 97, 114, 101, 110, 116, 95, 110, 97, 109, 101, 58, 32];
    proof {
        reveal(pname_pre);
        assert(a@ =~= pname_pre());
    }
    a
}

/// One stored record line: a field prefix, a payload, a line break.
pub open spec fn line(prefix: Seq<u8>, payload: Seq<u8>) -> Seq<u8> {
    prefix + payload + seq![10u8]
}

/// The stored link line, present exactly when the item has a link.
pub open spec fn link_part(l: Option<Seq<u8>>) -> Seq<u8> {
    match l {
        Option::Some(x) => line(link_pre(), spec_encode(x)),
        Option::None => Seq::empty(),
    }
}

/// The stored record of one item.
pub open spec fn ser_item(t: ThingV) -> Seq<u8> {
    line(head_pre(), spec_encode(t.name)) + link_part(t.link) + line(
        created_pre(),
        dec_digits(t.created as int),
    ) + line(first_pre(), dec_digits(t.first_chosen as int)) + line(
        chosen_pre(),
        dec_digits(t.chosen as int),
    ) + line(next_pre(), dec_digits(t.next as int)) + line(
        count_pre(),
        dec_digits(t.count as int),
    ) + line(pcode_pre(), spec_encode(t.parent_code)) + line(
        pname_pre(),
        spec_encode(t.parent_name),
    )
}

/// The stored form of a whole item sequence.
pub open spec fn ser_items(s: Seq<ThingV>) -> Seq<u8>
    decreases s.len(),
{
    if s.len() == 0 {
        Seq::empty()
    } else {
        ser_item(s.first()) + ser_items(s.drop_first())
    }
}

/// A byte string appended to a buffer.
fn push_slice(out: &mut Vec<u8>, s: &[u8])
    ensures
        final(out)@ == old(out)@ + s@,
{
    let n: usize = s.len();
    let mut i: usize = 0;
    while i < n
        invariant
            n == s@.len(),
            0 <= i <= n,
            out@ == old(out)@ + s@.take(i as int),
        decreases n - i,
    {
        out.push(s[i]);
        proof {
            assert(old(out)@ + s@.take(i as int) + seq![s@[i as int]] =~= old(out)@ + s@.take(
                i + 1,
            ));
        }
        i += 1;
    }
    proof {
        assert(s@.take(n as int) =~= s@);
    }
}

/// One stored record line appended to a buffer.
fn push_line(out: &mut Vec<u8>, prefix: &[u8], payload: &[u8])
    ensures
        final(out)@ == old(out)@ + line(prefix@, payload@),
{
    push_slice(out, prefix);
    push_slice(out, payload);
    out.push(10);
    proof {
        assert(out@ =~= old(out)@ + line(prefix@, payload@));
    }
}

/// One numeric record line appended to a buffer.
fn push_num_line(out: &mut Vec<u8>, prefix: &[u8], v: u64)
    ensures
        final(out)@ == old(out)@ + line(prefix@, dec_digits(v as int)),
{
    push_slice(out, prefix);
    push_dec(v, out);
    out.push(10);
    proof {
        assert(out@ =~= old(out)@ + line(prefix@, dec_digits(v as int)));
    }
}

/// The stored record of one item, appended to a buffer.
pub fn push_item(out: &mut Vec<u8>, t: &Thing)
    ensures
        final(out)@ == old(out)@ + ser_item(t@),
{
    let enc_name = crate::encoding::percent_encode(t.name.as_slice());
    push_line(out, head_bytes().as_slice(), enc_name.as_slice());
    match &t.link {
        Option::Some(l) => {
            let enc_link = crate::encoding::percent_encode(l.as_slice());
            push_line(out, link_bytes().as_slice(), enc_link.as_slice());
        },
        Option::None => {},
    }
    push_num_line(out, created_bytes().as_slice(), t.created.0);
    push_num_line(out, first_bytes().as_slice(), t.first_chosen.0);
    push_num_line(out, chosen_bytes().as_slice(), t.chosen.0);
    push_num_line(out, next_bytes().as_slice(), t.next.0);
    push_num_line(out, count_bytes().as_slice(), t.count);
    let enc_code = crate::encoding::percent_encode(t.parent_code.as_slice());
    push_line(out, pcode_bytes().as_slice(), enc_code.as_slice());
    let enc_list = crate::encoding::percent_encode(t.parent_name.as_slice());
    push_line(out, pname_bytes().as_slice(), enc_list.as_slice());
    proof {
        assert(out@ =~= old(out)@ + ser_item(t@));
    }
}

/// The index of the first line break in a byte string, or -1.
pub open spec fn find_nl(s: Seq<u8>) -> int
    decreases s.len(),
{
    if s.len() == 0 {
        -1
    } else if s.first() == 10 {
        0
    } else {
        let r = find_nl(s.drop_first());
        if r < 0 {
            -1
        } else {
            r + 1
        }
    }
}

/// A line break at `k` with none before it is the first one.
pub proof fn lemma_find_nl_at(s: Seq<u8>, k: int)
    requires
        0 <= k < s.len(),
        s[k] == 10,
        forall|j: int| 0 <= j < k ==> (#[trigger] s[j]) != 10,
    ensures
        find_nl(s) == k,
    decreases k,
{
    if k > 0 {
        assert(s[0] != 10);
        assert forall|j: int| 0 <= j < k - 1 implies (#[trigger] s.drop_first()[j]) != 10 by {
            assert(s.drop_first()[j] == s[j + 1]);
        }
        assert(s.drop_first()[k - 1] == s[k]);
        lemma_find_nl_at(s.drop_first(), k - 1);
    }
}

/// No line break anywhere means no first one.
pub proof fn lemma_find_nl_none(s: Seq<u8>)
    requires
        forall|j: int| 0 <= j < s.len() ==> (#[trigger] s[j]) != 10,
    ensures
        find_nl(s) == -1,
    decreases s.len(),
{
    if s.len() > 0 {
        assert forall|j: int| 0 <= j < s.drop_first().len() implies (#[trigger] s.drop_first()[j])
            != 10 by {
            assert(s.drop_first()[j] == s[j + 1]);
        }
        lemma_find_nl_none(s.drop_first());
    }
}

/// What one stored record line accepts: everything up to the first line
/// break, provided it starts with the field prefix; the content after
/// the prefix and the number of bytes consumed.
pub open spec fn parse_line(s: Seq<u8>, prefix: Seq<u8>) -> Option<(Seq<u8>, int)> {
    let nl = find_nl(s);
    if nl < 0 {
        Option::None
    } else {
        let ln = s.take(nl);
        if ln.len() >= prefix.len() && ln.take(prefix.len() as int) == prefix {
            Option::Some((ln.skip(prefix.len() as int), nl + 1))
        } else {
            Option::None
        }
    }
}

/// What one numeric record line accepts.
pub open spec fn parse_num_line(s: Seq<u8>, prefix: Seq<u8>) -> Option<(u64, int)> {
    match parse_line(s, prefix) {
        Option::None => Option::None,
        Option::Some(pr) => match parse_num(pr.0) {
            Option::None => Option::None,
            Option::Some(v) => Option::Some((v, pr.1)),
        },
    }
}

/// What the five numeric lines of a record accept, in order:
/// created, first_chosen, chosen, next, count; and the bytes consumed.
pub open spec fn parse_nums(s: Seq<u8>) -> Option<((u64, u64, u64, u64, u64), int)> {
    match parse_num_line(s, created_pre()) {
        Option::None => Option::None,
        Option::Some(cr) => match parse_num_line(s.skip(cr.1), first_pre()) {
            Option::None => Option::None,
            Option::Some(fc) => match parse_num_line(s.skip(cr.1 + fc.1), chosen_pre()) {
                Option::None => Option::None,
                Option::Some(ch) => match parse_num_line(
                    s.skip(cr.1 + fc.1 + ch.1),
                    next_pre(),
                ) {
                    Option::None => Option::None,
                    Option::Some(nx) => match parse_num_line(
                        s.skip(cr.1 + fc.1 + ch.1 + nx.1),
                        count_pre(),
                    ) {
                        Option::None => Option::None,
                        Option::Some(ct) => Option::Some(
                            ((cr.0, fc.0, ch.0, nx.0, ct.0), cr.1 + fc.1 + ch.1 + nx.1 + ct.1),
                        ),
                    },
                },
            },
        },
    }
}

/// What the two owner lines of a record accept: the parent code and the
/// parent list name; and the bytes consumed.
pub open spec fn parse_owners(s: Seq<u8>) -> Option<((Seq<u8>, Seq<u8>), int)> {
    match parse_line(s, pcode_pre()) {
        Option::None => Option::None,
        Option::Some(pc) => match parse_line(s.skip(pc.1), pname_pre()) {
            Option::None => Option::None,
            Option::Some(pn) => Option::Some(
                ((spec_decode(pc.0), spec_decode(pn.0)), pc.1 + pn.1),
            ),
        },
    }
}

/// What one stored record accepts: the name line, an optional link line,
/// the five numeric lines, and the two owner lines, in that order; the
/// item and the number of bytes consumed.
#[verifier::opaque]
pub open spec fn parse_item(s: Seq<u8>) -> Option<(ThingV, int)> {
    match parse_line(s, head_pre()) {
        Option::None => Option::None,
        Option::Some(nm) => {
            let c1 = nm.1;
            let lk = parse_line(s.skip(c1), link_pre());
            let link = match lk {
                Option::Some(l) => Option::Some(spec_decode(l.0)),
                Option::None => Option::None,
            };
            let c2 = match lk {
                Option::Some(l) => c1 + l.1,
                Option::None => c1,
            };
            match parse_nums(s.skip(c2)) {
                Option::None => Option::None,
                Option::Some(ns) => match parse_owners(s.skip(c2 + ns.1)) {
                    Option::None => Option::None,
                    Option::Some(ow) => Option::Some(
                        (
                            ThingV {
                                name: spec_decode(nm.0),
                                link: link,
                                created: ns.0.0,
                                first_chosen: ns.0.1,
                                chosen: ns.0.2,
                                next: ns.0.3,
                                count: ns.0.4,
                                parent_code: ow.0.0,
                                parent_name: ow.0.1,
                            },
                            c2 + ns.1 + ow.1,
                        ),
                    ),
                },
            }
        },
    }
}

/// What the whole stored file accepts: a series of records covering
/// every byte; the item sequence in file order.
pub open spec fn parse_items(s: Seq<u8>) -> Option<Seq<ThingV>>
    decreases s.len(),
{
    if s.len() == 0 {
        Option::Some(Seq::empty())
    } else {
        match parse_item(s) {
            Option::None => Option::None,
            Option::Some(pr) => {
                if 1 <= pr.1 <= s.len() {
                    match parse_items(s.skip(pr.1)) {
                        Option::None => Option::None,
                        Option::Some(r) => Option::Some(seq![pr.0] + r),
                    }
                } else {
                    Option::None
                }
            },
        }
    }
}

/// One stored record line, read at an absolute position: the content
/// after the field prefix, and the position just past the line break.
fn scan_line(s: &[u8], pos: usize, prefix: &[u8]) -> (r: Option<(Vec<u8>, usize)>)
    requires
        pos <= s@.len(),
    ensures
        match r {
            Option::Some(pr) => {
                &&& parse_line(s@.skip(pos as int), prefix@) matches Option::Some(sp)
                    && sp.0 == pr.0@ && sp.1 == pr.1 - pos
                &&& pos < pr.1 <= s@.len()
            },
            Option::None => parse_line(s@.skip(pos as int), prefix@) is None,
        },
{
    let ghost suf = s@.skip(pos as int);
    let n: usize = s.len();
    let plen: usize = prefix.len();
    // find the line break
    let mut j: usize = pos;
    while j < n && s[j] != 10
        invariant
            pos <= j <= n,
            n == s@.len(),
            suf == s@.skip(pos as int),
            forall|l: int| pos <= l < j ==> (#[trigger] s@[l]) != 10,
        decreases n - j,
    {
        j += 1;
    }
    if j == n {
        proof {
            assert forall|l: int| 0 <= l < suf.len() implies (#[trigger] suf[l]) != 10 by {
                assert(suf[l] == s@[pos + l]);
            }
            lemma_find_nl_none(suf);
        }
        return Option::None;
    }
    proof {
        assert(suf[j - pos] == s@[j as int]);
        assert forall|l: int| 0 <= l < j - pos implies (#[trigger] suf[l]) != 10 by {
            assert(suf[l] == s@[pos + l]);
        }
        lemma_find_nl_at(suf, j - pos);
    }
    // check the field prefix
    if j - pos < plen {
        proof {
            assert(suf.take(j - pos).len() < prefix@.len());
        }
        return Option::None;
    }
    let ok = crate::bytes::match_at(s, prefix, pos);
    proof {
        assert(suf.take(j - pos).take(plen as int) =~= s@.subrange(pos as int, pos + plen));
        if ok {
            assert(suf.take(j - pos).take(plen as int) == prefix@);
        } else {
            assert(suf.take(j - pos).take(plen as int) != prefix@);
        }
    }
    if !ok {
        return Option::None;
    }
    let content = crate::bytes::copy_range(s, pos + plen, j);
    proof {
        assert(content@ =~= suf.take(j - pos).skip(plen as int));
    }
    Option::Some((content, j + 1))
}

/// The five numeric lines of a record, read at an absolute position.
fn scan_nums(s: &[u8], pos: usize) -> (r: Option<((u64, u64, u64, u64, u64), usize)>)
    requires
        pos <= s@.len(),
    ensures
        match r {
            Option::Some(pr) => {
                &&& parse_nums(s@.skip(pos as int)) matches Option::Some(sp) && sp.0 == pr.0
                    && sp.1 == pr.1 - pos
                &&& pos < pr.1 <= s@.len()
            },
            Option::None => parse_nums(s@.skip(pos as int)) is None,
        },
{
    let ghost suf = s@.skip(pos as int);
    let cr = match scan_num_line(s, pos, created_bytes().as_slice()) {
        Option::Some(x) => x,
        Option::None => {
            return Option::None;
        },
    };
    proof {
        assert(suf.skip(cr.1 - pos) =~= s@.skip(cr.1 as int));
    }
    let fc = match scan_num_line(s, cr.1, first_bytes().as_slice()) {
        Option::Some(x) => x,
        Option::None => {
            return Option::None;
        },
    };
    proof {
        assert(suf.skip(fc.1 - pos) =~= s@.skip(fc.1 as int));
    }
    let ch = match scan_num_line(s, fc.1, chosen_bytes().as_slice()) {
        Option::Some(x) => x,
        Option::None => {
            return Option::None;
        },
    };
    proof {
        assert(suf.skip(ch.1 - pos) =~= s@.skip(ch.1 as int));
    }
    let nx = match scan_num_line(s, ch.1, next_bytes().as_slice()) {
        Option::Some(x) => x,
        Option::None => {
            return Option::None;
        },
    };
    proof {
        assert(suf.skip(nx.1 - pos) =~= s@.skip(nx.1 as int));
    }
    let ct = match scan_num_line(s, nx.1, count_bytes().as_slice()) {
        Option::Some(x) => x,
        Option::None => {
            return Option::None;
        },
    };
    Option::Some(((cr.0, fc.0, ch.0, nx.0, ct.0), ct.1))
}

/// The two owner lines of a record, read at an absolute position.
fn scan_owners(s: &[u8], pos: usize) -> (r: Option<((Vec<u8>, Vec<u8>), usize)>)
    requires
        pos <= s@.len(),
    ensures
        match r {
            Option::Some(pr) => {
                &&& parse_owners(s@.skip(pos as int)) matches Option::Some(sp) && sp.0.0
                    == pr.0.0@ && sp.0.1 == pr.0.1@ && sp.1 == pr.1 - pos
                &&& pos < pr.1 <= s@.len()
            },
            Option::None => parse_owners(s@.skip(pos as int)) is None,
        },
{
    let ghost suf = s@.skip(pos as int);
    let pc = match scan_line(s, pos, pcode_bytes().as_slice()) {
        Option::Some(x) => x,
        Option::None => {
            return Option::None;
        },
    };
    proof {
        assert(suf.skip(pc.1 - pos) =~= s@.skip(pc.1 as int));
    }
    let pn = match scan_line(s, pc.1, pname_bytes().as_slice()) {
        Option::Some(x) => x,
        Option::None => {
            return Option::None;
        },
    };
    let code = crate::encoding::percent_decode(pc.0.as_slice());
    let name = crate::encoding::percent_decode(pn.0.as_slice());
    Option::Some(((code, name), pn.1))
}

/// A failing name line fails the record.
proof fn lemma_parse_item_none_head(s: Seq<u8>)
    requires
        parse_line(s, head_pre()) is None,
    ensures
        parse_item(s) is None,
{
    reveal(parse_item);
}

/// Failing numeric lines fail the record.
proof fn lemma_parse_item_none_nums(s: Seq<u8>, nm: (Seq<u8>, int), c2: int)
    requires
        parse_line(s, head_pre()) == Option::Some(nm),
        c2 == (match parse_line(s.skip(nm.1), link_pre()) {
            Option::Some(l) => nm.1 + l.1,
            Option::None => nm.1,
        }),
        parse_nums(s.skip(c2)) is None,
    ensures
        parse_item(s) is None,
{
    reveal(parse_item);
}

/// Failing owner lines fail the record.
proof fn lemma_parse_item_none_owners(
    s: Seq<u8>,
    nm: (Seq<u8>, int),
    c2: int,
    ns: ((u64, u64, u64, u64, u64), int),
)
    requires
        parse_line(s, head_pre()) == Option::Some(nm),
        c2 == (match parse_line(s.skip(nm.1), link_pre()) {
            Option::Some(l) => nm.1 + l.1,
            Option::None => nm.1,
        }),
        parse_nums(s.skip(c2)) == Option::Some(ns),
        parse_owners(s.skip(c2 + ns.1)) is None,
    ensures
        parse_item(s) is None,
{
    reveal(parse_item);
}

/// A full chain of accepted lines accepts the record.
proof fn lemma_parse_item_compose(
    s: Seq<u8>,
    nm: (Seq<u8>, int),
    c2: int,
    ns: ((u64, u64, u64, u64, u64), int),
    ow: ((Seq<u8>, Seq<u8>), int),
)
    requires
        parse_line(s, head_pre()) == Option::Some(nm),
        c2 == (match parse_line(s.skip(nm.1), link_pre()) {
            Option::Some(l) => nm.1 + l.1,
            Option::None => nm.1,
        }),
        parse_nums(s.skip(c2)) == Option::Some(ns),
        parse_owners(s.skip(c2 + ns.1)) == Option::Some(ow),
    ensures
        parse_item(s) == Option::Some(
            (
                ThingV {
                    name: spec_decode(nm.0),
                    link: match parse_line(s.skip(nm.1), link_pre()) {
                        Option::Some(l) => Option::Some(spec_decode(l.0)),
                        Option::None => Option::None,
                    },
                    created: ns.0.0,
                    first_chosen: ns.0.1,
                    chosen: ns.0.2,
                    next: ns.0.3,
                    count: ns.0.4,
                    parent_code: ow.0.0,
                    parent_name: ow.0.1,
                },
                c2 + ns.1 + ow.1,
            ),
        ),
{
    reveal(parse_item);
}

/// One stored record, read at an absolute position: the item and the
/// position just past its last line.
fn parse_item_at(s: &[u8], pos: usize) -> (r: Option<(Thing, usize)>)
    requires
        pos <= s@.len(),
    ensures
        match r {
            Option::Some(pr) => {
                &&& parse_item(s@.skip(pos as int)) matches Option::Some(sp) && sp.0 == pr.0@
                    && sp.1 == pr.1 - pos
                &&& pos < pr.1 <= s@.len()
            },
            Option::None => parse_item(s@.skip(pos as int)) is None,
        },
{
    let ghost suf = s@.skip(pos as int);
    let nm = match scan_line(s, pos, head_bytes().as_slice()) {
        Option::Some(x) => x,
        Option::None => {
            proof {
                lemma_parse_item_none_head(suf);
            }
            return Option::None;
        },
    };
    let name = crate::encoding::percent_decode(nm.0.as_slice());
    let p1: usize = nm.1;
    let ghost nm_sp = (nm.0@, p1 - pos as int);
    proof {
        assert(suf.skip(p1 - pos) =~= s@.skip(p1 as int));
    }
    let (link, p2): (Option<Vec<u8>>, usize) = match scan_line(
        s,
        p1,
        link_bytes().as_slice(),
    ) {
        Option::Some(x) => (Option::Some(crate::encoding::percent_decode(x.0.as_slice())), x.1),
        Option::None => (Option::None, p1),
    };
    let ghost c2 = p2 - pos as int;
    proof {
        assert(suf.skip(p2 - pos) =~= s@.skip(p2 as int));
        assert(c2 == (match parse_line(suf.skip(nm_sp.1), link_pre()) {
            Option::Some(l) => nm_sp.1 + l.1,
            Option::None => nm_sp.1,
        }));
    }
    let ns = match scan_nums(s, p2) {
        Option::Some(x) => x,
        Option::None => {
            proof {
                lemma_parse_item_none_nums(suf, nm_sp, c2);
            }
            return Option::None;
        },
    };
    let ghost ns_sp = (ns.0, ns.1 - pos as int);
    proof {
        assert(suf.skip(ns.1 - pos) =~= s@.skip(ns.1 as int));
        assert(ns_sp.1 - c2 == ns.1 - p2);
    }
    let ow = match scan_owners(s, ns.1) {
        Option::Some(x) => x,
        Option::None => {
            proof {
                lemma_parse_item_none_owners(suf, nm_sp, c2, (ns.0, ns_sp.1 - c2));
            }
            return Option::None;
        },
    };
    let (code_v, name_v) = ow.0;
    let t = Thing {
        name: name,
        link: link,
        created: crate::time::Time(ns.0.0),
        first_chosen: crate::time::Time(ns.0.1),
        chosen: crate::time::Time(ns.0.2),
        next: crate::time::Time(ns.0.3),
        count: ns.0.4,
        parent_code: code_v,
        parent_name: name_v,
    };
    proof {
        lemma_parse_item_compose(
            suf,
            nm_sp,
            c2,
            (ns.0, ns_sp.1 - c2),
            ((code_v@, name_v@), ow.1 - ns.1 as int),
        );
        assert(parse_item(suf) matches Option::Some(sp) && sp.0 == t@ && sp.1 == ow.1 - pos);
    }
    Option::Some((t, ow.1))
}

/// One numeric record line, read at an absolute position.
fn scan_num_line(s: &[u8], pos: usize, prefix: &[u8]) -> (r: Option<(u64, usize)>)
    requires
        pos <= s@.len(),
    ensures
        match r {
            Option::Some(pr) => {
                &&& parse_num_line(s@.skip(pos as int), prefix@) matches Option::Some(sp)
                    && sp.0 == pr.0 && sp.1 == pr.1 - pos
                &&& pos < pr.1 <= s@.len()
            },
            Option::None => parse_num_line(s@.skip(pos as int), prefix@) is None,
        },
{
    match scan_line(s, pos, prefix) {
        Option::None => Option::None,
        Option::Some(pr) => {
            match parse_u64(pr.0.as_slice()) {
                Option::None => Option::None,
                Option::Some(v) => Option::Some((v, pr.1)),
            }
        },
    }
}

/// An item sequence prepended to an optional parse result, reassociated.
proof fn lemma_opt_cat_assoc(a: Seq<ThingV>, b: Seq<ThingV>, o: Option<Seq<ThingV>>)
    ensures
        opt_cat(a, opt_cat(b, o)) == opt_cat(a + b, o),
{
    match o {
        Option::Some(r) => {
            assert(a + (b + r) =~= (a + b) + r);
        },
        Option::None => {},
    }
}

/// One record peeled off the front of the whole-file parse.
proof fn lemma_parse_items_step(s: Seq<u8>, t: ThingV, c: int)
    requires
        s.len() > 0,
        parse_item(s) matches Option::Some(pr) && pr.0 == t && pr.1 == c,
        1 <= c <= s.len(),
    ensures
        parse_items(s) == opt_cat(seq![t], parse_items(s.skip(c))),
{
}

/// The whole stored file, parsed into items; `None` on any malformed
/// byte.
#[verifier::rlimit(100)]
pub fn parse_stored(s: &[u8]) -> (r: Option<Vec<Thing>>)
    ensures
        match r {
            Option::Some(v) => parse_items(s@) == Option::Some(crate::list::views(v@)),
            Option::None => parse_items(s@) is None,
        },
{
    let n: usize = s.len();
    let mut acc: Vec<Thing> = Vec::new();
    let mut pos: usize = 0;
    proof {
        assert(s@.skip(0) =~= s@);
        assert(crate::list::views(acc@) =~= Seq::<ThingV>::empty());
        match parse_items(s@) {
            Option::Some(r) => {
                assert(Seq::<ThingV>::empty() + r =~= r);
            },
            Option::None => {},
        }
    }
    while pos < n
        invariant
            n == s@.len(),
            0 <= pos <= n,
            parse_items(s@) == opt_cat(crate::list::views(acc@), parse_items(s@.skip(pos as int))),
        decreases n - pos,
    {
        let pr = match parse_item_at(s, pos) {
            Option::Some(x) => x,
            Option::None => {
                return Option::None;
            },
        };
        let ghost va = acc@;
        let t = pr.0;
        acc.push(t);
        proof {
            let suf = s@.skip(pos as int);
            assert(suf.skip(pr.1 - pos) =~= s@.skip(pr.1 as int));
            lemma_parse_items_step(suf, t@, pr.1 - pos);
            lemma_opt_cat_assoc(crate::list::views(va), seq![t@], parse_items(s@.skip(pr.1 as int)));
            assert(crate::list::views(acc@) =~= crate::list::views(va) + seq![t@]);
        }
        pos = pr.1;
    }
    proof {
        assert(s@.skip(n as int) =~= Seq::<u8>::empty());
        assert(crate::list::views(acc@) + Seq::<ThingV>::empty() =~= crate::list::views(acc@));
    }
    Option::Some(acc)
}

/// An item sequence prepended to an optional parse result.
pub open spec fn opt_cat(a: Seq<ThingV>, o: Option<Seq<ThingV>>) -> Option<Seq<ThingV>> {
    match o {
        Option::None => Option::None,
        Option::Some(r) => Option::Some(a + r),
    }
}

/// Whether a byte string holds no line break.
pub open spec fn no_newline(s: Seq<u8>) -> bool {
    forall|i: int| 0 <= i < s.len() ==> (#[trigger] s[i]) != 10
}

/// Every field prefix is line-break free.
proof fn lemma_prefixes_clean()
    ensures
        no_newline(head_pre()) && head_pre().len() == 8,
        no_newline(link_pre()) && link_pre().len() == 8,
        no_newline(created_pre()) && created_pre().len() == 11,
        no_newline(first_pre()) && first_pre().len() == 16,
        no_newline(chosen_pre()) && chosen_pre().len() == 10,
        no_newline(next_pre()) && next_pre().len() == 8,
        no_newline(count_pre()) && count_pre().len() == 9,
        no_newline(pcode_pre()) && pcode_pre().len() == 15,
        no_newline(pname_pre()) && pname_pre().len() == 15,
{
    reveal(head_pre);
    reveal(link_pre);
    reveal(created_pre);
    reveal(first_pre);
    reveal(chosen_pre);
    reveal(next_pre);
    reveal(count_pre);
    reveal(pcode_pre);
    reveal(pname_pre);
}

/// The first line break of a line-break-free string followed by one is
/// exactly there.
proof fn lemma_find_nl_concat(a: Seq<u8>, b: Seq<u8>)
    requires
        no_newline(a),
    ensures
        find_nl(a + seq![10u8] + b) == a.len(),
{
    let s = a + seq![10u8] + b;
    assert(s[a.len() as int] == 10);
    assert forall|j: int| 0 <= j < a.len() implies (#[trigger] s[j]) != 10 by {
        assert(s[j] == a[j]);
    }
    lemma_find_nl_at(s, a.len() as int);
}

/// One serialized line followed by anything parses back to its payload.
proof fn lemma_parse_line_of_line(prefix: Seq<u8>, payload: Seq<u8>, rest: Seq<u8>)
    requires
        no_newline(prefix),
        no_newline(payload),
    ensures
        parse_line(line(prefix, payload) + rest, prefix) == Option::Some(
            (payload, prefix.len() + payload.len() + 1 as int),
        ),
        line(prefix, payload).len() == prefix.len() + payload.len() + 1,
{
    let s = line(prefix, payload) + rest;
    let a = prefix + payload;
    assert(no_newline(a)) by {
        assert forall|i: int| 0 <= i < a.len() implies (#[trigger] a[i]) != 10 by {
            if i < prefix.len() {
                assert(a[i] == prefix[i]);
            } else {
                assert(a[i] == payload[i - prefix.len()]);
            }
        }
    }
    assert(s =~= a + seq![10u8] + rest);
    lemma_find_nl_concat(a, rest);
    let nl = find_nl(s);
    assert(nl == a.len());
    assert(s.take(nl) =~= a);
    assert(a.take(prefix.len() as int) =~= prefix);
    assert(a.skip(prefix.len() as int) =~= payload);
}

/// A serialized line never parses under a prefix that differs somewhere
/// within it.
proof fn lemma_parse_line_mismatch(
    pfx_in: Seq<u8>,
    payload: Seq<u8>,
    rest: Seq<u8>,
    pfx_ask: Seq<u8>,
    idx: int,
)
    requires
        no_newline(pfx_in),
        no_newline(payload),
        0 <= idx < pfx_ask.len() <= pfx_in.len(),
        pfx_in[idx] != pfx_ask[idx],
    ensures
        parse_line(line(pfx_in, payload) + rest, pfx_ask) is None,
{
    let s = line(pfx_in, payload) + rest;
    let a = pfx_in + payload;
    assert(no_newline(a)) by {
        assert forall|i: int| 0 <= i < a.len() implies (#[trigger] a[i]) != 10 by {
            if i < pfx_in.len() {
                assert(a[i] == pfx_in[i]);
            } else {
                assert(a[i] == payload[i - pfx_in.len()]);
            }
        }
    }
    assert(s =~= a + seq![10u8] + rest);
    lemma_find_nl_concat(a, rest);
    let nl = find_nl(s);
    assert(s.take(nl) =~= a);
    assert(a.take(pfx_ask.len() as int)[idx] == pfx_in[idx]);
    assert(a.take(pfx_ask.len() as int) != pfx_ask);
}

/// The numeric section of a stored record.
pub open spec fn ser_nums(t: ThingV) -> Seq<u8> {
    line(created_pre(), dec_digits(t.created as int)) + line(
        first_pre(),
        dec_digits(t.first_chosen as int),
    ) + line(chosen_pre(), dec_digits(t.chosen as int)) + line(
        next_pre(),
        dec_digits(t.next as int),
    ) + line(count_pre(), dec_digits(t.count as int))
}

/// The owner section of a stored record.
pub open spec fn ser_owners(t: ThingV) -> Seq<u8> {
    line(pcode_pre(), spec_encode(t.parent_code)) + line(pname_pre(), spec_encode(t.parent_name))
}

/// The serialized numeric section followed by anything parses back to
/// the five tick values.
#[verifier::rlimit(100)]
#[verifier::spinoff_prover]
proof fn lemma_parse_nums_of_ser(t: ThingV, rest: Seq<u8>)
    ensures
        parse_nums(ser_nums(t) + rest) == Option::Some(
            ((t.created, t.first_chosen, t.chosen, t.next, t.count), ser_nums(t).len() as int),
        ),
{
    lemma_prefixes_clean();
    let s = ser_nums(t) + rest;
    let l3 = line(created_pre(), dec_digits(t.created as int));
    let l4 = line(first_pre(), dec_digits(t.first_chosen as int));
    let l5 = line(chosen_pre(), dec_digits(t.chosen as int));
    let l6 = line(next_pre(), dec_digits(t.next as int));
    let l7 = line(count_pre(), dec_digits(t.count as int));
    let r3 = l4 + l5 + l6 + l7 + rest;
    assert(s =~= l3 + r3);
    lemma_parse_num_line_of_line(created_pre(), t.created, r3);
    assert(s.skip(l3.len() as int) =~= r3);
    let r4 = l5 + l6 + l7 + rest;
    assert(r3 =~= l4 + r4);
    lemma_parse_num_line_of_line(first_pre(), t.first_chosen, r4);
    assert(r3.skip(l4.len() as int) =~= r4);
    assert(s.skip(l3.len() + l4.len() as int) =~= r4);
    let r5 = l6 + l7 + rest;
    assert(r4 =~= l5 + r5);
    lemma_parse_num_line_of_line(chosen_pre(), t.chosen, r5);
    assert(s.skip(l3.len() + l4.len() + l5.len() as int) =~= r5);
    let r6 = l7 + rest;
    assert(r5 =~= l6 + r6);
    lemma_parse_num_line_of_line(next_pre(), t.next, r6);
    assert(s.skip(l3.len() + l4.len() + l5.len() + l6.len() as int) =~= r6);
    assert(r6 =~= l7 + rest);
    lemma_parse_num_line_of_line(count_pre(), t.count, rest);
    assert(ser_nums(t).len() == l3.len() + l4.len() + l5.len() + l6.len() + l7.len());
}

/// The serialized owner section followed by anything parses back to the
/// two owner names.
proof fn lemma_parse_owners_of_ser(t: ThingV, rest: Seq<u8>)
    ensures
        parse_owners(ser_owners(t) + rest) == Option::Some(
            ((t.parent_code, t.parent_name), ser_owners(t).len() as int),
        ),
{
    lemma_prefixes_clean();
    let s = ser_owners(t) + rest;
    let l8 = line(pcode_pre(), spec_encode(t.parent_code));
    let l9 = line(pname_pre(), spec_encode(t.parent_name));
    crate::encoding::lemma_encode_no_newline(t.parent_code);
    crate::encoding::lemma_encode_no_newline(t.parent_name);
    let r8 = l9 + rest;
    assert(s =~= l8 + r8);
    lemma_parse_line_of_line(pcode_pre(), spec_encode(t.parent_code), r8);
    assert(s.skip(l8.len() as int) =~= r8);
    lemma_parse_line_of_line(pname_pre(), spec_encode(t.parent_name), rest);
    crate::encoding::lemma_decode_encode(t.parent_code);
    crate::encoding::lemma_decode_encode(t.parent_name);
}

/// One serialized record followed by anything parses back to its item.
/// One serialized record with a link parses back to its item.
#[verifier::rlimit(100)]
#[verifier::spinoff_prover]
proof fn lemma_parse_item_of_ser_some(t: ThingV, lv: Seq<u8>, rest: Seq<u8>)
    requires
        t.link == Option::Some(lv),
    ensures
        parse_item(ser_item(t) + rest) == Option::Some((t, ser_item(t).len() as int)),
{
    lemma_prefixes_clean();
    let s = ser_item(t) + rest;
    let l1 = line(head_pre(), spec_encode(t.name));
    crate::encoding::lemma_encode_no_newline(t.name);
    crate::encoding::lemma_decode_encode(t.name);
    let r1 = link_part(t.link) + ser_nums(t) + ser_owners(t) + rest;
    assert(s =~= l1 + r1);
    lemma_parse_line_of_line(head_pre(), spec_encode(t.name), r1);
    let c1 = l1.len() as int;
    assert(s.skip(c1) =~= r1);
    let rn = ser_owners(t) + rest;

        crate::encoding::lemma_encode_no_newline(lv);
        crate::encoding::lemma_decode_encode(lv);
        let l2 = line(link_pre(), spec_encode(lv));
        let r2 = ser_nums(t) + ser_owners(t) + rest;
        assert(r1 =~= l2 + r2);
        lemma_parse_line_of_line(link_pre(), spec_encode(lv), r2);
        let c2 = c1 + l2.len() as int;
        assert(s.skip(c2) =~= r2);
        assert(r2 =~= ser_nums(t) + rn);
        lemma_parse_nums_of_ser(t, rn);
        let c3 = c2 + ser_nums(t).len() as int;
        assert(s.skip(c3) =~= rn);
        lemma_parse_owners_of_ser(t, rest);
        let c4 = c3 + ser_owners(t).len() as int;
        assert(ser_item(t).len() as int == c4);
        assert(parse_item(s) == Option::Some((t, ser_item(t).len() as int))) by {
            reveal(parse_item);
            assert(parse_line(s, head_pre()) == Option::Some((spec_encode(t.name), c1)));
            assert(parse_line(s.skip(c1), link_pre()) == Option::Some(
                (spec_encode(lv), l2.len() as int),
            ));
            assert(parse_nums(s.skip(c2)) == Option::Some(
                (
                    (t.created, t.first_chosen, t.chosen, t.next, t.count),
                    ser_nums(t).len() as int,
                ),
            ));
            assert(parse_owners(s.skip(c3)) == Option::Some(
                ((t.parent_code, t.parent_name), ser_owners(t).len() as int),
            ));
            assert(parse_item(s) matches Option::Some(pr) && pr.0 =~= t && pr.1 == c4);
        }
    
}

/// One serialized record without a link parses back to its item.
#[verifier::rlimit(100)]
#[verifier::spinoff_prover]
proof fn lemma_parse_item_of_ser_none(t: ThingV, rest: Seq<u8>)
    requires
        t.link is None,
    ensures
        parse_item(ser_item(t) + rest) == Option::Some((t, ser_item(t).len() as int)),
{
    lemma_prefixes_clean();
    let s = ser_item(t) + rest;
    let l1 = line(head_pre(), spec_encode(t.name));
    crate::encoding::lemma_encode_no_newline(t.name);
    crate::encoding::lemma_decode_encode(t.name);
    let r1 = link_part(t.link) + ser_nums(t) + ser_owners(t) + rest;
    assert(s =~= l1 + r1);
    lemma_parse_line_of_line(head_pre(), spec_encode(t.name), r1);
    let c1 = l1.len() as int;
    assert(s.skip(c1) =~= r1);
    let rn = ser_owners(t) + rest;

        // no link line: the next line is the created line, whose
        // prefix differs from the link prefix
        assert(link_part(t.link) =~= Seq::<u8>::empty());
        let r2 = ser_nums(t) + ser_owners(t) + rest;
        assert(r1 =~= r2);
        let rc = line(first_pre(), dec_digits(t.first_chosen as int)) + line(
            chosen_pre(),
            dec_digits(t.chosen as int),
        ) + line(next_pre(), dec_digits(t.next as int)) + line(
            count_pre(),
            dec_digits(t.count as int),
        ) + ser_owners(t) + rest;
        assert(r2 =~= line(created_pre(), dec_digits(t.created as int)) + rc);
        lemma_dec_digits_are_digits(t.created as int);
        assert(created_pre()[2] == 99 && link_pre()[2] == 108) by {
            reveal(created_pre);
            reveal(link_pre);
        }
        lemma_parse_line_mismatch(
            created_pre(),
            dec_digits(t.created as int),
            rc,
            link_pre(),
            2,
        );
        assert(parse_line(s.skip(c1), link_pre()) is None);
        assert(r2 =~= ser_nums(t) + rn);
        lemma_parse_nums_of_ser(t, rn);
        let c3 = c1 + ser_nums(t).len() as int;
        assert(s.skip(c3) =~= rn);
        lemma_parse_owners_of_ser(t, rest);
        let c4 = c3 + ser_owners(t).len() as int;
        assert(ser_item(t).len() as int == c4);
        assert(parse_item(s) == Option::Some((t, ser_item(t).len() as int))) by {
            reveal(parse_item);
            assert(parse_line(s, head_pre()) == Option::Some((spec_encode(t.name), c1)));
            assert(parse_line(s.skip(c1), link_pre()) is None);
            assert(parse_nums(s.skip(c1)) == Option::Some(
                (
                    (t.created, t.first_chosen, t.chosen, t.next, t.count),
                    ser_nums(t).len() as int,
                ),
            ));
            assert(parse_owners(s.skip(c3)) == Option::Some(
                ((t.parent_code, t.parent_name), ser_owners(t).len() as int),
            ));
            assert(parse_item(s) matches Option::Some(pr) && pr.0 =~= t && pr.1 == c4);
        }
    
}

/// One serialized record followed by anything parses back to its item.
proof fn lemma_parse_item_of_ser(t: ThingV, rest: Seq<u8>)
    ensures
        parse_item(ser_item(t) + rest) == Option::Some((t, ser_item(t).len() as int)),
{
    match t.link {
        Option::Some(lv) => {
            lemma_parse_item_of_ser_some(t, lv, rest);
        },
        Option::None => {
            lemma_parse_item_of_ser_none(t, rest);
        },
    }
}

/// Parsing inverts serialization on every item sequence: what `save`
/// writes, `load` reads back unchanged.
pub proof fn lemma_store_round_trip(s: Seq<ThingV>)
    ensures
        parse_items(ser_items(s)) == Option::Some(s),
    decreases s.len(),
{
    if s.len() > 0 {
        lemma_store_round_trip(s.drop_first());
        let t = s.first();
        let rest = ser_items(s.drop_first());
        lemma_parse_item_of_ser(t, rest);
        let b = ser_items(s);
        assert(b =~= ser_item(t) + rest);
        let n = ser_item(t).len() as int;
        assert(b.len() == n + rest.len());
        assert(line(head_pre(), spec_encode(t.name)).len() >= 1);
        assert(n >= 1);
        assert(b.skip(n) =~= rest);
        assert(seq![t] + s.drop_first() =~= s);
    }
}

/// One serialized numeric line followed by anything parses back to its
/// number.
proof fn lemma_parse_num_line_of_line(prefix: Seq<u8>, v: u64, rest: Seq<u8>)
    requires
        no_newline(prefix),
    ensures
        parse_num_line(line(prefix, dec_digits(v as int)) + rest, prefix) == Option::Some(
            (v, prefix.len() + dec_digits(v as int).len() + 1 as int),
        ),
{
    lemma_dec_digits_are_digits(v as int);
    lemma_parse_line_of_line(prefix, dec_digits(v as int), rest);
    lemma_parse_print(v);
}

} // verus!
