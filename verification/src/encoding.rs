//! Percent encoding and decoding of byte strings.
//!
//! The decoder is the general `%XX` form used for path segments: a `%`
//! followed by two hex digits becomes one byte, and a malformed escape is
//! passed through unchanged.  The encoder escapes only what the stored
//! record format cannot hold raw — `%` itself and line breaks — and the
//! decoder is proved to invert it on every byte string.

use vstd::arithmetic::div_mod::lemma_fundamental_div_mod;
use vstd::prelude::*;

verus! {

/// Whether a byte is an ASCII hex digit.
pub open spec fn is_hex(b: u8) -> bool {
    (48 <= b <= 57) || (65 <= b <= 70) || (97 <= b <= 102)
}

/// The value of an ASCII hex digit.
pub open spec fn hex_val(b: u8) -> u8 {
    if b <= 57 {
        (b - 48) as u8
    } else if b <= 70 {
        (b - 55) as u8
    } else {
        (b - 87) as u8
    }
}

/// The upper-case hex digit for a value below sixteen.
pub open spec fn hex_digit(n: u8) -> u8 {
    if n < 10 {
        (48 + n) as u8
    } else {
        (55 + n) as u8
    }
}

/// Whether a byte must be escaped in the stored record format: the
/// escape lead-in itself, and both line-break bytes.
pub open spec fn needs_escape(b: u8) -> bool {
    b == 37 || b == 10 || b == 13
}

/// What encoding one byte yields.
pub open spec fn enc_byte(b: u8) -> Seq<u8> {
    if needs_escape(b) {
        seq![37u8, hex_digit(b / 16), hex_digit(b % 16)]
    } else {
        seq![b]
    }
}

/// The escaped form of a byte string.
pub open spec fn spec_encode(s: Seq<u8>) -> Seq<u8>
    decreases s.len(),
{
    if s.len() == 0 {
        Seq::empty()
    } else {
        enc_byte(s.first()) + spec_encode(s.drop_first())
    }
}

/// The decoded form of a byte string: each `%XX` escape becomes one
/// byte, anything else is passed through unchanged.
pub open spec fn spec_decode(s: Seq<u8>) -> Seq<u8>
    decreases s.len(),
{
    if s.len() == 0 {
        Seq::empty()
    } else if s[0] == 37 && s.len() >= 3 && is_hex(s[1]) && is_hex(s[2]) {
        seq![(16 * hex_val(s[1]) + hex_val(s[2])) as u8] + spec_decode(s.skip(3))
    } else {
        seq![s[0]] + spec_decode(s.skip(1))
    }
}

/// The encoded form never holds a raw line break.
pub proof fn lemma_encode_no_newline(s: Seq<u8>)
    ensures
        forall|i: int| 0 <= i < spec_encode(s).len() ==> spec_encode(s)[i] != 10,
    decreases s.len(),
{
    if s.len() > 0 {
        lemma_encode_no_newline(s.drop_first());
        let e0 = enc_byte(s.first());
        assert forall|i: int| 0 <= i < spec_encode(s).len() implies spec_encode(s)[i] != 10 by {
            if i < e0.len() {
                assert(spec_encode(s)[i] == e0[i]);
            } else {
                assert(spec_encode(s)[i] == spec_encode(s.drop_first())[i - e0.len()]);
            }
        }
    }
}

/// Decoding inverts encoding on every byte string.
pub proof fn lemma_decode_encode(s: Seq<u8>)
    ensures
        spec_decode(spec_encode(s)) == s,
    decreases s.len(),
{
    if s.len() > 0 {
        lemma_decode_encode(s.drop_first());
        let b = s.first();
        let e = spec_encode(s);
        if needs_escape(b) {
            lemma_fundamental_div_mod(b as int, 16);
            assert(is_hex(hex_digit(b / 16)));
            assert(is_hex(hex_digit(b % 16)));
            assert(hex_val(hex_digit(b / 16)) == b / 16);
            assert(hex_val(hex_digit(b % 16)) == b % 16);
            assert(e.skip(3) =~= spec_encode(s.drop_first()));
            assert(spec_decode(e) =~= seq![b] + s.drop_first());
        } else {
            assert(e[0] == b && b != 37);
            assert(e.skip(1) =~= spec_encode(s.drop_first()));
            assert(spec_decode(e) =~= seq![b] + s.drop_first());
        }
        assert(seq![b] + s.drop_first() =~= s);
    }
}

/// The escaped form of a byte string, safe for one stored record line.
pub fn percent_encode(input: &[u8]) -> (r: Vec<u8>)
    ensures
        r@ == spec_encode(input@),
{
    let n: usize = input.len();
    let mut out: Vec<u8> = Vec::new();
    let mut i: usize = 0;
    proof {
        assert(input@.skip(0) =~= input@);
    }
    while i < n
        invariant
            n == input@.len(),
            0 <= i <= n,
            spec_encode(input@) == out@ + spec_encode(input@.skip(i as int)),
        decreases n - i,
    {
        let b: u8 = input[i];
        let ghost pre = out@;
        if b == 37 || b == 10 || b == 13 {
            out.push(37);
            let hi: u8 = b / 16;
            let lo: u8 = b % 16;
            out.push(if hi < 10 { 48 + hi } else { 55 + hi });
            out.push(if lo < 10 { 48 + lo } else { 55 + lo });
        } else {
            out.push(b);
        }
        proof {
            assert(input@.skip(i as int).first() == input@[i as int]);
            assert(input@.skip(i as int).drop_first() =~= input@.skip(i + 1));
            assert(out@ =~= pre + enc_byte(input@[i as int]));
            assert(pre + enc_byte(input@[i as int]) + spec_encode(input@.skip(i + 1)) =~= pre
                + spec_encode(input@.skip(i as int)));
        }
        i += 1;
    }
    proof {
        assert(input@.skip(n as int) =~= Seq::<u8>::empty());
        assert(out@ =~= spec_encode(input@));
    }
    out
}

/// The decoded form of a byte string: each well-formed `%XX` escape
/// becomes one byte, and a malformed escape is passed through unchanged.
pub fn percent_decode(input: &[u8]) -> (r: Vec<u8>)
    ensures
        r@ == spec_decode(input@),
{
    let n: usize = input.len();
    let mut out: Vec<u8> = Vec::new();
    let mut i: usize = 0;
    proof {
        assert(input@.skip(0) =~= input@);
    }
    while i < n
        invariant
            n == input@.len(),
            0 <= i <= n,
            spec_decode(input@) == out@ + spec_decode(input@.skip(i as int)),
        decreases n - i,
    {
        let b: u8 = input[i];
        let ghost pre = out@;
        let ghost suf = input@.skip(i as int);
        let mut step: usize = 1;
        if b == 37 && n - i >= 3 {
            let h1: u8 = input[i + 1];
            let h2: u8 = input[i + 2];
            let hex1 = (48 <= h1 && h1 <= 57) || (65 <= h1 && h1 <= 70) || (97 <= h1 && h1
                <= 102);
            let hex2 = (48 <= h2 && h2 <= 57) || (65 <= h2 && h2 <= 70) || (97 <= h2 && h2
                <= 102);
            if hex1 && hex2 {
                let v1: u8 = if h1 <= 57 {
                    h1 - 48
                } else if h1 <= 70 {
                    h1 - 55
                } else {
                    h1 - 87
                };
                let v2: u8 = if h2 <= 57 {
                    h2 - 48
                } else if h2 <= 70 {
                    h2 - 55
                } else {
                    h2 - 87
                };
                out.push(16 * v1 + v2);
                step = 3;
            } else {
                out.push(b);
            }
        } else {
            out.push(b);
        }
        proof {
            assert(suf[0] == input@[i as int]);
            if step == 3 {
                assert(suf[1] == input@[i + 1] && suf[2] == input@[i + 2]);
                assert(suf.skip(3) =~= input@.skip(i + 3));
                assert(out@ =~= pre + seq![(16 * hex_val(suf[1]) + hex_val(suf[2])) as u8]);
                assert(pre + seq![(16 * hex_val(suf[1]) + hex_val(suf[2])) as u8] + spec_decode(
                    input@.skip(i + 3),
                ) =~= pre + spec_decode(suf));
            } else {
                assert(!(suf[0] == 37 && suf.len() >= 3 && is_hex(suf[1]) && is_hex(suf[2])));
                assert(suf.skip(1) =~= input@.skip(i + 1));
                assert(out@ =~= pre + seq![suf[0]]);
                assert(pre + seq![suf[0]] + spec_decode(input@.skip(i + 1)) =~= pre + spec_decode(
                    suf,
                ));
            }
        }
        i += step;
    }
    proof {
        assert(input@.skip(n as int) =~= Seq::<u8>::empty());
        assert(out@ =~= spec_decode(input@));
    }
    out
}

} // verus!
