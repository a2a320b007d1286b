//! Decimal fields: decoding the unscaled value from big-endian
//! two's-complement bytes and rendering it as fixed-point text, never
//! scientific notation.
use vstd::prelude::*;

use crate::numfmt::{dec_digits_of, dec_str_of, digit_char, push_char};

verus! {

/// 256 to the power `k`.
pub open spec fn pow256(k: nat) -> nat
    decreases k,
{
    if k == 0 {
        1
    } else {
        256 * pow256((k - 1) as nat)
    }
}

/// The unsigned big-endian value of a byte string.
pub open spec fn be_unsigned(b: Seq<u8>) -> nat
    decreases b.len(),
{
    if b.len() == 0 {
        0
    } else {
        (be_unsigned(b.drop_last()) * 256 + b.last()) as nat
    }
}

/// The signed value of a byte string read as big-endian
/// two's-complement; an empty string reads as zero.
pub open spec fn be_signed_int(b: Seq<u8>) -> int {
    if b.len() == 0 {
        0int
    } else if b[0] >= 0x80 {
        be_unsigned(b) - pow256(b.len())
    } else {
        be_unsigned(b) as int
    }
}

/// `k` zero characters (none for `k <= 0`).
pub open spec fn zero_chars(k: int) -> Seq<char> {
    Seq::new(
        if k <= 0 {
            0nat
        } else {
            k as nat
        },
        |i: int| '0',
    )
}

/// The fixed-point text of the unscaled value `n` at scale `scale`: the
/// decimal point sits `scale` digits from the end of the magnitude's
/// digits, with `0.` and zeros prepended when the point would fall
/// before the first digit, and a single `-` prefix for negative values.
pub open spec fn decimal_render(n: int, scale: int) -> Seq<char> {
    let mag = dec_digits_of(
        if n < 0 {
            (-n) as nat
        } else {
            n as nat
        },
    );
    let sign: Seq<char> = if n < 0 {
        seq!['-']
    } else {
        Seq::empty()
    };
    let point = mag.len() - scale;
    if point <= 0 {
        sign + seq!['0', '.'] + zero_chars(-point) + mag
    } else {
        sign + mag.take(point) + seq!['.'] + mag.skip(point)
    }
}

/// Relies on num-bigint's `BigInt::from_signed_bytes_be` and its
/// `Display`: the bytes are read as big-endian two's-complement and the
/// result is the plain decimal text, a `-` prefix for negative values
/// and no leading zeros.
#[verifier::external_body]
fn bigint_decimal_text(data: &Vec<u8>) -> (r: String)
    ensures
        r@ == dec_str_of(be_signed_int(data@)),
{
    num_bigint::BigInt::from_signed_bytes_be(data).to_string()
}

/// The magnitude value is below `(first byte + 1) * 256^(len-1)` and at
/// least `first byte * 256^(len-1)`.
proof fn lemma_be_unsigned_bounds(b: Seq<u8>)
    requires
        b.len() > 0,
    ensures
        be_unsigned(b) >= b[0] * pow256((b.len() - 1) as nat),
        be_unsigned(b) < (b[0] + 1) * pow256((b.len() - 1) as nat),
    decreases b.len(),
{
    if b.len() == 1 {
        assert(be_unsigned(b) == be_unsigned(b.drop_last()) * 256 + b.last());
        assert(be_unsigned(b.drop_last()) == 0);
        assert(b.last() == b[0]);
        assert(pow256(0) == 1);
        assert(b[0] * 1 == b[0] && (b[0] + 1) * 1 == b[0] + 1) by (nonlinear_arith);
    } else {
        let d = b.drop_last();
        assert(d[0] == b[0]);
        lemma_be_unsigned_bounds(d);
        let p = pow256((d.len() - 1) as nat);
        assert(pow256((b.len() - 1) as nat) == 256 * p);
        assert(be_unsigned(b) == be_unsigned(d) * 256 + b.last());
        let u = be_unsigned(d);
        let last = b.last();
        let first = b[0];
        assert(u >= first * p && u < (first + 1) * p && last < 256 ==> u * 256 + last >= first * (
        256 * p) && u * 256 + last < (first + 1) * (256 * p)) by (nonlinear_arith);
        assert(be_unsigned(b) >= b[0] * (256 * p));
        assert(be_unsigned(b) < (b[0] + 1) * (256 * p));
    }
}

/// The value read from a byte string is negative exactly when the
/// string is non-empty and its first byte has the top bit set.
pub proof fn lemma_be_signed_sign(b: Seq<u8>)
    ensures
        be_signed_int(b) < 0 <==> (b.len() > 0 && b[0] >= 0x80),
{
    if b.len() > 0 {
        lemma_be_unsigned_bounds(b);
        let p = pow256((b.len() - 1) as nat);
        assert(pow256(b.len()) == 256 * p);
        if b[0] >= 0x80 {
            assert((b[0] + 1) * p <= 256 * p) by (nonlinear_arith)
                requires
                    b[0] < 256,
                    p >= 0,
            ;
        }
    }
}

/// A decimal digit character.
pub open spec fn is_digit(c: char) -> bool {
    48 <= c as u32 <= 57
}

/// The value of one decimal digit character.
pub open spec fn digit_val(c: char) -> int {
    c as u32 - 48
}

/// Every character is a decimal digit.
pub open spec fn is_digit_seq(s: Seq<char>) -> bool {
    forall|i: int| 0 <= i < s.len() ==> is_digit(#[trigger] s[i])
}

/// The number the digit characters spell, most significant first.
pub open spec fn digits_value(s: Seq<char>) -> int
    decreases s.len(),
{
    if s.len() == 0 {
        0int
    } else {
        digits_value(s.drop_last()) * 10 + digit_val(s.last())
    }
}

/// The index of the first `.`, or -1 if there is none.
pub open spec fn point_pos(s: Seq<char>) -> int
    decreases s.len(),
{
    if s.len() == 0 {
        -1int
    } else if s[0] == '.' {
        0int
    } else {
        let r = point_pos(s.drop_first());
        if r < 0 {
            -1int
        } else {
            1 + r
        }
    }
}

/// Reads fixed-point decimal text back into its unscaled value and its
/// scale: an optional `-` sign, then digits with exactly one point
/// among them; the scale is the count of digits after the point.
pub open spec fn decimal_parse(s: Seq<char>) -> Option<(int, int)> {
    let neg = s.len() > 0 && s[0] == '-';
    let t = if neg {
        s.drop_first()
    } else {
        s
    };
    let p = point_pos(t);
    if p < 0 {
        Option::None
    } else {
        let before = t.take(p);
        let after = t.skip(p + 1);
        if before.len() >= 1 && is_digit_seq(before) && is_digit_seq(after) {
            let m = digits_value(before + after);
            Option::Some(
                (
                    if neg {
                        -m
                    } else {
                        m
                    },
                    after.len() as int,
                ),
            )
        } else {
            Option::None
        }
    }
}

/// The digits of a natural number are digit characters and spell the
/// number back.
proof fn lemma_dec_digits_props(m: nat)
    ensures
        is_digit_seq(dec_digits_of(m)),
        digits_value(dec_digits_of(m)) == m,
        dec_digits_of(m).len() >= 1,
    decreases m,
{
    if m < 10 {
        let s = dec_digits_of(m);
        assert(s =~= seq![digit_char(m as int)]);
        assert(s.drop_last() =~= Seq::<char>::empty());
        assert(is_digit(digit_char(m as int)) && digit_val(digit_char(m as int)) == m);
        assert(s.last() == digit_char(m as int));
        assert(digits_value(s.drop_last()) == 0);
        assert(digits_value(s) == digits_value(s.drop_last()) * 10 + digit_val(s.last()));
        assert(digits_value(s) == m);
    } else {
        lemma_dec_digits_props(m / 10);
        let r = dec_digits_of(m / 10);
        let s = dec_digits_of(m);
        assert(s == r + seq![digit_char((m % 10) as int)]);
        assert(s.drop_last() =~= r);
        assert(s.last() == digit_char((m % 10) as int));
        assert(is_digit(s.last()) && digit_val(s.last()) == m % 10);
        assert(digits_value(s) == (m / 10) * 10 + m % 10);
        vstd::arithmetic::div_mod::lemma_fundamental_div_mod(m as int, 10);
        assert(digits_value(s) == m);
        assert(forall|i: int| 0 <= i < s.len() ==> is_digit(#[trigger] s[i]));
    }
}

/// A run of zero characters spells zero.
proof fn lemma_zero_chars_value(k: int)
    ensures
        digits_value(zero_chars(k)) == 0,
        is_digit_seq(zero_chars(k)),
    decreases
            (if k <= 0 {
                0int
            } else {
                k
            }),
{
    if k <= 0 {
        assert(zero_chars(k) =~= Seq::<char>::empty());
    } else {
        lemma_zero_chars_value(k - 1);
        let s = zero_chars(k);
        assert(s.drop_last() =~= zero_chars(k - 1));
        assert(s.last() == '0');
    }
}

/// Leading zero characters do not change the number the digits spell.
proof fn lemma_leading_zeros_value(k: int, ds: Seq<char>)
    ensures
        digits_value(zero_chars(k) + ds) == digits_value(ds),
    decreases ds.len(),
{
    if ds.len() == 0 {
        assert(zero_chars(k) + ds =~= zero_chars(k));
        lemma_zero_chars_value(k);
    } else {
        lemma_leading_zeros_value(k, ds.drop_last());
        let s = zero_chars(k) + ds;
        assert(s.drop_last() =~= zero_chars(k) + ds.drop_last());
        assert(s.last() == ds.last());
    }
}

/// The first point after a run of digit characters sits right behind
/// them.
proof fn lemma_point_after_digits(ds: Seq<char>, rest: Seq<char>)
    requires
        is_digit_seq(ds),
    ensures
        point_pos(ds + seq!['.'] + rest) == ds.len(),
    decreases ds.len(),
{
    let s = ds + seq!['.'] + rest;
    if ds.len() == 0 {
        assert(s[0] == '.');
    } else {
        assert(s[0] == ds[0] && is_digit(ds[0]));
        assert(s[0] != '.');
        lemma_point_after_digits(ds.drop_first(), rest);
        assert(s.drop_first() =~= ds.drop_first() + seq!['.'] + rest);
    }
}

/// Rendering a decimal and reading the text back yields the original
/// unscaled value and scale. The precision bound plays no part in the
/// rendering.
#[verifier::rlimit(60)]
pub proof fn lemma_decimal_round_trip(n: int, scale: int)
    requires
        0 <= scale,
    ensures
        decimal_parse(decimal_render(n, scale)) == Option::Some((n, scale)),
{
    let m: nat = if n < 0 {
        (-n) as nat
    } else {
        n as nat
    };
    let mag = dec_digits_of(m);
    lemma_dec_digits_props(m);
    let s = decimal_render(n, scale);
    let point = mag.len() - scale;
    let t: Seq<char> = if point <= 0 {
        seq!['0', '.'] + zero_chars(-point) + mag
    } else {
        mag.take(point) + seq!['.'] + mag.skip(point)
    };
    if n < 0 {
        assert(s =~= seq!['-'] + t);
        assert(s[0] == '-');
        assert(s.drop_first() =~= t);
    } else {
        assert(s =~= t);
        assert(s.len() > 0 && s[0] == t[0]);
        if point <= 0 {
            assert(t[0] == '0');
        } else {
            assert(t[0] == mag[0] && is_digit(mag[0]));
        }
        assert(s[0] != '-');
    }
    if point <= 0 {
        let k = -point;
        assert(t =~= seq!['0'] + seq!['.'] + (zero_chars(k) + mag));
        assert(is_digit_seq(seq!['0']));
        lemma_point_after_digits(seq!['0'], zero_chars(k) + mag);
        assert(point_pos(t) == 1);
        assert(t.take(1) =~= seq!['0']);
        assert(t.skip(2) =~= zero_chars(k) + mag);
        lemma_zero_chars_value(k);
        assert(is_digit_seq(zero_chars(k) + mag));
        assert(t.take(1) + t.skip(2) =~= seq!['0'] + (zero_chars(k) + mag));
        assert(seq!['0'] + (zero_chars(k) + mag) =~= zero_chars(k + 1) + mag);
        lemma_leading_zeros_value(k + 1, mag);
        assert(digits_value(t.take(1) + t.skip(2)) == m);
        assert(t.skip(2).len() == scale);
    } else {
        assert(is_digit_seq(mag.take(point)));
        lemma_point_after_digits(mag.take(point), mag.skip(point));
        assert(point_pos(t) == point);
        assert(t.take(point) =~= mag.take(point));
        assert(t.skip(point + 1) =~= mag.skip(point));
        assert(is_digit_seq(mag.skip(point)));
        assert(t.take(point) + t.skip(point + 1) =~= mag);
        assert(digits_value(t.take(point) + t.skip(point + 1)) == m);
        assert(t.skip(point + 1).len() == scale);
    }
}

/// Renders a decimal's unscaled big-endian two's-complement bytes as
/// fixed-point text at the given scale.
pub fn decimal_to_string(data: &Vec<u8>, scale: i32, precision: i32) -> (r: String)
    requires
        0 <= scale < precision,
    ensures
        r@ == decimal_render(be_signed_int(data@), scale as int),
{
    let ghost n = be_signed_int(data@);
    let negative = data.len() > 0 && data[0] >= 0x80;
    proof {
        lemma_be_signed_sign(data@);
    }
    let full = bigint_decimal_text(data);
    let slen = full.as_str().unicode_len();
    let neg_off: usize = if negative {
        1
    } else {
        0
    };
    proof {
        if n < 0 {
            assert(full@ == seq!['-'] + dec_digits_of((-n) as nat));
        }
        assert(dec_digits_of(
            if n < 0 {
                (-n) as nat
            } else {
                n as nat
            },
        ).len() >= 1);
    }
    let ghost mag = dec_digits_of(
        if n < 0 {
            (-n) as nat
        } else {
            n as nat
        },
    );
    proof {
        assert(full@.skip(neg_off as int) =~= mag);
    }
    let mag_len = slen - neg_off;
    let scale_u = scale as usize;
    let mut out = String::new();
    if negative {
        push_char(&mut out, '-');
    }
    if mag_len <= scale_u {
        push_char(&mut out, '0');
        push_char(&mut out, '.');
        let ghost before_zeros = out@;
        let mut k: usize = 0;
        while k < scale_u - mag_len
            invariant
                k <= scale_u - mag_len,
                mag_len <= scale_u <= usize::MAX,
                out@ == before_zeros + zero_chars(k as int),
            decreases scale_u - mag_len - k,
        {
            push_char(&mut out, '0');
            proof {
                assert(before_zeros + zero_chars(k as int + 1) =~= (before_zeros + zero_chars(
                    k as int,
                )).push('0'));
            }
            k = k + 1;
        }
        let tail = full.as_str().substring_char(neg_off, slen);
        out.append(tail);
        proof {
            assert(tail@ =~= mag);
            assert(out@ =~= decimal_render(n, scale as int));
        }
    } else {
        let point = mag_len - scale_u;
        let head = full.as_str().substring_char(neg_off, neg_off + point);
        out.append(head);
        push_char(&mut out, '.');
        let tail = full.as_str().substring_char(neg_off + point, slen);
        out.append(tail);
        proof {
            assert(head@ =~= mag.take(point as int));
            assert(tail@ =~= mag.skip(point as int));
            assert(out@ =~= decimal_render(n, scale as int));
        }
    }
    out
}

} // verus!
