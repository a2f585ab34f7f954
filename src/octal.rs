use vstd::prelude::*;

use crate::cstring::{field_text, lemma_field_text_end, lemma_field_text_split, nul_free};

verus! {

/// `8` raised to `n`.
pub open spec fn pow8(n: nat) -> nat
    decreases n,
{
    if n == 0 {
        1
    } else {
        8 * pow8((n - 1) as nat)
    }
}

/// The ASCII byte for an octal digit.
pub open spec fn is_octal_digit(b: u8) -> bool {
    0x30 <= b <= 0x37
}

/// Every byte of `d` is an octal digit.
pub open spec fn all_octal(d: Seq<u8>) -> bool {
    forall|i: int| 0 <= i < d.len() ==> is_octal_digit(#[trigger] d[i])
}

/// The number that the octal digits `d` spell, most significant first.
pub open spec fn octal_value(d: Seq<u8>) -> nat
    decreases d.len(),
{
    if d.len() == 0 {
        0
    } else {
        octal_value(d.drop_last()) * 8 + (d.last() - 0x30) as nat
    }
}

/// `v` written as exactly `w` octal digits, zero-padded on the left
/// (only the low `w` digits are kept).
pub open spec fn octal_digits(v: nat, w: nat) -> Seq<u8>
    decreases w,
{
    if w == 0 {
        Seq::empty()
    } else {
        octal_digits(v / 8, (w - 1) as nat).push((0x30 + v % 8) as u8)
    }
}

/// Rendering always yields exactly `w` digits.
pub proof fn lemma_octal_digits_len(v: nat, w: nat)
    ensures
        octal_digits(v, w).len() == w,
    decreases w,
{
    if w > 0 {
        lemma_octal_digits_len(v / 8, (w - 1) as nat);
    }
}

/// A value below `8^w` renders as `w` octal digits that read back as it.
pub proof fn lemma_octal_digits(v: nat, w: nat)
    requires
        v < pow8(w),
    ensures
        octal_digits(v, w).len() == w,
        all_octal(octal_digits(v, w)),
        octal_value(octal_digits(v, w)) == v,
    decreases w,
{
    if w > 0 {
        let d = octal_digits(v, w);
        assert(v / 8 < pow8((w - 1) as nat)) by (nonlinear_arith)
            requires v < pow8(w), pow8(w) == 8 * pow8((w - 1) as nat);
        lemma_octal_digits(v / 8, (w - 1) as nat);
        assert(d.drop_last() =~= octal_digits(v / 8, (w - 1) as nat));
        assert(v == (v / 8) * 8 + v % 8) by (nonlinear_arith);
    }
}

/// The value of a numeric field: its text up to the first NUL must be one or
/// more octal digits.
pub open spec fn parse_field(f: Seq<u8>) -> Option<nat> {
    let t = field_text(f);
    if t.len() > 0 && all_octal(t) {
        Some(octal_value(t))
    } else {
        None
    }
}

/// `n` octal digits spell a value below `8^n`.
pub proof fn lemma_octal_value_bound(d: Seq<u8>)
    requires
        all_octal(d),
    ensures
        octal_value(d) < pow8(d.len()),
    decreases d.len(),
{
    if d.len() > 0 {
        let p = d.drop_last();
        assert(all_octal(p)) by {
            assert forall|i: int| 0 <= i < p.len() implies is_octal_digit(#[trigger] p[i]) by {
                assert(d[i] == p[i]);
            }
        }
        lemma_octal_value_bound(p);
        assert(is_octal_digit(d[d.len() - 1]));
        let x = octal_value(p);
        let y = pow8(p.len());
        assert(x * 8 + 7 < 8 * y) by (nonlinear_arith)
            requires x < y;
    }
}

/// Powers of eight grow with the exponent.
pub proof fn lemma_pow8_mono(a: nat, b: nat)
    requires
        a <= b,
    ensures
        pow8(a) <= pow8(b),
    decreases b,
{
    if a < b {
        lemma_pow8_mono(a, (b - 1) as nat);
    }
}

/// Reads a numeric field: `None` where its text is empty or holds a byte
/// that is not an octal digit.
pub fn parse_octal(field: &[u8]) -> (r: Option<u64>)
    requires
        field@.len() <= 12,
    ensures
        r.is_some() == parse_field(field@).is_some(),
        r matches Some(v) ==> parse_field(field@) == Some(v as nat),
{
    let mut value: u64 = 0;
    let mut i: usize = 0;
    proof {
        lemma_pow8_mono(field@.len(), 12);
        reveal_with_fuel(pow8, 13);
        assert(pow8(12) == 0x1000000000nat);
    }
    while i < field.len() && field[i] != 0
        invariant
            0 <= i <= field@.len() <= 12,
            pow8(field@.len()) <= 0x1000000000nat,
            nul_free(field@.subrange(0, i as int)),
            all_octal(field@.subrange(0, i as int)),
            value as nat == octal_value(field@.subrange(0, i as int)),
        decreases field@.len() - i,
    {
        let b = field[i];
        let ghost pre = field@.subrange(0, i as int);
        let ghost next = field@.subrange(0, i + 1);
        if b < 0x30 || b > 0x37 {
            proof {
                assert(nul_free(next)) by {
                    assert forall|k: int| 0 <= k < i + 1 implies #[trigger] next[k] != 0 by {
                        if k < i {
                            assert(pre[k] != 0);
                        }
                    }
                }
                lemma_field_text_split(field@, i + 1);
                let t = field_text(field@);
                assert(t[i as int] == b);
            }
            return None;
        }
        proof {
            assert(next.drop_last() =~= pre);
            assert(all_octal(next)) by {
                assert forall|k: int| 0 <= k < next.len() implies is_octal_digit(#[trigger] next[k]) by {
                    if k < i {
                        assert(pre[k] == next[k]);
                    }
                }
            }
            assert(nul_free(next)) by {
                assert forall|k: int| 0 <= k < i + 1 implies #[trigger] next[k] != 0 by {
                    if k < i {
                        assert(pre[k] != 0);
                    }
                }
            }
            lemma_octal_value_bound(next);
            lemma_pow8_mono(next.len(), field@.len());
        }
        value = value * 8 + (b - 0x30) as u64;
        i = i + 1;
    }
    proof {
        lemma_field_text_end(field@, i as int);
    }
    if i == 0 {
        None
    } else {
        Some(value)
    }
}

/// Writes `v` as `width` zero-padded octal digits.
pub fn render_octal(v: u64, width: usize) -> (r: Vec<u8>)
    ensures
        r@ == octal_digits(v as nat, width as nat),
        r@.len() == width,
{
    proof {
        lemma_octal_digits_len(v as nat, width as nat);
    }
    let mut digits: Vec<u8> = Vec::new();
    let mut rest: u64 = v;
    let mut k: usize = 0;
    proof {
        assert(pow8(0) == 1);
        assert(octal_digits(v as nat, width as nat) + digits@ =~= octal_digits(v as nat, width as nat));
    }
    while k < width
        invariant
            0 <= k <= width,
            rest as nat == v as nat / pow8(k as nat) as nat,
            octal_digits(v as nat, width as nat) == octal_digits(rest as nat, (width - k) as nat)
                + digits@,
        decreases width - k,
    {
        let d = (0x30 + rest % 8) as u8;
        proof {
            let w = (width - k) as nat;
            assert(octal_digits(rest as nat, w) == octal_digits(rest as nat / 8, (w - 1) as nat).push(d));
            assert(octal_digits(rest as nat / 8, (w - 1) as nat).push(d) + digits@ =~= octal_digits(
                rest as nat / 8,
                (w - 1) as nat,
            ) + seq![d].add(digits@));
            let p = pow8(k as nat);
            assert(p > 0) by {
                lemma_pow8_pos(k as nat);
            }
            assert((v as nat / p) / 8 == v as nat / (8 * p)) by (nonlinear_arith)
                requires p > 0;
        }
        digits.insert(0, d);
        rest = rest / 8;
        k = k + 1;
    }
    proof {
        assert(octal_digits(rest as nat, 0) + digits@ =~= digits@);
    }
    digits
}

/// Powers of eight are positive.
pub proof fn lemma_pow8_pos(n: nat)
    ensures
        pow8(n) > 0,
    decreases n,
{
    if n > 0 {
        lemma_pow8_pos((n - 1) as nat);
    }
}

} // verus!
