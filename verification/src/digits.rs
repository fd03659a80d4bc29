//! Decimal digit sequences: the byte-level building blocks of the checkpoint
//! file format (fixed-width calendar fields and variable-width counters).

use vstd::prelude::*;

verus! {

/// The ASCII byte of a single decimal digit value.
pub open spec fn dch(n: int) -> u8 {
    (48 + n) as u8
}

pub open spec fn is_digit_b(b: u8) -> bool {
    48 <= b <= 57
}

/// Fixed two-digit form, leading zero kept.
pub open spec fn two_digits(n: int) -> Seq<u8> {
    seq![dch(n / 10), dch(n % 10)]
}

/// Fixed four-digit form, leading zeros kept.
pub open spec fn four_digits(n: int) -> Seq<u8> {
    seq![dch(n / 1000), dch((n / 100) % 10), dch((n / 10) % 10), dch(n % 10)]
}

/// Variable-width decimal form without leading zeros.
pub open spec fn dec_digits(n: int) -> Seq<u8>
    decreases n,
{
    if n < 10 {
        seq![dch(if n >= 0 {
            n
        } else {
            0
        })]
    } else {
        dec_digits(n / 10) + seq![dch(n % 10)]
    }
}

/// The value read back from a digit sequence, most significant first.
pub open spec fn dec_value(s: Seq<u8>) -> int
    decreases s.len(),
{
    if s.len() == 0 {
        0
    } else {
        dec_value(s.drop_last()) * 10 + (s.last() - 48)
    }
}

/// Recomposing a two-digit value from its digits.
pub proof fn lemma_two_digits_value(d0: int, d1: int)
    requires
        0 <= d0 <= 9,
        0 <= d1 <= 9,
    ensures
        (10 * d0 + d1) / 10 == d0,
        (10 * d0 + d1) % 10 == d1,
{
    vstd::arithmetic::div_mod::lemma_fundamental_div_mod_converse(10 * d0 + d1, 10, d0, d1);
}

/// Recomposing a four-digit value from its digits.
pub proof fn lemma_four_digits_value(d0: int, d1: int, d2: int, d3: int)
    requires
        0 <= d0 <= 9,
        0 <= d1 <= 9,
        0 <= d2 <= 9,
        0 <= d3 <= 9,
    ensures
        (1000 * d0 + 100 * d1 + 10 * d2 + d3) / 1000 == d0,
        ((1000 * d0 + 100 * d1 + 10 * d2 + d3) / 100) % 10 == 10 * d0 + d1 - 10 * ((10 * d0 + d1)
            / 10),
        (1000 * d0 + 100 * d1 + 10 * d2 + d3) / 100 == 10 * d0 + d1,
        ((1000 * d0 + 100 * d1 + 10 * d2 + d3) / 10) % 10 == d2,
        (1000 * d0 + 100 * d1 + 10 * d2 + d3) / 10 == 100 * d0 + 10 * d1 + d2,
        (1000 * d0 + 100 * d1 + 10 * d2 + d3) % 10 == d3,
{
    let n = 1000 * d0 + 100 * d1 + 10 * d2 + d3;
    vstd::arithmetic::div_mod::lemma_fundamental_div_mod_converse(n, 1000, d0, 100 * d1 + 10 * d2
        + d3);
    vstd::arithmetic::div_mod::lemma_fundamental_div_mod_converse(n, 100, 10 * d0 + d1, 10 * d2
        + d3);
    vstd::arithmetic::div_mod::lemma_fundamental_div_mod_converse(n, 10, 100 * d0 + 10 * d1 + d2,
        d3);
    vstd::arithmetic::div_mod::lemma_fundamental_div_mod_converse(10 * d0 + d1, 10, d0, d1);
    vstd::arithmetic::div_mod::lemma_fundamental_div_mod_converse(100 * d0 + 10 * d1 + d2, 10, 10
        * d0 + d1, d2);
}

/// The digits of a value below 10000 are digits.
pub proof fn lemma_four_digits_range(n: int)
    requires
        0 <= n <= 9999,
    ensures
        0 <= n / 1000 <= 9,
        0 <= (n / 100) % 10 <= 9,
        0 <= (n / 10) % 10 <= 9,
        0 <= n % 10 <= 9,
        n == 1000 * (n / 1000) + 100 * ((n / 100) % 10) + 10 * ((n / 10) % 10) + n % 10,
{
    vstd::arithmetic::div_mod::lemma_fundamental_div_mod(n, 1000);
    vstd::arithmetic::div_mod::lemma_mod_pos_bound(n, 1000);
    vstd::arithmetic::div_mod::lemma_fundamental_div_mod(n, 100);
    vstd::arithmetic::div_mod::lemma_mod_pos_bound(n, 100);
    vstd::arithmetic::div_mod::lemma_fundamental_div_mod(n, 10);
    vstd::arithmetic::div_mod::lemma_mod_pos_bound(n, 10);
    vstd::arithmetic::div_mod::lemma_fundamental_div_mod(n / 100, 10);
    vstd::arithmetic::div_mod::lemma_mod_pos_bound(n / 100, 10);
    vstd::arithmetic::div_mod::lemma_fundamental_div_mod(n / 10, 10);
    vstd::arithmetic::div_mod::lemma_mod_pos_bound(n / 10, 10);
    assert(0 <= n / 1000 <= 9) by {
        vstd::arithmetic::div_mod::lemma_fundamental_div_mod_converse(n, 1000, n / 1000, n % 1000);
    };
    assert(n / 100 == 10 * (n / 1000) + (n / 100) % 10) by {
        vstd::arithmetic::div_mod::lemma_fundamental_div_mod_converse(
            n / 100,
            10,
            n / 1000,
            (n / 100) % 10,
        );
        vstd::arithmetic::div_mod::lemma_div_denominator(n, 100, 10);
    };
    assert(n / 10 == 10 * (n / 100) + (n / 10) % 10) by {
        vstd::arithmetic::div_mod::lemma_fundamental_div_mod_converse(
            n / 10,
            10,
            n / 100,
            (n / 10) % 10,
        );
        vstd::arithmetic::div_mod::lemma_div_denominator(n, 10, 10);
    };
}

/// The same for a value below 100.
pub proof fn lemma_two_digits_range(n: int)
    requires
        0 <= n <= 99,
    ensures
        0 <= n / 10 <= 9,
        0 <= n % 10 <= 9,
        n == 10 * (n / 10) + n % 10,
{
    vstd::arithmetic::div_mod::lemma_fundamental_div_mod(n, 10);
    vstd::arithmetic::div_mod::lemma_mod_pos_bound(n, 10);
}

/// Every byte of a decimal form is a digit, and the leading byte is zero
/// only for the value zero.
pub proof fn lemma_dec_digits_shape(n: int)
    requires
        n >= 0,
    ensures
        dec_digits(n).len() >= 1,
        forall|i: int| 0 <= i < dec_digits(n).len() ==> is_digit_b(#[trigger] dec_digits(n)[i]),
        dec_digits(n)[0] == 48 <==> n == 0,
    decreases n,
{
    if n < 10 {
    } else {
        vstd::arithmetic::div_mod::lemma_fundamental_div_mod(n, 10);
        vstd::arithmetic::div_mod::lemma_mod_pos_bound(n, 10);
        assert(n / 10 >= 1) by {
            vstd::arithmetic::div_mod::lemma_div_is_ordered(10, n, 10);
            assert(10int / 10 == 1);
        };
        lemma_dec_digits_shape(n / 10);
    }
}

/// Reading the decimal form of `n` back gives `n`.
pub proof fn lemma_dec_digits_value(n: int)
    requires
        n >= 0,
    ensures
        dec_value(dec_digits(n)) == n,
    decreases n,
{
    if n < 10 {
        let ds = seq![dch(n)];
        assert(dec_digits(n) == ds);
        assert(ds.drop_last() =~= Seq::<u8>::empty());
        assert(dec_value(ds.drop_last()) == 0);
        assert(ds.last() == dch(n));
        assert(dec_value(ds) == 0 * 10 + (dch(n) - 48));
        assert(dch(n) == (48 + n) as u8);
    } else {
        vstd::arithmetic::div_mod::lemma_fundamental_div_mod(n, 10);
        vstd::arithmetic::div_mod::lemma_mod_pos_bound(n, 10);
        assert(n / 10 >= 1) by {
            vstd::arithmetic::div_mod::lemma_div_is_ordered(10, n, 10);
            assert(10int / 10 == 1);
        };
        lemma_dec_digits_value(n / 10);
        let ds = dec_digits(n / 10) + seq![dch(n % 10)];
        assert(dec_digits(n) == ds);
        assert(ds.drop_last() =~= dec_digits(n / 10));
        assert(ds.last() == dch(n % 10));
        assert(dec_value(ds) == dec_value(dec_digits(n / 10)) * 10 + (dch(n % 10) - 48));
        assert(dch(n % 10) == (48 + n % 10) as u8);
        assert(dch(n % 10) - 48 == n % 10);
    }
}

/// Every proper prefix of the decimal form of `n` reads back as a value
/// at most `n`.
pub proof fn lemma_dec_digits_prefix_value(n: int, k: int)
    requires
        n >= 0,
        0 <= k <= dec_digits(n).len(),
    ensures
        0 <= dec_value(dec_digits(n).take(k)) <= n,
    decreases n, k,
{
    let ds = dec_digits(n);
    if k == 0 {
    } else if k == ds.len() {
        lemma_dec_digits_value(n);
        assert(ds.take(k) =~= ds);
    } else {
        if n < 10 {
        } else {
            vstd::arithmetic::div_mod::lemma_fundamental_div_mod(n, 10);
            vstd::arithmetic::div_mod::lemma_mod_pos_bound(n, 10);
            assert(n / 10 >= 0) by {
                vstd::arithmetic::div_mod::lemma_div_pos_is_pos(n, 10);
            };
            assert(ds.take(k) =~= dec_digits(n / 10).take(k));
            lemma_dec_digits_prefix_value(n / 10, k);
        }
    }
}

/// Appending one digit to a digit string multiplies its value by ten.
pub proof fn lemma_dec_value_push(s: Seq<u8>, b: u8)
    ensures
        dec_value(s.push(b)) == dec_value(s) * 10 + (b - 48),
{
    assert(s.push(b).drop_last() =~= s);
}

} // verus!
