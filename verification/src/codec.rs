//! Byte-level building blocks of the checkpoint file format: ASCII literal
//! text, decimal counters, and quoted identifier strings.
//!
//! Checkpoint files are written only by this library, so each parser here
//! owes success exactly on the canonical bytes its encoder produces.

use vstd::prelude::*;
use crate::digits::{dec_digits, dec_value, is_digit_b, lemma_dec_digits_prefix_value,
    lemma_dec_digits_shape, lemma_dec_digits_value, lemma_dec_value_push};

verus! {

/// The bytes of an ASCII character sequence, one byte per character.
pub open spec fn ascii_bytes(s: Seq<char>) -> Seq<u8> {
    Seq::new(s.len(), |i: int| s[i] as u8)
}

/// Append the bytes of an ASCII string.
pub fn push_ascii(v: &mut Vec<u8>, s: &str)
    requires
        s.is_ascii(),
    ensures
        final(v)@ == old(v)@ + ascii_bytes(s@),
{
    let n = s.unicode_len();
    let mut j: usize = 0;
    while j < n
        invariant
            s.is_ascii(),
            j <= n == s@.len(),
            v@ == old(v)@ + ascii_bytes(s@).take(j as int),
        decreases n - j,
    {
        let b = s.get_ascii(j);
        v.push(b);
        proof {
            assert(ascii_bytes(s@).take(j + 1) =~= ascii_bytes(s@).take(j as int).push(
                s@[j as int] as u8,
            ));
            assert(v@ =~= old(v)@ + ascii_bytes(s@).take(j + 1));
        }
        j = j + 1;
    }
    proof {
        assert(ascii_bytes(s@).take(n as int) =~= ascii_bytes(s@));
    }
}

/// Whether the bytes of `s` stand at position `i` of `v`.
pub fn match_ascii(v: &Vec<u8>, i: usize, s: &str) -> (r: bool)
    requires
        s.is_ascii(),
        i <= v@.len(),
    ensures
        r == (i + s@.len() <= v@.len() && v@.subrange(i as int, i + s@.len()) == ascii_bytes(s@)),
{
    let n = s.unicode_len();
    let vn = v.len();
    if vn - i < n {
        return false;
    }
    let mut j: usize = 0;
    while j < n
        invariant
            s.is_ascii(),
            j <= n == s@.len(),
            i + n <= vn == v@.len(),
            forall|k: int| 0 <= k < j ==> v@[i + k] == ascii_bytes(s@)[k],
        decreases n - j,
    {
        if v[i + j] != s.get_ascii(j) {
            proof {
                assert(v@.subrange(i as int, i + s@.len())[j as int] != ascii_bytes(s@)[j as int]);
            }
            return false;
        }
        j = j + 1;
    }
    proof {
        assert(v@.subrange(i as int, i + s@.len()) =~= ascii_bytes(s@));
    }
    true
}

/// Copy `v[i..j]` into a fresh vector.
pub fn copy_range(v: &Vec<u8>, i: usize, j: usize) -> (r: Vec<u8>)
    requires
        i <= j <= v@.len(),
    ensures
        r@ == v@.subrange(i as int, j as int),
{
    let mut r: Vec<u8> = Vec::new();
    let mut k: usize = i;
    while k < j
        invariant
            i <= k <= j <= v@.len(),
            r@ == v@.subrange(i as int, k as int),
        decreases j - k,
    {
        r.push(v[k]);
        proof {
            assert(v@.subrange(i as int, k + 1) =~= v@.subrange(i as int, k as int).push(
                v@[k as int],
            ));
        }
        k = k + 1;
    }
    r
}

/// Whether two string slices read the same text.
pub fn str_eq(a: &str, b: &str) -> (r: bool)
    ensures
        r == (a@ == b@),
{
    let n = a.unicode_len();
    if n != b.unicode_len() {
        return false;
    }
    let mut i: usize = 0;
    while i < n
        invariant
            i <= n == a@.len(),
            b@.len() == n,
            forall|k: int| 0 <= k < i ==> a@[k] == b@[k],
        decreases n - i,
    {
        if a.get_char(i) != b.get_char(i) {
            return false;
        }
        i = i + 1;
    }
    proof {
        assert(a@ =~= b@);
    }
    true
}

/// Relies on `String::from_utf8`: a vector of ASCII bytes decodes to the
/// string whose characters are exactly those bytes.
#[verifier::external_body]
pub fn string_from_ascii(b: Vec<u8>) -> (r: String)
    requires
        forall|i: int| 0 <= i < b@.len() ==> b@[i] < 128,
    ensures
        r@.len() == b@.len(),
        forall|i: int| 0 <= i < b@.len() ==> r@[i] == b@[i] as char,
{
    String::from_utf8(b).unwrap_or_default()
}

/// Append the decimal form of `n`, most significant digit first.
pub fn push_dec(v: &mut Vec<u8>, n: u64)
    ensures
        final(v)@ == old(v)@ + dec_digits(n as int),
    decreases n,
{
    if n >= 10 {
        push_dec(v, n / 10);
    }
    v.push(48 + (n % 10) as u8);
    proof {
        if n < 10 {
            assert(v@ =~= old(v)@ + dec_digits(n as int));
        } else {
            assert(v@ =~= old(v)@ + dec_digits(n as int));
        }
    }
}

/// Scan a canonical decimal number at position `i`: digits without a
/// leading zero, ending at the end of input or at a non-digit byte, with a
/// value that fits in `u64`. Returns the value and the position after it.
pub fn parse_dec(v: &Vec<u8>, i: usize) -> (r: Option<(u64, usize)>)
    requires
        i <= v@.len(),
    ensures
        match r {
            Some((n, j)) => {
                &&& i <= j <= v@.len()
                &&& v@.subrange(i as int, j as int) == dec_digits(n as int)
                &&& (j == v@.len() || !is_digit_b(v@[j as int]))
            },
            None => forall|n: u64|
                {
                    let ds = #[trigger] dec_digits(n as int);
                    !(i + ds.len() <= v@.len() && v@.subrange(i as int, i + ds.len()) == ds && (i
                        + ds.len() == v@.len() || !is_digit_b(v@[i + ds.len()])))
                },
        },
{
    if i == v.len() || !(48 <= v[i] && v[i] <= 57) {
        proof {
            assert forall|n: u64|
                {
                    let ds = #[trigger] dec_digits(n as int);
                    !(i + ds.len() <= v@.len() && v@.subrange(i as int, i + ds.len()) == ds && (i
                        + ds.len() == v@.len() || !is_digit_b(v@[i + ds.len()])))
                } by {
                let ds = dec_digits(n as int);
                lemma_dec_digits_shape(n as int);
                if i + ds.len() <= v@.len() && v@.subrange(i as int, i + ds.len()) == ds {
                    assert(v@[i as int] == ds[0]);
                }
            }
        }
        return None;
    }
    if v[i] == 48 {
        // a canonical number starting with `0` is exactly "0"
        if i + 1 == v.len() || !(48 <= v[i + 1] && v[i + 1] <= 57) {
            proof {
                assert(v@.subrange(i as int, i + 1) =~= dec_digits(0));
            }
            return Some((0, i + 1));
        }
        proof {
            assert forall|n: u64|
                {
                    let ds = #[trigger] dec_digits(n as int);
                    !(i + ds.len() <= v@.len() && v@.subrange(i as int, i + ds.len()) == ds && (i
                        + ds.len() == v@.len() || !is_digit_b(v@[i + ds.len()])))
                } by {
                let ds = dec_digits(n as int);
                lemma_dec_digits_shape(n as int);
                if i + ds.len() <= v@.len() && v@.subrange(i as int, i + ds.len()) == ds {
                    assert(v@[i as int] == ds[0]);
                    assert(n == 0);
                    assert(ds.len() == 1);
                }
            }
        }
        return None;
    }
    let mut acc: u64 = 0;
    let mut j: usize = i;
    let max: u64 = u64::MAX;
    loop
        invariant
            i <= j <= v@.len(),
            i < v@.len(),
            is_digit_b(v@[i as int]),
            v@[i as int] != 48,
            acc as int == dec_value(v@.subrange(i as int, j as int)),
            forall|k: int| i <= k < j ==> is_digit_b(#[trigger] v@[k]),
            max == u64::MAX,
        ensures
            i < j <= v@.len(),
            acc as int == dec_value(v@.subrange(i as int, j as int)),
            forall|k: int| i <= k < j ==> is_digit_b(#[trigger] v@[k]),
            v@[i as int] != 48,
            j == v@.len() || !is_digit_b(v@[j as int]),
        decreases v@.len() - j,
    {
        if j == v.len() || !(48 <= v[j] && v[j] <= 57) {
            break;
        }
        let d: u64 = (v[j] - 48) as u64;
        if acc > (max - d) / 10 {
            // the number does not fit; no canonical u64 stands here
            proof {
                assert(acc * 10 + d > max) by (nonlinear_arith)
                    requires
                        acc > (max - d) / 10,
                        d <= 9,
                        max == u64::MAX,
                ;
                let jj = j as int;
                assert forall|n: u64|
                    {
                        let ds = #[trigger] dec_digits(n as int);
                        !(i + ds.len() <= v@.len() && v@.subrange(i as int, i + ds.len()) == ds
                            && (i + ds.len() == v@.len() || !is_digit_b(v@[i + ds.len()])))
                    } by {
                    let ds = dec_digits(n as int);
                    lemma_dec_digits_shape(n as int);
                    lemma_dec_digits_value(n as int);
                    if i + ds.len() <= v@.len() && v@.subrange(i as int, i + ds.len()) == ds {
                        // the digit run through position j lies inside ds
                        if i + ds.len() <= jj {
                            assert(is_digit_b(v@[i + ds.len()]));
                        } else {
                            // prefix of ds up to j+1 has value acc*10+d > u64::MAX >= n
                            let k = jj + 1 - i;
                            assert(v@.subrange(i as int, jj + 1) =~= ds.take(k));
                            lemma_dec_digits_prefix_value(n as int, k);
                            assert(dec_value(ds.take(k)) <= n);
                            lemma_dec_value_push(v@.subrange(i as int, jj), v@[jj]);
                            assert(v@.subrange(i as int, jj).push(v@[jj]) =~= v@.subrange(
                                i as int,
                                jj + 1,
                            ));
                            assert(dec_value(v@.subrange(i as int, jj + 1)) == acc * 10 + d);
                        }
                    }
                }
            }
            return None;
        }
        proof {
            assert(acc * 10 + d <= max) by (nonlinear_arith)
                requires
                    acc <= (max - d) / 10,
                    d <= 9,
                    max == u64::MAX,
            ;
            lemma_dec_value_push(v@.subrange(i as int, j as int), v@[j as int]);
            assert(v@.subrange(i as int, j as int).push(v@[j as int]) =~= v@.subrange(
                i as int,
                j + 1,
            ));
        }
        acc = acc * 10 + d;
        j = j + 1;
    }
    proof {
        // soundness: the scanned digit run is the canonical form of acc
        lemma_canonical_digits(v@.subrange(i as int, j as int));
        assert(v@.subrange(i as int, j as int) == dec_digits(acc as int));
    }
    Some((acc, j))
}

/// A nonempty digit string without a leading zero is the canonical decimal
/// form of its value.
proof fn lemma_canonical_digits(s: Seq<u8>)
    requires
        s.len() >= 1,
        forall|k: int| 0 <= k < s.len() ==> is_digit_b(#[trigger] s[k]),
        s.len() > 1 ==> s[0] != 48,
    ensures
        s == dec_digits(dec_value(s)),
    decreases s.len(),
{
    if s.len() == 1 {
        assert(s.drop_last() =~= Seq::<u8>::empty());
        assert(dec_value(Seq::<u8>::empty()) == 0);
        assert(dec_value(s) == s[0] - 48);
        assert(dec_digits(dec_value(s)) =~= s);
    } else {
        let hd = s.drop_last();
        lemma_canonical_digits(hd);
        let n = dec_value(s);
        assert(n == dec_value(hd) * 10 + (s.last() - 48));
        assert(dec_value(hd) >= 1) by {
            lemma_dec_digits_shape(dec_value(hd));
            if dec_value(hd) == 0 {
                assert(dec_digits(0) =~= seq![48u8]);
                assert(hd[0] == 48);
            }
            if dec_value(hd) < 0 {
                lemma_dec_value_nonneg(hd);
            }
        };
        assert(n >= 10) by (nonlinear_arith)
            requires
                n == dec_value(hd) * 10 + (s.last() - 48),
                dec_value(hd) >= 1,
                s.last() >= 48,
        ;
        vstd::arithmetic::div_mod::lemma_fundamental_div_mod_converse(
            n,
            10,
            dec_value(hd),
            (s.last() - 48) as int,
        );
        assert(dec_digits(n) == dec_digits(dec_value(hd)) + seq![(48 + n % 10) as u8]);
        assert((48 + n % 10) as u8 == s.last());
        assert(dec_digits(n) =~= s);
    }
}

/// The value of a digit string is nonnegative.
proof fn lemma_dec_value_nonneg(s: Seq<u8>)
    requires
        forall|k: int| 0 <= k < s.len() ==> is_digit_b(#[trigger] s[k]),
    ensures
        dec_value(s) >= 0,
    decreases s.len(),
{
    if s.len() > 0 {
        lemma_dec_value_nonneg(s.drop_last());
        assert(dec_value(s.drop_last()) * 10 >= 0) by (nonlinear_arith)
            requires
                dec_value(s.drop_last()) >= 0,
        ;
    }
}

} // verus!
