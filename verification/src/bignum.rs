//! Arbitrary-precision signed decimal integers.
//!
//! A number is a sequence of decimal digits, least significant first, plus
//! a sign flag. Zero may carry either sign (`-0` prints as `-0`, but its
//! value is 0). Digit sequences may hold leading zeros — parsing `"007"`
//! keeps all three digits — and every operation is exact on values
//! regardless.

use vstd::prelude::*;

use crate::strings::{chars_vec, push_char};

verus! {

/// Ten to the `n`.
pub open spec fn pow10(n: nat) -> nat
    decreases n,
{
    if n == 0 {
        1
    } else {
        10 * pow10((n - 1) as nat)
    }
}

/// The magnitude a digit sequence denotes, least significant digit first.
pub open spec fn mag_of(ds: Seq<u8>) -> nat
    decreases ds.len(),
{
    if ds.len() == 0 {
        0
    } else {
        (ds[0] + 10 * mag_of(ds.drop_first())) as nat
    }
}

/// Every entry is a decimal digit.
pub open spec fn digits_wf(ds: Seq<u8>) -> bool {
    forall|i: int| 0 <= i < ds.len() ==> ds[i] < 10
}

proof fn lemma_pow10_pos(n: nat)
    ensures
        pow10(n) >= 1,
    decreases n,
{
    if n > 0 {
        lemma_pow10_pos((n - 1) as nat);
    }
}

/// Appending a digit adds it at the next power of ten.
proof fn lemma_mag_push(ds: Seq<u8>, d: u8)
    ensures
        mag_of(ds.push(d)) == mag_of(ds) + d * pow10(ds.len()),
    decreases ds.len(),
{
    if ds.len() == 0 {
        assert(ds.push(d)[0] == d);
        assert(ds.push(d).drop_first() =~= Seq::<u8>::empty());
        assert(mag_of(Seq::<u8>::empty()) == 0);
        assert(pow10(0) == 1);
        assert(mag_of(ds.push(d)) == mag_of(ds) + d * pow10(ds.len()));
    } else {
        assert(ds.push(d).drop_first() =~= ds.drop_first().push(d));
        lemma_mag_push(ds.drop_first(), d);
        let p = pow10(ds.drop_first().len());
        assert(ds.push(d)[0] == ds[0]);
        assert(mag_of(ds.push(d)) == ds[0] + 10 * (mag_of(ds.drop_first()) + d * p));
        assert(10 * (mag_of(ds.drop_first()) + d * p) == 10 * mag_of(ds.drop_first()) + d * (10
            * p)) by (nonlinear_arith);
        assert(pow10(ds.len()) == 10 * p);
        assert(mag_of(ds.push(d)) == (ds[0] + 10 * mag_of(ds.drop_first())) + d * pow10(ds.len()));
        assert(mag_of(ds) == ds[0] + 10 * mag_of(ds.drop_first()));
        assert(mag_of(ds.push(d)) == mag_of(ds) + d * pow10(ds.len()));
    }
}

/// A sequence of digits denotes less than ten to its length.
proof fn lemma_mag_bound(ds: Seq<u8>)
    requires
        digits_wf(ds),
    ensures
        mag_of(ds) < pow10(ds.len()),
    decreases ds.len(),
{
    if ds.len() > 0 {
        assert(digits_wf(ds.drop_first())) by {
            assert(forall|i: int|
                0 <= i < ds.drop_first().len() ==> ds.drop_first()[i] == ds[i + 1]);
        }
        lemma_mag_bound(ds.drop_first());
        assert(ds[0] < 10);
        assert(pow10(ds.len()) == 10 * pow10(ds.drop_first().len()));
    }
}

/// The magnitude of one more taken digit.
proof fn lemma_mag_take_succ(ds: Seq<u8>, i: int)
    requires
        0 <= i < ds.len(),
    ensures
        mag_of(ds.take(i + 1)) == mag_of(ds.take(i)) + ds[i] * pow10(i as nat),
{
    assert(ds.take(i + 1) =~= ds.take(i).push(ds[i]));
    lemma_mag_push(ds.take(i), ds[i]);
}

/// Splitting a digit sequence splits its magnitude.
proof fn lemma_mag_split(ds: Seq<u8>, i: int)
    requires
        0 <= i <= ds.len(),
    ensures
        mag_of(ds) == mag_of(ds.take(i)) + pow10(i as nat) * mag_of(ds.skip(i)),
    decreases i,
{
    if i == 0 {
        assert(ds.take(0) =~= Seq::<u8>::empty());
        assert(ds.skip(0) =~= ds);
        assert(mag_of(Seq::<u8>::empty()) == 0);
        assert(pow10(0) == 1);
        assert(mag_of(ds) == mag_of(ds.take(0)) + pow10(0) * mag_of(ds.skip(0)));
    } else {
        lemma_mag_split(ds, i - 1);
        lemma_mag_take_succ(ds, i - 1);
        let p = pow10((i - 1) as nat);
        let m = mag_of(ds.skip(i));
        assert(ds.skip(i - 1).len() > 0);
        assert(ds.skip(i - 1)[0] == ds[i - 1]);
        assert(ds.skip(i - 1).drop_first() =~= ds.skip(i));
        assert(mag_of(ds.skip(i - 1)) == ds[i - 1] + 10 * m);
        assert(mag_of(ds) == mag_of(ds.take(i - 1)) + p * (ds[i - 1] + 10 * m));
        assert(p * (ds[i - 1] + 10 * m) == ds[i - 1] * p + (10 * p) * m) by (nonlinear_arith);
        assert(pow10(i as nat) == 10 * p);
        assert(mag_of(ds.take(i)) == mag_of(ds.take(i - 1)) + ds[i - 1] * p);
        assert(mag_of(ds) == mag_of(ds.take(i)) + pow10(i as nat) * m);
    }
}

/// Dropping a trailing zero keeps the magnitude.
proof fn lemma_mag_drop_zero(ds: Seq<u8>)
    requires
        ds.len() > 0,
        ds.last() == 0,
    ensures
        mag_of(ds.drop_last()) == mag_of(ds),
{
    assert(ds =~= ds.drop_last().push(0));
    lemma_mag_push(ds.drop_last(), 0);
}

/// A digit sequence denotes zero exactly when all its digits are zero.
proof fn lemma_mag_zero_iff(ds: Seq<u8>)
    ensures
        mag_of(ds) == 0 <==> (forall|i: int| 0 <= i < ds.len() ==> ds[i] == 0),
    decreases ds.len(),
{
    if ds.len() > 0 {
        lemma_mag_zero_iff(ds.drop_first());
        assert(forall|i: int| 0 <= i < ds.drop_first().len() ==> ds.drop_first()[i] == ds[i + 1]);
        if mag_of(ds) == 0 {
            assert(ds[0] == 0);
            assert(mag_of(ds.drop_first()) == 0);
            assert forall|i: int| 0 <= i < ds.len() implies ds[i] == 0 by {
                if i > 0 {
                    assert(ds.drop_first()[i - 1] == 0);
                }
            }
        }
        if forall|i: int| 0 <= i < ds.len() ==> ds[i] == 0 {
            assert(ds[0] == 0);
            assert(forall|i: int| 0 <= i < ds.drop_first().len() ==> ds.drop_first()[i] == 0);
            assert(mag_of(ds.drop_first()) == 0);
            assert(mag_of(ds) == 0);
        }
    }
}

/// A magnitude below ten to `n` lives entirely in the first `n` digits.
proof fn lemma_mag_confined(ds: Seq<u8>, n: int)
    requires
        0 <= n <= ds.len(),
        mag_of(ds) < pow10(n as nat),
    ensures
        mag_of(ds.take(n)) == mag_of(ds),
        mag_of(ds.skip(n)) == 0,
{
    lemma_mag_split(ds, n);
    let p = pow10(n as nat);
    if mag_of(ds.skip(n)) >= 1 {
        assert(p * mag_of(ds.skip(n)) >= p) by (nonlinear_arith)
            requires
                mag_of(ds.skip(n)) >= 1,
                p >= 1,
        ;
        lemma_pow10_pos(n as nat);
        assert(false);
    }
}

/// A signed decimal integer of arbitrary precision.
#[derive(Debug, Clone, PartialEq, Eq)]
pub struct BigNumber {
    digits: Vec<u8>,
    negative: bool,
}

impl BigNumber {
    /// The digit sequence, least significant digit first.
    pub closed spec fn digits_seq(&self) -> Seq<u8> {
        self.digits@
    }

    /// The sign flag. It may be set on a zero magnitude.
    pub closed spec fn sign(&self) -> bool {
        self.negative
    }

    /// Every stored digit is below ten.
    pub open spec fn wf(&self) -> bool {
        digits_wf(self.digits_seq())
    }

    /// The magnitude: the absolute value this number denotes.
    pub open spec fn mag(&self) -> nat {
        mag_of(self.digits_seq())
    }

    /// The signed integer this number denotes.
    pub open spec fn value(&self) -> int {
        if self.sign() {
            -(self.mag() as int)
        } else {
            self.mag() as int
        }
    }

    /// Whether this number denotes zero (digits all zero, any sign).
    pub fn is_zero(&self) -> (r: bool)
        ensures
            r == (self.mag() == 0),
    {
        let n = self.digits.len();
        let mut i: usize = 0;
        while i < n
            invariant
                n == self.digits.len(),
                i <= n,
                forall|k: int| 0 <= k < i ==> self.digits@[k] == 0,
            decreases n - i,
        {
            if self.digits[i] != 0 {
                proof {
                    lemma_mag_zero_iff(self.digits@);
                }
                return false;
            }
            i += 1;
        }
        proof {
            lemma_mag_zero_iff(self.digits@);
        }
        true
    }

    /// The absolute value: the same digits with the sign cleared.
    pub fn absolute(&self) -> (r: BigNumber)
        ensures
            r.digits_seq() == self.digits_seq(),
            !r.sign(),
            r.value() == self.mag(),
    {
        BigNumber { digits: clone_digits(&self.digits), negative: false }
    }

    /// Multiplies by ten to the `n`, by prepending `n` zero digits.
    pub fn shift_left(&mut self, n: usize)
        ensures
            final(self).digits_seq() == seq_zeros(n as nat) + old(self).digits_seq(),
            final(self).sign() == old(self).sign(),
            final(self).wf() == old(self).wf(),
            final(self).mag() == pow10(n as nat) * old(self).mag(),
    {
        let mut nd: Vec<u8> = Vec::new();
        let mut i: usize = 0;
        while i < n
            invariant
                i <= n,
                nd@ =~= seq_zeros(i as nat),
            decreases n - i,
        {
            nd.push(0);
            proof {
                assert(nd@ =~= seq_zeros((i + 1) as nat));
            }
            i += 1;
        }
        let m = self.digits.len();
        let mut j: usize = 0;
        while j < m
            invariant
                m == self.digits.len(),
                j <= m,
                nd@ =~= seq_zeros(n as nat) + self.digits@.take(j as int),
            decreases m - j,
        {
            nd.push(self.digits[j]);
            proof {
                assert(nd@ =~= seq_zeros(n as nat) + self.digits@.take(j as int + 1));
            }
            j += 1;
        }
        proof {
            assert(self.digits@.take(m as int) =~= self.digits@);
            lemma_mag_zeros_prefix(n as nat, self.digits@);
            assert(forall|k: int|
                0 <= k < nd@.len() && k >= n ==> nd@[k] == self.digits@[k - n]);
            assert(digits_wf(nd@) == digits_wf(self.digits@)) by {
                assert(forall|k: int| 0 <= k < n ==> nd@[k] == 0);
                if digits_wf(self.digits@) {
                    assert(forall|k: int| 0 <= k < nd@.len() ==> nd@[k] < 10);
                }
                if digits_wf(nd@) {
                    assert forall|k: int| 0 <= k < self.digits@.len() implies self.digits@[k]
                        < 10 by {
                        assert(nd@[k + n] == self.digits@[k]);
                    }
                }
            }
        }
        self.digits = nd;
    }
}

/// A sequence of `n` zero digits.
pub open spec fn seq_zeros(n: nat) -> Seq<u8> {
    Seq::new(n, |i: int| 0u8)
}

/// Prepending `n` zero digits multiplies the magnitude by ten to the `n`.
proof fn lemma_mag_zeros_prefix(n: nat, ds: Seq<u8>)
    ensures
        mag_of(seq_zeros(n) + ds) == pow10(n) * mag_of(ds),
    decreases n,
{
    if n == 0 {
        assert(seq_zeros(0) + ds =~= ds);
        assert(pow10(0) == 1);
    } else {
        let s = seq_zeros(n) + ds;
        assert(s.len() > 0);
        assert(s[0] == 0);
        assert(s.drop_first() =~= seq_zeros((n - 1) as nat) + ds);
        lemma_mag_zeros_prefix((n - 1) as nat, ds);
        let p = pow10((n - 1) as nat);
        assert(mag_of(s) == 0 + 10 * (p * mag_of(ds)));
        assert(10 * (p * mag_of(ds)) == (10 * p) * mag_of(ds)) by (nonlinear_arith);
        assert(pow10(n) == 10 * p);
    }
}

/// The digit at `i`, reading zero beyond the end.
pub open spec fn dget(ds: Seq<u8>, i: int) -> u8 {
    if 0 <= i < ds.len() {
        ds[i]
    } else {
        0
    }
}

/// The magnitude of the first `i` digits (all of them, past the end).
pub open spec fn mag_upto(ds: Seq<u8>, i: int) -> nat {
    if i < ds.len() {
        mag_of(ds.take(i))
    } else {
        mag_of(ds)
    }
}

/// The magnitude of the digits from `i` up (zero from the end on).
pub open spec fn mag_from(ds: Seq<u8>, i: int) -> nat {
    if i < ds.len() {
        mag_of(ds.skip(i))
    } else {
        0
    }
}

proof fn lemma_pow10_mono(m: nat, n: nat)
    requires
        m <= n,
    ensures
        pow10(m) <= pow10(n),
    decreases n,
{
    if m < n {
        lemma_pow10_mono(m, (n - 1) as nat);
        lemma_pow10_pos((n - 1) as nat);
    }
}

/// Taking one more digit adds it at its power of ten.
proof fn lemma_mag_upto_succ(ds: Seq<u8>, i: int)
    requires
        0 <= i,
    ensures
        mag_upto(ds, i + 1) == mag_upto(ds, i) + dget(ds, i) * pow10(i as nat),
{
    if i + 1 < ds.len() {
        lemma_mag_take_succ(ds, i);
        assert(mag_upto(ds, i + 1) == mag_of(ds.take(i + 1)));
        assert(mag_upto(ds, i) == mag_of(ds.take(i)));
    } else if i < ds.len() {
        assert(ds.take(i + 1) =~= ds);
        lemma_mag_take_succ(ds, i);
        assert(mag_upto(ds, i + 1) == mag_of(ds));
        assert(mag_upto(ds, i) == mag_of(ds.take(i)));
    } else {
        assert(dget(ds, i) == 0);
        assert(mag_upto(ds, i + 1) == mag_of(ds));
        assert(mag_upto(ds, i) == mag_of(ds));
        assert(dget(ds, i) * pow10(i as nat) == 0);
    }
}

/// Reading one digit lower multiplies the upper magnitude by ten and adds
/// the digit.
proof fn lemma_mag_from_unfold(ds: Seq<u8>, i: int)
    requires
        0 <= i,
    ensures
        mag_from(ds, i) == dget(ds, i) + 10 * mag_from(ds, i + 1),
{
    if i < ds.len() {
        assert(ds.skip(i).len() > 0);
        assert(ds.skip(i)[0] == ds[i]);
        if i + 1 < ds.len() {
            assert(ds.skip(i).drop_first() =~= ds.skip(i + 1));
        } else {
            assert(ds.skip(i).drop_first() =~= Seq::<u8>::empty());
            assert(mag_of(Seq::<u8>::empty()) == 0);
        }
    }
}

/// The whole magnitude splits at `i` into the lower digits plus the upper
/// magnitude at its power of ten.
proof fn lemma_mag_upto_from(ds: Seq<u8>, i: int)
    requires
        0 <= i,
    ensures
        mag_of(ds) == mag_upto(ds, i) + pow10(i as nat) * mag_from(ds, i),
{
    if i < ds.len() {
        lemma_mag_split(ds, i);
    } else {
        assert(pow10(i as nat) * 0 == 0) by (nonlinear_arith);
    }
}

/// A copy of a digit vector with the same digit sequence.
fn clone_digits(v: &Vec<u8>) -> (r: Vec<u8>)
    ensures
        r@ == v@,
{
    let n = v.len();
    let mut r: Vec<u8> = Vec::new();
    let mut i: usize = 0;
    while i < n
        invariant
            n == v.len(),
            i <= n,
            r@ =~= v@.take(i as int),
        decreases n - i,
    {
        r.push(v[i]);
        proof {
            assert(r@ =~= v@.take(i as int + 1));
        }
        i += 1;
    }
    proof {
        assert(v@.take(n as int) =~= v@);
    }
    r
}

impl BigNumber {
    /// Schoolbook addition of digit sequences.
    fn add_digits(&self, other: &Vec<u8>) -> (r: Vec<u8>)
        requires
            self.wf(),
            digits_wf(other@),
        ensures
            digits_wf(r@),
            mag_of(r@) == self.mag() + mag_of(other@),
    {
        let a_len = self.digits.len();
        let b_len = other.len();
        let max_len = if a_len > b_len {
            a_len
        } else {
            b_len
        };
        let mut result: Vec<u8> = Vec::new();
        let mut carry: u8 = 0;
        let mut i: usize = 0;
        while i < max_len
            invariant
                a_len == self.digits.len(),
                b_len == other.len(),
                max_len == if a_len > b_len {
                    a_len
                } else {
                    b_len
                },
                self.wf(),
                digits_wf(other@),
                i <= max_len,
                carry <= 1,
                result@.len() == i,
                digits_wf(result@),
                mag_of(result@) + carry * pow10(i as nat) == mag_upto(self.digits@, i as int)
                    + mag_upto(other@, i as int),
            decreases max_len - i,
        {
            let da = if i < a_len {
                self.digits[i]
            } else {
                0
            };
            let db = if i < b_len {
                other[i]
            } else {
                0
            };
            proof {
                assert(da == dget(self.digits@, i as int));
                assert(db == dget(other@, i as int));
                assert(da < 10 && db < 10);
            }
            let sum = carry + da + db;
            let ghost r0 = result@;
            let ghost m0 = mag_of(result@);
            let ghost c0 = carry as int;
            let ghost p = pow10(i as nat) as int;
            carry = sum / 10;
            result.push(sum % 10);
            proof {
                assert(result@ == r0.push(sum % 10));
                lemma_mag_push(r0, sum % 10);
                lemma_mag_upto_succ(self.digits@, i as int);
                lemma_mag_upto_succ(other@, i as int);
                assert(mag_of(result@) == m0 + (sum % 10) * p);
                assert(sum == (sum % 10) + 10 * (sum / 10));
                assert(pow10((i + 1) as nat) == 10 * p);
                assert(mag_of(result@) + (sum / 10) * (10 * p) == m0 + ((sum % 10) + 10 * (sum
                    / 10)) * p) by (nonlinear_arith)
                    requires
                        mag_of(result@) == m0 + (sum % 10) * p,
                ;
                assert((c0 + da + db) * p == c0 * p + da * p + db * p) by (nonlinear_arith);
                assert(mag_of(result@) + (sum / 10) * pow10((i + 1) as nat) == mag_upto(
                    self.digits@,
                    i as int + 1,
                ) + mag_upto(other@, i as int + 1));
            }
            i += 1;
        }
        proof {
            assert(mag_upto(self.digits@, max_len as int) == self.mag());
            assert(mag_upto(other@, max_len as int) == mag_of(other@));
        }
        if carry > 0 {
            let ghost before = result@;
            result.push(carry);
            proof {
                lemma_mag_push(before, carry);
                assert(result@ == before.push(carry));
            }
        }
        result
    }

    /// Schoolbook subtraction of digit sequences; the minuend's magnitude
    /// must dominate. Trailing zero digits of the difference are trimmed
    /// down to a single digit.
    fn subtract_digits(&self, other: &Vec<u8>) -> (r: Vec<u8>)
        requires
            self.wf(),
            digits_wf(other@),
            mag_of(other@) <= self.mag(),
        ensures
            digits_wf(r@),
            mag_of(r@) == self.mag() - mag_of(other@),
            r@.len() <= 1 || r@.last() != 0,
    {
        let a_len = self.digits.len();
        let b_len = other.len();
        let mut result: Vec<u8> = Vec::new();
        let mut borrow: u8 = 0;
        let mut i: usize = 0;
        while i < a_len
            invariant
                a_len == self.digits.len(),
                b_len == other.len(),
                self.wf(),
                digits_wf(other@),
                i <= a_len,
                borrow <= 1,
                result@.len() == i,
                digits_wf(result@),
                mag_of(result@) == mag_upto(self.digits@, i as int) - mag_upto(other@, i as int)
                    + borrow * pow10(i as nat),
            decreases a_len - i,
        {
            let da = self.digits[i];
            let db = if i < b_len {
                other[i]
            } else {
                0
            };
            proof {
                assert(da == dget(self.digits@, i as int));
                assert(db == dget(other@, i as int));
                assert(da < 10 && db < 10);
            }
            let ghost r0 = result@;
            let ghost m0 = mag_of(result@) as int;
            let ghost b0 = borrow as int;
            let ghost p = pow10(i as nat) as int;
            let d: u8;
            if da >= db + borrow {
                d = da - db - borrow;
                borrow = 0;
            } else {
                d = da + 10 - db - borrow;
                borrow = 1;
            }
            result.push(d);
            proof {
                assert(result@ == r0.push(d));
                lemma_mag_push(r0, d);
                lemma_mag_upto_succ(self.digits@, i as int);
                lemma_mag_upto_succ(other@, i as int);
                assert(mag_of(result@) == m0 + d * p);
                assert(d == da - db - b0 + 10 * (borrow as int));
                assert(pow10((i + 1) as nat) == 10 * p);
                assert((da - db - b0 + 10 * (borrow as int)) * p == da * p - db * p - b0 * p + (
                borrow as int) * (10 * p)) by (nonlinear_arith);
                assert(mag_of(result@) == mag_upto(self.digits@, i as int + 1) - mag_upto(
                    other@,
                    i as int + 1,
                ) + borrow * pow10((i + 1) as nat));
            }
            i += 1;
        }
        proof {
            assert(mag_upto(self.digits@, a_len as int) == self.mag());
            // Any digits of the subtrahend beyond the minuend are zero,
            // since its magnitude fits below ten to the minuend's length.
            lemma_mag_bound(self.digits@);
            if b_len > a_len {
                lemma_mag_confined(other@, a_len as int);
                assert(mag_upto(other@, a_len as int) == mag_of(other@));
            } else {
                assert(mag_upto(other@, a_len as int) == mag_of(other@));
            }
            if borrow == 1 {
                lemma_mag_bound(result@);
                lemma_pow10_pos(a_len as nat);
                assert(mag_of(result@) >= pow10(a_len as nat));
                assert(false);
            }
        }
        while result.len() > 1 && result[result.len() - 1] == 0
            invariant
                digits_wf(result@),
                mag_of(result@) == self.mag() - mag_of(other@),
            decreases result.len(),
        {
            let ghost before = result@;
            result.pop();
            proof {
                lemma_mag_drop_zero(before);
                assert(result@ =~= before.drop_last());
            }
        }
        result
    }

    /// Multiplication by a single factor of at most ten.
    fn multiply_by_digit(&self, digit: u8) -> (r: BigNumber)
        requires
            self.wf(),
            digit <= 10,
        ensures
            r.wf(),
            !r.sign(),
            r.mag() == self.mag() * digit,
    {
        let n = self.digits.len();
        let mut result: Vec<u8> = Vec::new();
        let mut carry: u16 = 0;
        let mut i: usize = 0;
        proof {
            assert(result@ =~= Seq::<u8>::empty());
            assert(mag_of(Seq::<u8>::empty()) == 0);
            assert(self.digits@.take(0) =~= Seq::<u8>::empty());
            assert(pow10(0) == 1);
        }
        while i < n
            invariant
                n == self.digits.len(),
                self.wf(),
                digit <= 10,
                i <= n,
                carry <= 9,
                result@.len() == i,
                digits_wf(result@),
                mag_of(result@) + carry * pow10(i as nat) == mag_of(self.digits@.take(i as int))
                    * digit,
            decreases n - i,
        {
            let d = self.digits[i];
            proof {
                assert(d == self.digits@[i as int]);
                assert(d < 10);
            }
            let du = d as u16;
            let gu = digit as u16;
            proof {
                assert(du * gu <= 90) by (nonlinear_arith)
                    requires
                        du < 10,
                        gu <= 10,
                ;
            }
            let prod = du * gu + carry;
            let ghost r0 = result@;
            let ghost m0 = mag_of(result@) as int;
            let ghost c0 = carry as int;
            let ghost p = pow10(i as nat) as int;
            let ghost t0 = mag_of(self.digits@.take(i as int)) as int;
            carry = prod / 10;
            result.push((prod % 10) as u8);
            proof {
                assert(prod <= 99);
                assert(carry <= 9);
                assert(result@ == r0.push((prod % 10) as u8));
                lemma_mag_push(r0, (prod % 10) as u8);
                assert(mag_of(result@) == m0 + (prod % 10) * p);
                lemma_mag_take_succ(self.digits@, i as int);
                assert(mag_of(self.digits@.take(i as int + 1)) == t0 + d * p);
                assert(prod == d as int * digit as int + c0);
                assert(prod == (prod % 10) + 10 * (prod / 10));
                assert(pow10((i + 1) as nat) == 10 * p);
                assert((t0 + d * p) * digit == t0 * digit + (d as int * digit as int) * p)
                    by (nonlinear_arith);
                assert((d as int * digit as int + c0) * p == (d as int * digit as int) * p + c0
                    * p) by (nonlinear_arith);
                assert(m0 + (prod % 10) * p + (prod / 10) * (10 * p) == m0 + ((prod % 10) + 10 * (
                prod / 10)) * p) by (nonlinear_arith);
                assert(mag_of(result@) + carry * pow10((i + 1) as nat) == mag_of(
                    self.digits@.take(i as int + 1),
                ) * digit);
            }
            i += 1;
        }
        proof {
            assert(self.digits@.take(n as int) =~= self.digits@);
        }
        if carry > 0 {
            let ghost before = result@;
            result.push(carry as u8);
            proof {
                lemma_mag_push(before, carry as u8);
                assert(result@ == before.push(carry as u8));
            }
        }
        BigNumber { digits: result, negative: false }
    }
}

/// Whether one digit sequence denotes at least as much as another.
fn ge_mag(a: &Vec<u8>, b: &Vec<u8>) -> (r: bool)
    requires
        digits_wf(a@),
        digits_wf(b@),
    ensures
        r == (mag_of(a@) >= mag_of(b@)),
{
    let a_len = a.len();
    let b_len = b.len();
    let hi = if a_len > b_len {
        a_len
    } else {
        b_len
    };
    let mut k = hi;
    while k > 0
        invariant
            a_len == a.len(),
            b_len == b.len(),
            digits_wf(a@),
            digits_wf(b@),
            k <= hi,
            hi >= a_len && hi >= b_len,
            mag_from(a@, k as int) == mag_from(b@, k as int),
        decreases k,
    {
        k -= 1;
        let da = if k < a_len {
            a[k]
        } else {
            0
        };
        let db = if k < b_len {
            b[k]
        } else {
            0
        };
        proof {
            assert(da == dget(a@, k as int));
            assert(db == dget(b@, k as int));
            lemma_mag_from_unfold(a@, k as int);
            lemma_mag_from_unfold(b@, k as int);
        }
        if da > db {
            proof {
                lemma_ge_mag_decided(a@, b@, k as int);
            }
            return true;
        }
        if da < db {
            proof {
                lemma_ge_mag_decided(b@, a@, k as int);
            }
            return false;
        }
    }
    proof {
        lemma_mag_upto_from(a@, 0);
        lemma_mag_upto_from(b@, 0);
        assert(mag_upto(a@, 0) == 0 && mag_upto(b@, 0) == 0) by {
            if 0 < a@.len() {
                assert(a@.take(0) =~= Seq::<u8>::empty());
            }
            if 0 < b@.len() {
                assert(b@.take(0) =~= Seq::<u8>::empty());
            }
            assert(mag_of(Seq::<u8>::empty()) == 0);
        }
        assert(pow10(0) == 1);
    }
    true
}

/// Whether one number denotes at least as much as another.
fn ge_value(a: &BigNumber, b: &BigNumber) -> (r: bool)
    requires
        a.wf(),
        b.wf(),
    ensures
        r == (a.value() >= b.value()),
{
    let an = a.is_zero();
    let bn = b.is_zero();
    if !a.sign_flag() && !b.sign_flag() {
        ge_mag(&a.digits, &b.digits)
    } else if a.sign_flag() && b.sign_flag() {
        ge_mag(&b.digits, &a.digits)
    } else if a.sign_flag() {
        // A non-positive value reaches a non-negative one only at zero.
        an && bn
    } else {
        true
    }
}

impl BigNumber {
    /// The sign flag, as an executable read.
    fn sign_flag(&self) -> (r: bool)
        ensures
            r == self.sign(),
    {
        self.negative
    }

    /// Addition: the result denotes exactly the sum of the two values.
    pub fn add(&self, other: &BigNumber) -> (r: BigNumber)
        requires
            self.wf(),
            other.wf(),
        ensures
            r.wf(),
            r.value() == self.value() + other.value(),
    {
        if self.sign_flag() == other.sign_flag() {
            let sum_digits = self.add_digits(&other.digits);
            BigNumber { digits: sum_digits, negative: self.negative }
        } else if self.sign_flag() {
            other.subtract(&self.absolute())
        } else {
            self.subtract(&other.absolute())
        }
    }

    /// Subtraction: the result denotes exactly the difference of the two
    /// values.
    pub fn subtract(&self, other: &BigNumber) -> (r: BigNumber)
        requires
            self.wf(),
            other.wf(),
        ensures
            r.wf(),
            r.value() == self.value() - other.value(),
    {
        if self.sign_flag() != other.sign_flag() {
            let sum_digits = self.add_digits(&other.digits);
            BigNumber { digits: sum_digits, negative: self.negative }
        } else if ge_mag(&self.digits, &other.digits) {
            let diff_digits = self.subtract_digits(&other.digits);
            BigNumber { digits: diff_digits, negative: self.negative }
        } else {
            let diff_digits = other.subtract_digits(&self.digits);
            BigNumber { digits: diff_digits, negative: !self.negative }
        }
    }

    /// Multiplication: the result denotes exactly the product of the two
    /// values. Its sign flag is set exactly when the operands' flags
    /// differ, even on a zero product.
    pub fn multiply(&self, other: &BigNumber) -> (r: BigNumber)
        requires
            self.wf(),
            other.wf(),
        ensures
            r.wf(),
            r.value() == self.value() * other.value(),
            r.sign() == (self.sign() != other.sign()),
    {
        let mut result = BigNumber { digits: one_zero_digit(), negative: false };
        let n = other.digits.len();
        let mut i: usize = 0;
        proof {
            assert(other.digits@.take(0) =~= Seq::<u8>::empty());
            assert(mag_of(Seq::<u8>::empty()) == 0);
            assert(self.mag() * 0 == 0) by (nonlinear_arith);
        }
        while i < n
            invariant
                n == other.digits.len(),
                self.wf(),
                other.wf(),
                i <= n,
                result.wf(),
                result.value() == self.mag() * mag_of(other.digits@.take(i as int)),
            decreases n - i,
        {
            let d = other.digits[i];
            proof {
                assert(d == other.digits@[i as int]);
                assert(d < 10);
            }
            let mut temp = self.multiply_by_digit(d);
            temp.shift_left(i);
            let ghost m0 = result.value();
            result = result.add(&temp);
            proof {
                let p = pow10(i as nat) as int;
                let t0 = mag_of(other.digits@.take(i as int)) as int;
                lemma_mag_take_succ(other.digits@, i as int);
                assert(temp.value() == p * (self.mag() * d));
                assert(result.value() == m0 + p * (self.mag() * d));
                assert(self.mag() * ((t0 + d * p) as nat) == self.mag() * t0 + p * (self.mag()
                    * d)) by (nonlinear_arith)
                    requires
                        t0 >= 0,
                        p >= 0,
                ;
                assert(mag_of(other.digits@.take(i as int + 1)) == t0 + d * p);
            }
            i += 1;
        }
        proof {
            assert(other.digits@.take(n as int) =~= other.digits@);
            assert(result.value() == self.mag() * other.mag());
            assert(result.mag() == self.mag() * other.mag());
        }
        let neg = self.sign_flag() != other.sign_flag();
        result.negative = neg;
        proof {
            lemma_signed_product(self.mag(), other.mag(), self.sign(), other.sign());
        }
        result
    }

    /// Long division, by repeated subtraction of shifted multiples of the
    /// divisor. Division by a zero divisor is an error. A negative
    /// dividend yields a zero quotient; otherwise the quotient's magnitude
    /// is the magnitudes' euclidean quotient. The quotient's sign flag is
    /// set exactly when the operands' flags differ.
    pub fn divide(&self, other: &BigNumber) -> (r: Result<BigNumber, String>)
        requires
            self.wf(),
            other.wf(),
        ensures
            other.mag() == 0 <==> r is Err,
            r matches Ok(q) ==> (q.wf() && q.sign() == (self.sign() != other.sign())
                && q.mag() == (if self.sign() {
                0
            } else {
                self.mag() / other.mag()
            })),
    {
        if other.is_zero() {
            return Err(msg_division_by_zero());
        }
        let mut result = BigNumber { digits: one_zero_digit(), negative: false };
        let mut remainder = self.clone_number();
        let divisor = other.absolute();
        proof {
            assert(0 * (other.mag() as int) == 0) by (nonlinear_arith);
        }
        while ge_value(&remainder, &divisor)
            invariant
                self.wf(),
                other.wf(),
                divisor.wf(),
                !divisor.sign(),
                divisor.mag() == other.mag(),
                other.mag() >= 1,
                remainder.wf(),
                result.wf(),
                self.sign() ==> remainder.value() == self.value() && result.value() == 0,
                !self.sign() ==> (remainder.value() >= 0 && result.value() >= 0 && result.value()
                    * (other.mag() as int) + remainder.value() == self.mag()),
            decreases remainder.mag(),
        {
            let ghost rm0 = remainder.mag();
            // The loop runs only on a non-negative remainder at least as
            // large as the (positive) divisor.
            proof {
                assert(remainder.value() >= divisor.value());
                if self.sign() {
                    assert(remainder.value() <= 0);
                    assert(false);
                }
                assert(remainder.value() >= 1);
                assert(remainder.mag() == remainder.value());
            }
            let mut temp = other.absolute();
            let mut multiple = BigNumber { digits: one_one_digit(), negative: false };
            proof {
                assert(other.mag() * 1 == other.mag()) by (nonlinear_arith);
            }
            loop
                invariant
                    other.wf(),
                    temp.wf(),
                    multiple.wf(),
                    remainder.wf(),
                    !temp.sign(),
                    !multiple.sign(),
                    other.mag() >= 1,
                    multiple.mag() >= 1,
                    temp.mag() == other.mag() * multiple.mag(),
                    remainder.value() >= temp.mag(),
                    remainder.value() == rm0,
                ensures
                    other.wf(),
                    temp.wf(),
                    multiple.wf(),
                    remainder.wf(),
                    !temp.sign(),
                    !multiple.sign(),
                    multiple.mag() >= 1,
                    temp.mag() == other.mag() * multiple.mag(),
                    remainder.value() >= temp.mag(),
                    remainder.value() == rm0,
                    remainder.value() < 10 * temp.mag(),
                decreases rm0 - temp.mag(),
            {
                let shifted = temp.multiply_by_digit(10);
                if !ge_value(&remainder, &shifted) {
                    break ;
                }
                proof {
                    assert(temp.mag() >= 1) by (nonlinear_arith)
                        requires
                            temp.mag() == other.mag() * multiple.mag(),
                            other.mag() >= 1,
                            multiple.mag() >= 1,
                    ;
                }
                let ghost tm0 = temp.mag();
                let ghost mm0 = multiple.mag();
                temp.shift_left(1);
                multiple.shift_left(1);
                proof {
                    assert(pow10(0) == 1);
                    assert(pow10(1) == 10);
                    assert(temp.mag() == 10 * tm0);
                    assert(multiple.mag() == 10 * mm0);
                    assert(10 * (other.mag() * mm0) == other.mag() * (10 * mm0))
                        by (nonlinear_arith);
                }
            }
            proof {
                assert(temp.mag() >= 1) by (nonlinear_arith)
                    requires
                        temp.mag() == other.mag() * multiple.mag(),
                        other.mag() >= 1,
                        multiple.mag() >= 1,
                ;
            }
            let ghost res0 = result.value();
            let ghost mul0 = multiple.mag() as int;
            remainder = remainder.subtract(&temp);
            result = result.add(&multiple);
            proof {
                assert(remainder.value() >= 0);
                assert(remainder.mag() == remainder.value());
                assert(result.value() == res0 + mul0);
                assert((res0 + mul0) * (other.mag() as int) == res0 * (other.mag() as int) + mul0
                    * (other.mag() as int)) by (nonlinear_arith);
                assert(mul0 * (other.mag() as int) == (other.mag() * multiple.mag()) as int)
                    by (nonlinear_arith)
                    requires
                        mul0 == multiple.mag() as int,
                ;
            }
        }
        proof {
            if !self.sign() {
                assert(remainder.value() < divisor.value());
                assert(remainder.value() < other.mag());
                vstd::arithmetic::div_mod::lemma_fundamental_div_mod_converse(
                    self.mag() as int,
                    other.mag() as int,
                    result.value(),
                    remainder.value(),
                );
                assert(result.value() == self.mag() as int / other.mag() as int);
                assert(result.mag() == result.value());
            } else {
                assert(result.value() == 0);
                assert(result.mag() == 0);
            }
        }
        let neg = self.sign_flag() != other.sign_flag();
        result.negative = neg;
        Ok(result)
    }

    /// A structural copy.
    fn clone_number(&self) -> (r: BigNumber)
        ensures
            r.digits_seq() == self.digits_seq(),
            r.sign() == self.sign(),
    {
        BigNumber { digits: clone_digits(&self.digits), negative: self.negative }
    }
}

/// The digit vector `[0]`.
fn one_zero_digit() -> (r: Vec<u8>)
    ensures
        r@ =~= seq![0u8],
        digits_wf(r@),
        mag_of(r@) == 0,
{
    let mut v: Vec<u8> = Vec::new();
    v.push(0);
    proof {
        assert(v@ =~= seq![0u8]);
        assert(v@.drop_first() =~= Seq::<u8>::empty());
        assert(mag_of(Seq::<u8>::empty()) == 0);
    }
    v
}

/// The digit vector `[1]`.
fn one_one_digit() -> (r: Vec<u8>)
    ensures
        r@ =~= seq![1u8],
        digits_wf(r@),
        mag_of(r@) == 1,
{
    let mut v: Vec<u8> = Vec::new();
    v.push(1);
    proof {
        assert(v@ =~= seq![1u8]);
        assert(v@.drop_first() =~= Seq::<u8>::empty());
        assert(mag_of(Seq::<u8>::empty()) == 0);
    }
    v
}

/// The division-by-zero error message.
fn msg_division_by_zero() -> (r: String)
    ensures
        r@ == "Division by zero"@,
{
    let r = String::from_str("Division by zero");
    r
}

/// Signed product arithmetic: magnitudes multiply, signs combine by
/// disagreement.
proof fn lemma_signed_product(ma: nat, mb: nat, sa: bool, sb: bool)
    ensures
        (if sa != sb {
            -((ma * mb) as int)
        } else {
            (ma * mb) as int
        }) == (if sa {
            -(ma as int)
        } else {
            ma as int
        }) * (if sb {
            -(mb as int)
        } else {
            mb as int
        }),
{
    assert((-(ma as int)) * (-(mb as int)) == ma * mb) by (nonlinear_arith);
    assert((-(ma as int)) * (mb as int) == -((ma * mb) as int)) by (nonlinear_arith);
    assert((ma as int) * (-(mb as int)) == -((ma * mb) as int)) by (nonlinear_arith);
}

/// An ASCII whitespace character, as parsing trims it.
pub open spec fn is_space(c: char) -> bool {
    c == ' ' || c == '\t' || c == '\n' || c == '\r'
}

/// The input with leading and trailing whitespace removed.
pub open spec fn trim_spec(s: Seq<char>) -> Seq<char>
    decreases s.len(),
{
    if s.len() == 0 {
        s
    } else if is_space(s[0]) {
        trim_spec(s.drop_first())
    } else if is_space(s.last()) {
        trim_spec(s.drop_last())
    } else {
        s
    }
}

/// A decimal digit character.
pub open spec fn is_digit_char(c: char) -> bool {
    48 <= c as u32 <= 57
}

/// The numeric value of a decimal digit character.
pub open spec fn digit_val(c: char) -> u8 {
    (c as u32 - 48) as u8
}

/// A parse succeeds exactly when, after trimming, every character is a
/// digit or a minus sign (a minus sign anywhere is tolerated and skipped;
/// only a leading one makes the number negative).
pub open spec fn parse_ok(t: Seq<char>) -> bool {
    forall|i: int| 0 <= i < t.len() ==> is_digit_char(t[i]) || t[i] == '-'
}

/// The digit sequence a parse collects: the input is scanned from its last
/// character to its first, and each digit lands at the next position, so
/// the least significant digit comes first.
pub open spec fn digits_acc(s: Seq<char>) -> Seq<u8>
    decreases s.len(),
{
    if s.len() == 0 {
        Seq::empty()
    } else if is_digit_char(s.last()) {
        seq![digit_val(s.last())] + digits_acc(s.drop_last())
    } else {
        digits_acc(s.drop_last())
    }
}

/// Scanning one more (earlier) character appends its digit, if any.
proof fn lemma_digits_acc_front(c: char, t: Seq<char>)
    ensures
        digits_acc(seq![c] + t) == if is_digit_char(c) {
            digits_acc(t).push(digit_val(c))
        } else {
            digits_acc(t)
        },
    decreases t.len(),
{
    let s = seq![c] + t;
    if t.len() == 0 {
        assert(s.len() == 1);
        assert(s.last() == c);
        assert(s.drop_last() =~= Seq::<char>::empty());
        assert(digits_acc(Seq::<char>::empty()) =~= Seq::<u8>::empty());
        if is_digit_char(c) {
            assert(seq![digit_val(c)] + Seq::<u8>::empty() =~= Seq::<u8>::empty().push(
                digit_val(c),
            ));
        }
    } else {
        assert(s.last() == t.last());
        assert(s.drop_last() =~= seq![c] + t.drop_last());
        lemma_digits_acc_front(c, t.drop_last());
        if is_digit_char(t.last()) {
            if is_digit_char(c) {
                assert(seq![digit_val(t.last())] + digits_acc(t.drop_last()).push(digit_val(c))
                    =~= (seq![digit_val(t.last())] + digits_acc(t.drop_last())).push(
                    digit_val(c),
                ));
            }
        }
    }
}

/// The digits a parse collects are decimal digits.
proof fn lemma_digits_acc_wf(s: Seq<char>)
    ensures
        digits_wf(digits_acc(s)),
    decreases s.len(),
{
    if s.len() > 0 {
        lemma_digits_acc_wf(s.drop_last());
        if is_digit_char(s.last()) {
            assert(digit_val(s.last()) < 10);
            assert(forall|i: int|
                0 <= i < digits_acc(s).len() ==> digits_acc(s)[i] == (seq![digit_val(s.last())]
                    + digits_acc(s.drop_last()))[i]);
        }
    }
}

/// When everything before `start` and everything from `end` on is
/// whitespace, and the ends of the middle are not, trimming yields exactly
/// the middle.
proof fn lemma_trim_range(s: Seq<char>, start: int, end: int)
    requires
        0 <= start <= end <= s.len(),
        forall|k: int| 0 <= k < start ==> is_space(s[k]),
        forall|k: int| end <= k < s.len() ==> is_space(s[k]),
        start < end ==> !is_space(s[start]) && !is_space(s[end - 1]),
    ensures
        trim_spec(s) == s.subrange(start, end),
    decreases s.len(),
{
    if s.len() == 0 {
        assert(s.subrange(0, 0) =~= s);
    } else if is_space(s[0]) {
        let d = s.drop_first();
        assert(forall|k: int| 0 <= k < d.len() ==> d[k] == s[k + 1]);
        if start > 0 {
            lemma_trim_range(d, start - 1, end - 1);
            assert(d.subrange(start - 1, end - 1) =~= s.subrange(start, end));
        } else {
            assert(start == end);
            lemma_trim_range(d, 0, 0);
            assert(d.subrange(0, 0) =~= s.subrange(start, end));
        }
    } else if is_space(s.last()) {
        let d = s.drop_last();
        assert(end < s.len());
        assert(start < s.len());
        lemma_trim_range(d, start, end);
        assert(d.subrange(start, end) =~= s.subrange(start, end));
    } else {
        assert(start == 0);
        assert(end == s.len());
        assert(s.subrange(0, s.len() as int) =~= s);
    }
}

impl BigNumber {
    /// Parses a decimal integer from text. Leading and trailing ASCII
    /// whitespace is ignored. The remaining characters must all be digits
    /// or minus signs; the number is negative exactly when the first of
    /// them is a minus sign (further minus signs are skipped). An empty
    /// remainder parses as zero with no digits.
    pub fn from_str(num: &str) -> (r: Result<BigNumber, String>)
        ensures
            r is Ok <==> parse_ok(trim_spec(num@)),
            r matches Ok(b) ==> (b.wf() && b.digits_seq() == digits_acc(trim_spec(num@))
                && b.sign() == (trim_spec(num@).len() > 0 && trim_spec(num@)[0] == '-')),
            r matches Err(e) ==> e@ == "Invalid number format"@,
    {
        let v = chars_vec(num);
        let n = v.len();
        let mut start: usize = 0;
        while start < n && is_space_char(v[start])
            invariant
                n == v.len(),
                v@ == num@,
                start <= n,
                forall|k: int| 0 <= k < start ==> is_space(v@[k]),
            decreases n - start,
        {
            start += 1;
        }
        let mut end: usize = n;
        while end > start && is_space_char(v[end - 1])
            invariant
                n == v.len(),
                v@ == num@,
                start <= end <= n,
                forall|k: int| 0 <= k < start ==> is_space(v@[k]),
                forall|k: int| end <= k < n ==> is_space(v@[k]),
            decreases end,
        {
            end -= 1;
        }
        proof {
            if start < end {
                assert(!is_space(v@[start as int]));
                assert(!is_space(v@[end - 1]));
            }
            lemma_trim_range(num@, start as int, end as int);
        }
        let ghost t = trim_spec(num@);
        proof {
            assert(t == num@.subrange(start as int, end as int));
        }

        let negative = start < end && v[start] == '-';
        proof {
            assert(start < end ==> t[0] == v@[start as int]);
        }

        let mut digits: Vec<u8> = Vec::new();
        let mut j: usize = end;
        proof {
            assert(t.skip(end - start) =~= Seq::<char>::empty());
            assert(digits_acc(Seq::<char>::empty()) =~= Seq::<u8>::empty());
        }
        while j > start
            invariant
                n == v.len(),
                v@ == num@,
                start <= j <= end <= n,
                t == trim_spec(num@),
                t == num@.subrange(start as int, end as int),
                digits@ == digits_acc(t.skip(j - start)),
                forall|k: int|
                    j - start <= k < t.len() ==> is_digit_char(#[trigger] t[k]) || t[k] == '-',
            decreases j,
        {
            let c = v[j - 1];
            proof {
                assert(t[j - 1 - start] == v@[j - 1]);
            }
            let u = c as u32;
            let ghost pre = digits@;
            if 48 <= u && u <= 57 {
                digits.push((u - 48) as u8);
                proof {
                    assert(is_digit_char(c));
                    assert(digits@ == pre.push(digit_val(c)));
                }
            } else if !(c == '-') {
                proof {
                    assert(!is_digit_char(c) && t[j - 1 - start] != '-');
                    assert(!parse_ok(t));
                }
                return Err(msg_invalid_format());
            }
            proof {
                assert(t.skip(j - 1 - start) =~= seq![t[j - 1 - start]] + t.skip(j - start));
                lemma_digits_acc_front(t[j - 1 - start], t.skip(j - start));
            }
            j -= 1;
        }
        proof {
            assert(t.skip(0) =~= t);
            assert(parse_ok(t));
            lemma_digits_acc_wf(t);
        }
        Ok(BigNumber { digits, negative })
    }

    /// Renders the number: its digits from most to least significant, with
    /// a leading minus sign when the sign flag is set. Leading zero digits
    /// are kept, an empty digit sequence prints as the empty string (or
    /// just `-`).
    pub fn to_string(&self) -> (r: String)
        requires
            self.wf(),
        ensures
            r@ == (if self.sign() {
                seq!['-']
            } else {
                Seq::<char>::empty()
            }) + digit_chars(self.digits_seq()),
    {
        let mut r = String::new();
        let ghost prefix: Seq<char> = if self.sign() {
            seq!['-']
        } else {
            Seq::empty()
        };
        if self.sign_flag() {
            push_char(&mut r, '-');
        }
        proof {
            assert(r@ =~= prefix);
        }
        let n = self.digits.len();
        let mut i: usize = 0;
        while i < n
            invariant
                n == self.digits.len(),
                self.wf(),
                i <= n,
                r@ == prefix + digit_chars(self.digits_seq()).take(i as int),
                prefix == if self.sign() {
                    seq!['-']
                } else {
                    Seq::<char>::empty()
                },
            decreases n - i,
        {
            let d = self.digits[n - 1 - i];
            proof {
                assert(d == self.digits@[n - 1 - i]);
                assert(d < 10);
            }
            push_char(&mut r, (d + 48) as char);
            proof {
                assert(digit_chars(self.digits_seq())[i as int] == digit_to_char(d));
                assert(r@ =~= prefix + digit_chars(self.digits_seq()).take(i as int + 1));
            }
            i += 1;
        }
        proof {
            assert(digit_chars(self.digits_seq()).take(n as int) =~= digit_chars(
                self.digits_seq(),
            ));
        }
        r
    }
}

/// The character of a decimal digit.
pub open spec fn digit_to_char(d: u8) -> char {
    ((d + 48) as u8) as char
}

/// The characters of a digit sequence, most significant digit first.
pub open spec fn digit_chars(ds: Seq<u8>) -> Seq<char> {
    Seq::new(ds.len(), |i: int| digit_to_char(ds[ds.len() - 1 - i]))
}

/// Whether a character is ASCII whitespace, as trimming sees it.
fn is_space_char(c: char) -> (r: bool)
    ensures
        r == is_space(c),
{
    c == ' ' || c == '\t' || c == '\n' || c == '\r'
}

/// The parse-failure message.
fn msg_invalid_format() -> (r: String)
    ensures
        r@ == "Invalid number format"@,
{
    let r = String::from_str("Invalid number format");
    r
}

/// When the digits above `k` agree and the digit at `k` is strictly
/// larger, the whole magnitude is strictly larger.
proof fn lemma_ge_mag_decided(a: Seq<u8>, b: Seq<u8>, k: int)
    requires
        digits_wf(a),
        digits_wf(b),
        0 <= k,
        dget(a, k) > dget(b, k),
        mag_from(a, k + 1) == mag_from(b, k + 1),
    ensures
        mag_of(a) > mag_of(b),
{
    let p = pow10(k as nat);
    lemma_pow10_pos(k as nat);
    lemma_mag_upto_from(a, k);
    lemma_mag_upto_from(b, k);
    lemma_mag_from_unfold(a, k);
    lemma_mag_from_unfold(b, k);
    let t = mag_from(a, k + 1);
    assert(mag_from(a, k) == dget(a, k) + 10 * t);
    assert(mag_from(b, k) == dget(b, k) + 10 * t);
    // The lower digits are bounded by the power of ten at `k`.
    assert(mag_upto(a, k) < p && mag_upto(b, k) < p) by {
        if k < a.len() {
            assert(digits_wf(a.take(k)));
            lemma_mag_bound(a.take(k));
            lemma_pow10_mono(a.take(k).len(), k as nat);
        } else {
            lemma_mag_bound(a);
            lemma_pow10_mono(a.len(), k as nat);
        }
        if k < b.len() {
            assert(digits_wf(b.take(k)));
            lemma_mag_bound(b.take(k));
            lemma_pow10_mono(b.take(k).len(), k as nat);
        } else {
            lemma_mag_bound(b);
            lemma_pow10_mono(b.len(), k as nat);
        }
    }
    assert(p * ((dget(a, k) + 10 * t) as nat) >= p * ((dget(b, k) + 10 * t) as nat) + p)
        by (nonlinear_arith)
        requires
            dget(a, k) >= dget(b, k) + 1,
            p >= 1,
    ;
}

} // verus!

