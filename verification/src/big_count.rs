//! Natural numbers of any size, for counting models: decimal limbs of eighteen digits each,
//! least significant first.
use vstd::prelude::*;
use crate::bdd_file::{decimal, digit_char};

verus! {

/// The base of a limb: ten to the eighteenth.
pub const LIMB_BASE: u64 = 1_000_000_000_000_000_000u64;

/// `LIMB_BASE` to the power of `i`.
pub open spec fn base_pow(i: nat) -> nat
    decreases i,
{
    if i == 0 {
        1
    } else {
        (LIMB_BASE as nat) * base_pow((i - 1) as nat)
    }
}

/// Limb `i` of `s`, where limbs past the end count as 0.
pub open spec fn limb(s: Seq<u64>, i: int) -> nat {
    if 0 <= i < s.len() {
        s[i] as nat
    } else {
        0
    }
}

/// The value of the lowest `n` limbs of `s`.
pub open spec fn value_upto(s: Seq<u64>, n: nat) -> nat
    decreases n,
{
    if n == 0 {
        0
    } else {
        value_upto(s, (n - 1) as nat) + limb(s, n - 1) * base_pow((n - 1) as nat)
    }
}

/// The number that the limbs `s` stand for.
pub open spec fn limbs_value(s: Seq<u64>) -> nat {
    value_upto(s, s.len())
}

/// A natural number of any size.
pub struct BigCount {
    /// Decimal limbs below `LIMB_BASE`, least significant first.
    pub limbs: Vec<u64>,
}

impl View for BigCount {
    type V = nat;

    open spec fn view(&self) -> nat {
        limbs_value(self.limbs@)
    }
}

/// Sequences that agree on the lowest `n` limbs agree on their value.
pub proof fn lemma_value_same_limbs(s: Seq<u64>, t: Seq<u64>, n: nat)
    requires
        forall|j: int| 0 <= j < n ==> limb(s, j) == limb(t, j),
    ensures
        value_upto(s, n) == value_upto(t, n),
    decreases n,
{
    if n > 0 {
        lemma_value_same_limbs(s, t, (n - 1) as nat);
    }
}

/// Limbs past the end add nothing.
pub proof fn lemma_value_past_end(s: Seq<u64>, n: nat)
    requires
        n >= s.len(),
    ensures
        value_upto(s, n) == limbs_value(s),
    decreases n,
{
    if n > s.len() {
        lemma_value_past_end(s, (n - 1) as nat);
        assert(limb(s, n - 1) == 0);
        assert(0 * base_pow((n - 1) as nat) == 0);
    }
}

/// Powers of the base are positive.
pub proof fn lemma_base_pow_pos(i: nat)
    ensures
        base_pow(i) >= 1,
    decreases i,
{
    if i > 0 {
        lemma_base_pow_pos((i - 1) as nat);
        assert(LIMB_BASE * base_pow((i - 1) as nat) >= 1) by (nonlinear_arith)
            requires
                base_pow((i - 1) as nat) >= 1,
        ;
    }
}

impl BigCount {
    /// Every limb lies below the base.
    pub open spec fn valid(&self) -> bool {
        forall|i: int| 0 <= i < self.limbs@.len() ==> #[trigger] self.limbs@[i] < LIMB_BASE
    }

    /// The number 0.
    pub fn zero() -> (r: BigCount)
        ensures
            r.valid(),
            r@ == 0,
    {
        BigCount { limbs: Vec::new() }
    }

    /// The number `x`.
    pub fn from_u64(x: u64) -> (r: BigCount)
        ensures
            r.valid(),
            r@ == x,
    {
        let mut limbs: Vec<u64> = Vec::new();
        limbs.push(x % LIMB_BASE);
        limbs.push(x / LIMB_BASE);
        proof {
            assert(base_pow(1) == LIMB_BASE) by {
                assert(base_pow(0) == 1);
            }
            assert(limbs_value(limbs@) == value_upto(limbs@, 2));
            assert(value_upto(limbs@, 0) == 0);
            assert(base_pow(0) == 1);
            assert(value_upto(limbs@, 1) == limb(limbs@, 0) * base_pow(0));
            assert(base_pow(1) == LIMB_BASE * base_pow(0));
            assert(value_upto(limbs@, 2) == value_upto(limbs@, 1) + limb(limbs@, 1) * base_pow(1));
            assert(x == x % LIMB_BASE + (x / LIMB_BASE) * LIMB_BASE) by (nonlinear_arith);
        }
        BigCount { limbs }
    }

    /// A copy of this number.
    pub fn copy(&self) -> (r: BigCount)
        requires
            self.valid(),
        ensures
            r.valid(),
            r.limbs@ == self.limbs@,
            r@ == self@,
    {
        let mut limbs: Vec<u64> = Vec::new();
        let mut i: usize = 0;
        while i < self.limbs.len()
            invariant
                i <= self.limbs@.len(),
                limbs@ == self.limbs@.subrange(0, i as int),
            decreases self.limbs@.len() - i,
        {
            limbs.push(self.limbs[i]);
            i = i + 1;
        }
        proof {
            assert(limbs@ =~= self.limbs@);
        }
        BigCount { limbs }
    }

    /// The sum of this number and `other`.
    pub fn add(&self, other: &BigCount) -> (r: BigCount)
        requires
            self.valid(),
            other.valid(),
        ensures
            r.valid(),
            r@ == self@ + other@,
    {
        let a = &self.limbs;
        let b = &other.limbs;
        let n = if a.len() < b.len() { b.len() } else { a.len() };
        let mut limbs: Vec<u64> = Vec::new();
        let mut carry: u64 = 0;
        let mut i: usize = 0;
        while i < n
            invariant
                self.valid(),
                other.valid(),
                a == &self.limbs,
                b == &other.limbs,
                n >= a@.len(),
                n >= b@.len(),
                i <= n,
                limbs@.len() == i,
                forall|j: int| 0 <= j < limbs@.len() ==> #[trigger] limbs@[j] < LIMB_BASE,
                carry <= 1,
                value_upto(limbs@, i as nat) + carry * base_pow(i as nat) == value_upto(a@, i as nat) + value_upto(b@, i as nat),
            decreases n - i,
        {
            let x = if i < a.len() { a[i] } else { 0 };
            let y = if i < b.len() { b[i] } else { 0 };
            assert(x == limb(a@, i as int) && y == limb(b@, i as int));
            let s = x + y + carry;
            let d: u64;
            let c: u64;
            if s >= LIMB_BASE {
                d = s - LIMB_BASE;
                c = 1;
            } else {
                d = s;
                c = 0;
            }
            let ghost before = limbs@;
            limbs.push(d);
            proof {
                lemma_value_same_limbs(limbs@, before, i as nat);
                assert(limb(limbs@, i as int) == d);
                let bp = base_pow(i as nat);
                assert(base_pow(i as nat + 1) == LIMB_BASE * bp);
                assert(d * bp + c * (LIMB_BASE * bp) == (x + y + carry) * bp) by (nonlinear_arith)
                    requires
                        d + c * LIMB_BASE == x + y + carry,
                ;
                assert((x + y + carry) * bp == x * bp + y * bp + carry * bp) by (nonlinear_arith);
            }
            carry = c;
            i = i + 1;
        }
        if carry == 1 {
            let ghost before = limbs@;
            limbs.push(1);
            proof {
                lemma_value_same_limbs(limbs@, before, n as nat);
                assert(value_upto(limbs@, n as nat + 1) == value_upto(limbs@, n as nat) + base_pow(n as nat));
            }
        }
        proof {
            lemma_value_past_end(a@, n as nat);
            lemma_value_past_end(b@, n as nat);
        }
        BigCount { limbs }
    }

    /// This number times `2^k`.
    pub fn times_pow2(&self, k: usize) -> (r: BigCount)
        requires
            self.valid(),
        ensures
            r.valid(),
            r@ == self@ * crate::sat::p2(k as nat),
    {
        let mut x = self.copy();
        let mut i: usize = 0;
        proof {
            assert(crate::sat::p2(0) == 1);
        }
        while i < k
            invariant
                i <= k,
                x.valid(),
                x@ == self@ * crate::sat::p2(i as nat),
            decreases k - i,
        {
            let y = x.add(&x);
            proof {
                assert(self@ * crate::sat::p2(i as nat) * 2 == self@ * (2 * crate::sat::p2(i as nat))) by (nonlinear_arith);
            }
            x = y;
            i = i + 1;
        }
        x
    }

    /// This number as a `u128`, or `None` where it exceeds `u128::MAX`.
    pub fn to_u128(&self) -> (r: Option<u128>)
        requires
            self.valid(),
        ensures
            r matches Some(x) ==> x == self@,
            r is None <==> self@ > u128::MAX,
    {
        let n = self.limbs.len();
        let mut acc: u128 = 0;
        let mut i: usize = n;
        // Horner's rule from the most significant limb down
        while i > 0
            invariant
                self.valid(),
                n == self.limbs@.len(),
                i <= n,
                acc as nat * base_pow(i as nat) + value_upto(self.limbs@, i as nat) == self@,
            decreases i,
        {
            let l = self.limbs[i - 1];
            proof {
                lemma_base_pow_pos((i - 1) as nat);
                assert(base_pow(i as nat) == LIMB_BASE * base_pow((i - 1) as nat));
                assert(acc as nat * (LIMB_BASE * base_pow((i - 1) as nat)) + l * base_pow((i - 1) as nat)
                    == (acc as nat * LIMB_BASE + l) * base_pow((i - 1) as nat)) by (nonlinear_arith);
            }
            if acc > (u128::MAX - l as u128) / (LIMB_BASE as u128) {
                proof {
                    let rest = value_upto(self.limbs@, (i - 1) as nat);
                    let bp = base_pow((i - 1) as nat);
                    let q: int = (u128::MAX - l) / (LIMB_BASE as int);
                    assert(acc as nat * LIMB_BASE + l > u128::MAX) by (nonlinear_arith)
                        requires
                            acc > q,
                            q == (u128::MAX - l) / (LIMB_BASE as int),
                            LIMB_BASE > 0,
                            l <= u128::MAX,
                    ;
                    assert((acc as nat * LIMB_BASE + l) * bp >= acc as nat * LIMB_BASE + l) by (nonlinear_arith)
                        requires
                            bp >= 1,
                    ;
                }
                return None;
            }
            acc = acc * (LIMB_BASE as u128) + l as u128;
            i = i - 1;
        }
        proof {
            assert(base_pow(0) == 1);
            assert(value_upto(self.limbs@, 0) == 0);
            assert(acc as nat * base_pow(0) == acc);
        }
        Some(acc)
    }
}


/// Ten to the power of `k`.
pub open spec fn pow10(k: nat) -> nat
    decreases k,
{
    if k == 0 {
        1
    } else {
        10 * pow10((k - 1) as nat)
    }
}

/// The lowest `k` decimal digits of `l`, with leading zeros.
pub open spec fn padded(k: nat, l: nat) -> Seq<char>
    decreases k,
{
    if k == 0 {
        Seq::empty()
    } else {
        padded((k - 1) as nat, l / 10).push(digit_char((l % 10) as int))
    }
}

/// Appending `k` digits to a number of at least one: its decimal digits, then the `k` digits.
pub proof fn lemma_decimal_append(x: nat, l: nat, k: nat)
    requires
        x >= 1,
        l < pow10(k),
    ensures
        decimal(x * pow10(k) + l) == decimal(x) + padded(k, l),
    decreases k,
{
    if k == 0 {
        assert(x * 1 + l == x);
        assert(decimal(x) + Seq::<char>::empty() =~= decimal(x));
    } else {
        let q = pow10((k - 1) as nat);
        let y = x * pow10(k) + l;
        assert(q >= 1) by {
            lemma_pow10_pos((k - 1) as nat);
        }
        assert(l == 10 * (l / 10) + l % 10);
        assert(l / 10 < q) by (nonlinear_arith)
            requires
                l < 10 * q,
                l == 10 * (l / 10) + l % 10,
                0 <= l % 10,
        ;
        assert(y == (x * q + l / 10) * 10 + l % 10) by (nonlinear_arith)
            requires
                y == x * (10 * q) + l,
                l == 10 * (l / 10) + l % 10,
        ;
        vstd::arithmetic::div_mod::lemma_fundamental_div_mod_converse(y as int, 10, (x * q + l / 10) as int, (l % 10) as int);
        assert(y >= 10) by (nonlinear_arith)
            requires
                y == x * (10 * q) + l,
                x >= 1,
                q >= 1,
        ;
        lemma_decimal_append(x, l / 10, (k - 1) as nat);
        assert(decimal(y) == decimal(y / 10).push(digit_char((y % 10) as int)));
        assert(decimal(x) + padded(k, l) =~= (decimal(x) + padded((k - 1) as nat, l / 10)).push(digit_char((l % 10) as int)));
    }
}

/// Powers of ten are positive.
pub proof fn lemma_pow10_pos(k: nat)
    ensures
        pow10(k) >= 1,
    decreases k,
{
    if k > 0 {
        lemma_pow10_pos((k - 1) as nat);
    }
}

/// Appends the decimal digits of `n`.
fn push_digits(out: &mut Vec<char>, n: u64)
    ensures
        final(out)@ == old(out)@ + decimal(n as nat),
    decreases n,
{
    if n >= 10 {
        push_digits(out, n / 10);
    }
    out.push(digit_of(n % 10));
    proof {
        if n < 10 {
            assert(old(out)@ + decimal(n as nat) =~= old(out)@.push(digit_char(n as int)));
        } else {
            assert(old(out)@ + decimal(n as nat) =~= (old(out)@ + decimal((n / 10) as nat)).push(digit_char((n % 10) as int)));
        }
    }
}

/// Appends the lowest `k` decimal digits of `l`, with leading zeros.
fn push_padded(out: &mut Vec<char>, l: u64, k: usize)
    ensures
        final(out)@ == old(out)@ + padded(k as nat, l as nat),
    decreases k,
{
    if k > 0 {
        push_padded(out, l / 10, k - 1);
        out.push(digit_of(l % 10));
        proof {
            assert(old(out)@ + padded(k as nat, l as nat)
                =~= (old(out)@ + padded((k - 1) as nat, (l / 10) as nat)).push(digit_char((l % 10) as int)));
        }
    } else {
        proof {
            assert(old(out)@ + padded(0, l as nat) =~= old(out)@);
        }
    }
}

/// The character of a decimal digit.
fn digit_of(d: u64) -> (c: char)
    requires
        d < 10,
    ensures
        c == digit_char(d as int),
{
    if d == 0 { '0' } else if d == 1 { '1' } else if d == 2 { '2' } else if d == 3 { '3' } else if d == 4 { '4' }
    else if d == 5 { '5' } else if d == 6 { '6' } else if d == 7 { '7' } else if d == 8 { '8' } else { '9' }
}

impl BigCount {
    /// The decimal digits of this number, without leading zeros.
    pub fn to_decimal(&self) -> (r: Vec<char>)
        requires
            self.valid(),
        ensures
            r@ == decimal(self@),
    {
        proof {
            reveal_with_fuel(pow10, 19);
            assert(pow10(18) == LIMB_BASE);
        }
        let n = self.limbs.len();
        let mut out: Vec<char> = Vec::new();
        let ghost mut acc: nat = 0;
        let mut i: usize = n;
        while i > 0
            invariant
                self.valid(),
                n == self.limbs@.len(),
                i <= n,
                pow10(18) == LIMB_BASE,
                acc * base_pow(i as nat) + value_upto(self.limbs@, i as nat) == self@,
                acc == 0 ==> out@.len() == 0,
                acc > 0 ==> out@ == decimal(acc),
            decreases i,
        {
            let l = self.limbs[i - 1];
            proof {
                assert(base_pow(i as nat) == LIMB_BASE * base_pow((i - 1) as nat));
                assert(acc * (LIMB_BASE * base_pow((i - 1) as nat)) + l * base_pow((i - 1) as nat)
                    == (acc * LIMB_BASE + l) * base_pow((i - 1) as nat)) by (nonlinear_arith);
            }
            if out.len() > 0 {
                push_padded(&mut out, l, 18);
                proof {
                    lemma_decimal_append(acc, l as nat, 18);
                }
            } else if l > 0 {
                push_digits(&mut out, l);
                proof {
                    assert(out@ =~= decimal(l as nat));
                }
            }
            proof {
                acc = (acc * LIMB_BASE + l) as nat;
            }
            i = i - 1;
        }
        proof {
            assert(base_pow(0) == 1);
            assert(value_upto(self.limbs@, 0) == 0);
            assert(acc * base_pow(0) == acc);
        }
        if out.len() == 0 {
            out.push('0');
            proof {
                assert(out@ =~= decimal(0));
            }
        }
        out
    }
}

} // verus!
