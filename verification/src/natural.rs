//! Natural numbers of any size, for arithmetic that must be exact.

use vstd::prelude::*;

verus! {

/// The base in which a `Natural` keeps its digits.
pub const BASE: u64 = 0x1_0000_0000;

/// `BASE` to the power of `i`.
pub open spec fn weight(i: nat) -> nat
    decreases i,
{
    if i == 0 {
        1
    } else {
        BASE as nat * weight((i - 1) as nat)
    }
}

/// The digit of `s` at place `i`; zero beyond its end.
pub open spec fn digit(s: Seq<u32>, i: int) -> nat {
    if 0 <= i < s.len() {
        s[i] as nat
    } else {
        0
    }
}

/// The number that the `i` lowest digits of `s` write, lowest digit first.
pub open spec fn lowest(s: Seq<u32>, i: nat) -> nat
    decreases i,
{
    if i == 0 {
        0
    } else {
        lowest(s, (i - 1) as nat) + digit(s, i - 1) * weight((i - 1) as nat)
    }
}

/// A natural number.
#[derive(Debug)]
pub struct Natural {
    digits: Vec<u32>,
}

impl View for Natural {
    type V = nat;

    closed spec fn view(&self) -> nat {
        lowest(self.digits@, self.digits@.len())
    }
}

proof fn lemma_lowest_agree(a: Seq<u32>, b: Seq<u32>, i: nat)
    requires
        forall|k: int| 0 <= k < i ==> digit(a, k) == digit(b, k),
    ensures
        lowest(a, i) == lowest(b, i),
    decreases i,
{
    if i > 0 {
        lemma_lowest_agree(a, b, (i - 1) as nat);
    }
}

proof fn lemma_lowest_beyond(s: Seq<u32>, i: nat)
    requires
        i >= s.len(),
    ensures
        lowest(s, i) == lowest(s, s.len()),
    decreases i,
{
    if i > s.len() {
        lemma_lowest_beyond(s, (i - 1) as nat);
        assert(digit(s, i - 1) * weight((i - 1) as nat) == 0) by (nonlinear_arith)
            requires
                digit(s, i - 1) == 0,
        ;
    }
}

proof fn lemma_lowest_bound(s: Seq<u32>, i: nat)
    ensures
        lowest(s, i) < weight(i),
    decreases i,
{
    if i > 0 {
        lemma_lowest_bound(s, (i - 1) as nat);
        let d = digit(s, i - 1);
        let w = weight((i - 1) as nat);
        assert(d * w + w <= BASE as nat * w) by (nonlinear_arith)
            requires
                d + 1 <= BASE as nat,
        ;
    }
}

proof fn lemma_higher_agree(a: Seq<u32>, b: Seq<u32>, j: nat, m: nat)
    requires
        j <= m,
        forall|k: int| j <= k < m ==> digit(a, k) == digit(b, k),
    ensures
        lowest(a, m) - lowest(a, j) == lowest(b, m) - lowest(b, j),
    decreases m,
{
    if m > j {
        lemma_higher_agree(a, b, j, (m - 1) as nat);
    }
}

proof fn lemma_lowest_shifted(s: Seq<u32>, i: nat)
    ensures
        lowest(seq![0u32] + s, i + 1) == BASE as nat * lowest(s, i),
    decreases i,
{
    let z = seq![0u32] + s;
    if i == 0 {
        assert(digit(z, 0) == 0);
        assert(lowest(z, 1) == lowest(z, 0) + digit(z, 0) * weight(0));
    } else {
        lemma_lowest_shifted(s, (i - 1) as nat);
        assert(digit(z, i as int) == digit(s, i - 1));
        let d = digit(s, i - 1);
        let w = weight((i - 1) as nat);
        let l = lowest(s, (i - 1) as nat);
        assert(BASE as nat * l + d * (BASE as nat * w) == BASE as nat * (l + d * w))
            by (nonlinear_arith);
    }
}

/// The number of `digits` without its leading zeros.
fn compact(digits: Vec<u32>) -> (n: Natural)
    ensures
        n@ == lowest(digits@, digits@.len()),
{
    let mut digits = digits;
    let ghost given = digits@;
    while digits.len() > 0 && digits[digits.len() - 1] == 0
        invariant
            lowest(digits@, digits@.len()) == lowest(given, given.len()),
        decreases digits.len(),
    {
        let ghost before = digits@;
        digits.pop();
        proof {
            let m = (before.len() - 1) as nat;
            lemma_lowest_agree(before, digits@, m);
            assert(digit(before, m as int) * weight(m) == 0) by (nonlinear_arith)
                requires
                    digit(before, m as int) == 0,
            ;
        }
    }
    Natural { digits }
}

impl Natural {
    /// The natural number `x`.
    pub fn from_u64(x: u64) -> (n: Natural)
        ensures
            n@ == x,
    {
        let mut digits: Vec<u32> = Vec::new();
        digits.push((x % BASE) as u32);
        digits.push((x / BASE) as u32);
        proof {
            lemma_two_digits(digits@);
        }
        compact(digits)
    }

    /// The number as a `u64`, if it is small enough to be one.
    pub fn to_u64(&self) -> (x: Option<u64>)
        ensures
            match x {
                Some(v) => self@ == v,
                None => self@ > u64::MAX,
            },
    {
        let n = self.digits.len();
        let ghost s = self.digits@;
        let mut i: usize = n;
        while i > 2
            invariant
                i <= n == s.len(),
                s == self.digits@,
                i == n || i >= 2,
                lowest(s, i as nat) == lowest(s, n as nat),
            decreases i,
        {
            if self.digits[i - 1] != 0 {
                proof {
                    lemma_small_weights();
                    lemma_weight_grows(2, (i - 1) as nat);
                    let d = digit(s, i - 1);
                    let w = weight((i - 1) as nat);
                    assert(d * w >= w) by (nonlinear_arith)
                        requires
                            d >= 1,
                    ;
                }
                return None;
            }
            proof {
                assert(digit(s, i - 1) * weight((i - 1) as nat) == 0) by (nonlinear_arith)
                    requires
                        digit(s, i - 1) == 0,
                ;
            }
            i -= 1;
        }
        let low: u64 = if n > 0 {
            self.digits[0] as u64
        } else {
            0
        };
        let high: u64 = if n > 1 {
            self.digits[1] as u64
        } else {
            0
        };
        proof {
            if n < 2 {
                lemma_lowest_beyond(s, 2);
            }
            lemma_two_digits(s);
        }
        Some(high * BASE + low)
    }

    /// The sum of `self` and `other`.
    #[verifier::rlimit(50)]
    pub fn plus(&self, other: &Natural) -> (sum: Natural)
        ensures
            sum@ == self@ + other@,
    {
        let ghost a = self.digits@;
        let ghost b = other.digits@;
        let la = self.digits.len();
        let lb = other.digits.len();
        let n = if la > lb {
            la
        } else {
            lb
        };
        let mut digits: Vec<u32> = Vec::new();
        let mut carry: u64 = 0;
        let mut i: usize = 0;
        while i < n
            invariant
                i <= n,
                a == self.digits@,
                b == other.digits@,
                la == a.len(),
                lb == b.len(),
                n >= la && n >= lb,
                digits@.len() == i,
                carry <= 1,
                lowest(digits@, i as nat) + carry * weight(i as nat) == lowest(a, i as nat) + lowest(
                    b,
                    i as nat,
                ),
            decreases n - i,
        {
            let x: u64 = if i < la {
                self.digits[i] as u64
            } else {
                0
            };
            let y: u64 = if i < lb {
                other.digits[i] as u64
            } else {
                0
            };
            let total = x + y + carry;
            let ghost before = digits@;
            digits.push((total % BASE) as u32);
            proof {
                lemma_lowest_agree(before, digits@, i as nat);
                let w = weight(i as nat);
                let low = (total % BASE) as nat;
                let high = (total / BASE) as nat;
                assert(digit(digits@, i as int) == low);
                assert(low * w + high * (BASE as nat * w) == (x + y + carry) * w) by (nonlinear_arith)
                    requires
                        low + high * BASE as nat == x + y + carry,
                ;
                assert((x + y + carry) * w == x * w + y * w + carry * w) by (nonlinear_arith);
            }
            carry = total / BASE;
            i += 1;
        }
        let ghost before = digits@;
        digits.push(carry as u32);
        proof {
            lemma_lowest_agree(before, digits@, n as nat);
            lemma_lowest_beyond(a, n as nat);
            lemma_lowest_beyond(b, n as nat);
        }
        compact(digits)
    }

    /// `self` times the single digit `x`.
    #[verifier::rlimit(50)]
    fn times_digit(&self, x: u32) -> (product: Natural)
        ensures
            product@ == self@ * x,
    {
        let ghost a = self.digits@;
        let n = self.digits.len();
        let mut digits: Vec<u32> = Vec::new();
        let mut carry: u64 = 0;
        let mut i: usize = 0;
        proof {
            assert(0 * (x as nat) == 0);
        }
        while i < n
            invariant
                i <= n == a.len(),
                a == self.digits@,
                digits@.len() == i,
                carry < BASE,
                lowest(digits@, i as nat) + carry * weight(i as nat) == lowest(a, i as nat) * x,
            decreases n - i,
        {
            let d = self.digits[i] as u64;
            assert(d * (x as u64) + carry <= (BASE - 1) * (BASE - 1) + (BASE - 1)) by (nonlinear_arith)
                requires
                    d <= BASE - 1,
                    x <= BASE - 1,
                    carry <= BASE - 1,
            ;
            let total = d * (x as u64) + carry;
            let ghost before = digits@;
            digits.push((total % BASE) as u32);
            proof {
                lemma_lowest_agree(before, digits@, i as nat);
                let w = weight(i as nat);
                let low = (total % BASE) as nat;
                let high = (total / BASE) as nat;
                let l = lowest(a, i as nat);
                assert(digit(digits@, i as int) == low);
                assert(low * w + high * (BASE as nat * w) == (d * x + carry) * w) by (nonlinear_arith)
                    requires
                        low + high * BASE as nat == d * x + carry,
                ;
                assert((d * x + carry) * w + l * x == carry * w + (l + d * w) * x)
                    by (nonlinear_arith);
            }
            carry = total / BASE;
            i += 1;
        }
        let ghost before = digits@;
        digits.push(carry as u32);
        proof {
            lemma_lowest_agree(before, digits@, n as nat);
        }
        compact(digits)
    }

    /// `self` times `BASE`.
    fn shifted(&self) -> (product: Natural)
        ensures
            product@ == self@ * BASE,
    {
        let ghost a = self.digits@;
        let n = self.digits.len();
        let mut digits: Vec<u32> = Vec::new();
        digits.push(0);
        let mut i: usize = 0;
        while i < n
            invariant
                i <= n == a.len(),
                a == self.digits@,
                digits@ == seq![0u32] + a.subrange(0, i as int),
            decreases n - i,
        {
            digits.push(self.digits[i]);
            proof {
                assert(digits@ =~= seq![0u32] + a.subrange(0, i + 1));
            }
            i += 1;
        }
        proof {
            assert(a.subrange(0, n as int) =~= a);
            lemma_lowest_shifted(a, n as nat);
            assert(self@ * BASE == BASE as nat * lowest(a, n as nat)) by (nonlinear_arith)
                requires
                    self@ == lowest(a, n as nat),
            ;
        }
        Natural { digits }
    }

    /// The product of `self` and `other`.
    #[verifier::rlimit(50)]
    pub fn times(&self, other: &Natural) -> (product: Natural)
        ensures
            product@ == self@ * other@,
    {
        let ghost a = self.digits@;
        let n = self.digits.len();
        let mut product = Natural { digits: Vec::new() };
        let mut i: usize = n;
        proof {
            assert(product@ == 0);
            assert(product@ * weight(n as nat) == 0) by (nonlinear_arith)
                requires
                    product@ == 0,
            ;
        }
        while i > 0
            invariant
                i <= n == a.len(),
                a == self.digits@,
                product@ * weight(i as nat) + lowest(a, i as nat) * other@ == lowest(a, n as nat)
                    * other@,
            decreases i,
        {
            let ghost held = product@;
            let row = other.times_digit(self.digits[i - 1]);
            let raised = product.shifted();
            product = raised.plus(&row);
            proof {
                let d = digit(a, i - 1);
                let w = weight((i - 1) as nat);
                let l = lowest(a, (i - 1) as nat);
                let o = other@;
                assert((held * BASE as nat + o * d) * w + l * o == held * (BASE as nat * w) + (l + d
                    * w) * o) by (nonlinear_arith);
            }
            i -= 1;
        }
        proof {
            assert(product@ * weight(0) == product@) by (nonlinear_arith)
                requires
                    weight(0) == 1,
            ;
            assert(lowest(a, 0) * other@ == 0) by (nonlinear_arith)
                requires
                    lowest(a, 0) == 0,
            ;
        }
        product
    }

    /// Whether `self` is at most `other`.
    pub fn at_most(&self, other: &Natural) -> (le: bool)
        ensures
            le == (self@ <= other@),
    {
        let ghost a = self.digits@;
        let ghost b = other.digits@;
        let la = self.digits.len();
        let lb = other.digits.len();
        let n = if la > lb {
            la
        } else {
            lb
        };
        let mut i: usize = n;
        while i > 0
            invariant
                i <= n,
                n >= la && n >= lb,
                a == self.digits@,
                b == other.digits@,
                la == a.len(),
                lb == b.len(),
                forall|k: int| i <= k < n ==> digit(a, k) == digit(b, k),
            decreases i,
        {
            let x: u32 = if i - 1 < la {
                self.digits[i - 1]
            } else {
                0
            };
            let y: u32 = if i - 1 < lb {
                other.digits[i - 1]
            } else {
                0
            };
            if x != y {
                proof {
                    lemma_lowest_beyond(a, n as nat);
                    lemma_lowest_beyond(b, n as nat);
                    lemma_higher_agree(a, b, i as nat, n as nat);
                    assert(digit(a, i - 1) == x && digit(b, i - 1) == y);
                    lemma_lowest_bound(a, (i - 1) as nat);
                    lemma_lowest_bound(b, (i - 1) as nat);
                    let w = weight((i - 1) as nat);
                    if x < y {
                        assert(x * w + w <= y * w) by (nonlinear_arith)
                            requires
                                x + 1 <= y,
                        ;
                    } else {
                        assert(y * w + w <= x * w) by (nonlinear_arith)
                            requires
                                y + 1 <= x,
                        ;
                    }
                }
                return x < y;
            }
            i -= 1;
        }
        proof {
            lemma_lowest_beyond(a, n as nat);
            lemma_lowest_beyond(b, n as nat);
            lemma_higher_agree(a, b, 0, n as nat);
        }
        true
    }
}

proof fn lemma_small_weights()
    ensures
        weight(0) == 1,
        weight(1) == BASE,
        weight(2) == BASE * BASE,
{
    assert(weight(1) == BASE as nat * weight(0));
    assert(weight(2) == BASE as nat * weight(1));
}

proof fn lemma_two_digits(s: Seq<u32>)
    ensures
        lowest(s, 2) == digit(s, 0) + digit(s, 1) * BASE,
{
    lemma_small_weights();
    assert(lowest(s, 2) == lowest(s, 1) + digit(s, 1) * weight(1));
    assert(lowest(s, 1) == lowest(s, 0) + digit(s, 0) * weight(0));
}

proof fn lemma_weight_grows(i: nat, j: nat)
    requires
        i <= j,
    ensures
        weight(i) <= weight(j),
    decreases j,
{
    if i < j {
        lemma_weight_grows(i, (j - 1) as nat);
        let w = weight((j - 1) as nat);
        assert(w <= BASE as nat * w) by (nonlinear_arith)
            requires
                BASE as nat >= 1,
        ;
    }
}

} // verus!
