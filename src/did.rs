//! Identifiers as elements of the finite ring Z/2^160.
use vstd::prelude::*;
use vstd::arithmetic::div_mod::{lemma_mod_multiples_vanish, lemma_small_mod};
use crate::error::Error;

verus! {

/// Number of elements of the identifier ring, 2^160.
pub open spec fn ring_size() -> nat {
    0x1_0000_0000_0000_0000_0000_0000_0000_0000_0000_0000nat
}

/// 2^128: the weight of the high limb.
pub open spec fn low_size() -> nat {
    0x1_0000_0000_0000_0000_0000_0000_0000_0000nat
}

/// Addition in the ring.
pub open spec fn ring_add(a: nat, b: nat) -> nat {
    (a + b) % ring_size()
}

/// Negation in the ring: `(2^160 - a) mod 2^160`.
pub open spec fn ring_neg(a: nat) -> nat {
    ((ring_size() - a) % (ring_size() as int)) as nat
}

/// Subtraction in the ring, `a + (-b)`; the forward distance from `b` to `a`.
pub open spec fn ring_sub(a: nat, b: nat) -> nat {
    ring_add(a, ring_neg(b))
}

/// `2^k`.
pub open spec fn pow2(k: nat) -> nat
    decreases k,
{
    if k == 0 {
        1
    } else {
        2 * pow2((k - 1) as nat)
    }
}

/// `256^n`.
pub open spec fn pow256(n: nat) -> nat
    decreases n,
{
    if n == 0 {
        1
    } else {
        256 * pow256((n - 1) as nat)
    }
}

/// The number that a big-endian byte sequence denotes.
pub open spec fn be_value(s: Seq<u8>) -> nat
    decreases s.len(),
{
    if s.len() == 0 {
        0
    } else {
        be_value(s.drop_last()) * 256 + s.last() as nat
    }
}

proof fn lemma_pow2_bytes(n: nat)
    ensures
        pow2(8 * n) == pow256(n),
    decreases n,
{
    if n > 0 {
        lemma_pow2_bytes((n - 1) as nat);
        let k = (8 * (n - 1)) as nat;
        assert(8 * n == k + 8);
        reveal_with_fuel(pow2, 9);
        assert(pow2(k + 8) == 256 * pow2(k));
    }
}

proof fn lemma_pow2_values()
    ensures
        pow2(128) == low_size(),
        pow2(159) * 2 == ring_size(),
{
    lemma_pow2_bytes(16);
    lemma_pow2_bytes(20);
    lemma_pow256_values();
    assert(pow2(160) == 2 * pow2(159));
}

proof fn lemma_pow256_values()
    ensures
        pow256(4) == 0x1_0000_0000nat,
        pow256(15) == 0x1_0000_0000_0000_0000_0000_0000_0000_00nat,
        pow256(16) == low_size(),
        pow256(20) == ring_size(),
{
    reveal_with_fuel(pow256, 21);
}

proof fn lemma_pow2_grows(a: nat, b: nat)
    requires
        a <= b,
    ensures
        pow2(a) <= pow2(b),
        pow2(a) >= 1,
    decreases b,
{
    if b > 0 {
        if a < b {
            lemma_pow2_grows(a, (b - 1) as nat);
        }
    }
    if a > 0 {
        lemma_pow2_grows(0, (a - 1) as nat);
    }
}

proof fn lemma_pow256_grows(a: nat, b: nat)
    requires
        a <= b,
    ensures
        pow256(a) <= pow256(b),
        pow256(a) >= 1,
    decreases b,
{
    if b > 0 {
        if a < b {
            lemma_pow256_grows(a, (b - 1) as nat);
        }
    }
    if a > 0 {
        lemma_pow256_grows(0, (a - 1) as nat);
    }
}

/// A byte sequence of length `n` denotes a number below `256^n`.
pub proof fn lemma_be_value_bound(s: Seq<u8>)
    ensures
        be_value(s) < pow256(s.len()),
    decreases s.len(),
{
    if s.len() > 0 {
        lemma_be_value_bound(s.drop_last());
        let p = pow256((s.len() - 1) as nat);
        let v = be_value(s.drop_last());
        assert(v * 256 + s.last() < p * 256) by (nonlinear_arith)
            requires
                v < p,
                s.last() < 256,
        ;
    }
}

/// The value of a concatenation: the front part is shifted by the back's length.
pub proof fn lemma_be_value_concat(a: Seq<u8>, b: Seq<u8>)
    ensures
        be_value(a + b) == be_value(a) * pow256(b.len()) + be_value(b),
    decreases b.len(),
{
    if b.len() == 0 {
        assert(a + b =~= a);
        assert(pow256(0) == 1);
        assert(be_value(b) == 0);
        assert(be_value(a) * 1 == be_value(a));
    } else {
        let bd = b.drop_last();
        assert((a + b).drop_last() == a + bd);
        assert((a + b).last() == b.last());
        lemma_be_value_concat(a, bd);
        let x = be_value(a);
        let y = be_value(bd);
        let p = pow256(bd.len());
        let l = b.last() as nat;
        assert(be_value(a + b) == be_value(a + bd) * 256 + l);
        assert(be_value(b) == y * 256 + l);
        assert(pow256(b.len()) == 256 * p);
        assert((x * p + y) * 256 + l == x * (256 * p) + (y * 256 + l)) by (nonlinear_arith);
    }
}

proof fn lemma_be_value_zeros(n: nat)
    ensures
        be_value(Seq::new(n, |k: int| 0u8)) == 0,
    decreases n,
{
    if n > 0 {
        assert(Seq::new(n, |k: int| 0u8).drop_last() =~= Seq::new((n - 1) as nat, |k: int| 0u8));
        lemma_be_value_zeros((n - 1) as nat);
    }
}

proof fn lemma_be_value_single(x: u8)
    ensures
        be_value(seq![x]) == x,
{
    assert(seq![x].drop_last() =~= Seq::<u8>::empty());
    assert(be_value(Seq::<u8>::empty()) == 0);
}

/// The value of ring addition, without the modulo.
pub proof fn lemma_ring_add_value(a: nat, b: nat)
    requires
        a < ring_size(),
        b < ring_size(),
    ensures
        ring_add(a, b) == if a + b < ring_size() {
            a + b
        } else {
            (a + b - ring_size()) as nat
        },
{
}

/// The value of ring negation, without the modulo.
pub proof fn lemma_ring_neg_value(a: nat)
    requires
        a < ring_size(),
    ensures
        ring_neg(a) == if a == 0 {
            0
        } else {
            (ring_size() - a) as nat
        },
{
}

/// The value of ring subtraction, without the modulo.
pub proof fn lemma_ring_sub_value(a: nat, b: nat)
    requires
        a < ring_size(),
        b < ring_size(),
    ensures
        ring_sub(a, b) == if a >= b {
            (a - b) as nat
        } else {
            (a + ring_size() - b) as nat
        },
{
    lemma_ring_neg_value(b);
    lemma_ring_add_value(a, ring_neg(b));
}

/// The forward distances between two ids, one way and back, add up to a full turn:
/// `(x - y) + (y - x) = 0` in the ring.
pub proof fn lemma_distances_cancel(x: Did, y: Did)
    ensures
        ring_add(ring_sub(x@, y@), ring_sub(y@, x@)) == 0,
{
    x.lemma_bounds();
    y.lemma_bounds();
    lemma_ring_sub_value(x@, y@);
    lemma_ring_sub_value(y@, x@);
    lemma_ring_add_value(ring_sub(x@, y@), ring_sub(y@, x@));
}

/// Negation is an involution: `-(-x) = x`.
pub proof fn lemma_neg_involutive(x: Did)
    ensures
        ring_neg(ring_neg(x@)) == x@,
{
    x.lemma_bounds();
    lemma_ring_neg_value(x@);
    lemma_ring_neg_value(ring_neg(x@));
}

/// An id plus its negation is zero: `x + (-x) = 0`.
pub proof fn lemma_add_neg_zero(x: Did)
    ensures
        ring_add(x@, ring_neg(x@)) == 0,
{
    x.lemma_bounds();
    lemma_ring_neg_value(x@);
    lemma_ring_add_value(x@, ring_neg(x@));
}

/// Whether `x` lies in the open arc `(a, b)` walking forward around the ring.
pub open spec fn in_open_arc(x: nat, a: nat, b: nat) -> bool {
    ring_sub(x, a) > 0 && ring_sub(b, a) > ring_sub(x, a)
}

/// Whether `x` lies in the half-open arc `(a, b]` walking forward around the ring.
pub open spec fn in_half_open_arc(x: nat, a: nat, b: nat) -> bool {
    ring_sub(x, a) > 0 && ring_sub(x, a) <= ring_sub(b, a)
}

/// A 160-bit identifier, an element of the ring Z/2^160.
#[derive(Clone, Copy, Debug, PartialEq, Eq, Structural, Ord, Hash)]
pub struct Did {
    hi: u32,
    lo: u128,
}

impl View for Did {
    type V = nat;

    closed spec fn view(&self) -> nat {
        self.hi as nat * low_size() + self.lo as nat
    }
}

impl Did {
    pub proof fn lemma_bounds(self)
        ensures
            self@ < ring_size(),
    {
    }

    /// Two identifiers with the same value are the same.
    pub proof fn lemma_view_injective(self, other: Did)
        requires
            self@ == other@,
        ensures
            self == other,
    {
        if self.hi < other.hi {
            assert(self@ < other@);
        } else if self.hi > other.hi {
            assert(self@ > other@);
        }
    }

    /// The identifier whose value is `n`, for `n < 2^160`.
    pub closed spec fn from_nat(n: nat) -> Did {
        Did { hi: (n / low_size()) as u32, lo: (n % low_size()) as u128 }
    }

    pub proof fn lemma_from_nat(n: nat)
        requires
            n < ring_size(),
        ensures
            Did::from_nat(n)@ == n,
    {
        let l = low_size();
        assert(n == (n / l) * l + n % l && n / l < 0x1_0000_0000 && n % l < l) by (nonlinear_arith)
            requires
                n < ring_size(),
                l == low_size(),
        ;
    }

    /// The identifier with value `2^k`.
    pub fn pow2(k: u32) -> (r: Did)
        requires
            k < 160,
        ensures
            r@ == pow2(k as nat),
    {
        let mut r = Did { hi: 0, lo: 1 };
        let mut i: u32 = 0;
        while i < k
            invariant
                i <= k < 160,
                r@ == pow2(i as nat),
            decreases k - i,
        {
            proof {
                lemma_pow2_grows((i + 1) as nat, 159);
                lemma_pow2_values();
            }
            r = r.ring_add(r);
            i = i + 1;
        }
        r
    }

    /// The identifier that 20 big-endian bytes denote.
    pub fn from_bytes(b: [u8; 20]) -> (r: Did)
        ensures
            r@ == be_value(b@),
    {
        proof {
            lemma_pow256_values();
        }
        let mut hi: u64 = 0;
        let mut i: usize = 0;
        while i < 4
            invariant
                0 <= i <= 4,
                hi == be_value(b@.subrange(0, i as int)),
            decreases 4 - i,
        {
            proof {
                lemma_be_value_bound(b@.subrange(0, i as int));
                lemma_pow256_grows(i as nat, 4);
                lemma_pow256_values();
                assert(b@.subrange(0, i + 1).drop_last() == b@.subrange(0, i as int));
            }
            assert(hi < 0x1_0000_0000);
            hi = hi * 256 + b[i] as u64;
            i = i + 1;
        }
        let mut lo: u128 = 0;
        while i < 20
            invariant
                4 <= i <= 20,
                lo == be_value(b@.subrange(4, i as int)),
            decreases 20 - i,
        {
            proof {
                lemma_be_value_bound(b@.subrange(4, i as int));
                lemma_pow256_grows((i - 4) as nat, 15);
                lemma_pow256_values();
                assert(b@.subrange(4, i + 1).drop_last() == b@.subrange(4, i as int));
            }
            assert(lo < 0x1_0000_0000_0000_0000_0000_0000_0000_00);
            lo = lo * 256 + b[i] as u128;
            i = i + 1;
        }
        proof {
            lemma_be_value_bound(b@.subrange(0, 4));
            assert(b@ == b@.subrange(0, 4) + b@.subrange(4, 20));
            lemma_be_value_concat(b@.subrange(0, 4), b@.subrange(4, 20));
        }
        Did { hi: hi as u32, lo }
    }

    /// The 20 big-endian bytes of this identifier.
    pub fn to_bytes(&self) -> (r: [u8; 20])
        ensures
            be_value(r@) == self@,
    {
        proof {
            lemma_pow256_values();
        }
        let mut out = [0u8; 20];
        assert(out@.subrange(20, 20) =~= Seq::<u8>::empty());
        assert(be_value(out@.subrange(20, 20)) == 0);
        assert(pow256(0) == 1);
        let mut x: u128 = self.lo;
        assert(x * pow256(0) == x);
        let mut j: usize = 0;
        while j < 16
            invariant
                0 <= j <= 16,
                out@.len() == 20,
                self.lo == x * pow256(j as nat) + be_value(out@.subrange(20 - j, 20)),
            decreases 16 - j,
        {
            let byte = (x % 256) as u8;
            let ghost old_out = out@;
            out[19 - j] = byte;
            proof {
                let suf = old_out.subrange(20 - j, 20);
                assert(out@.subrange(19 - j, 20) == seq![byte] + suf);
                assert(out@.subrange(20 - j, 20) == suf);
                lemma_be_value_concat(seq![byte], suf);
                lemma_be_value_single(byte);
                lemma_pow256_values();
                let p = pow256(j as nat);
                assert(x * p == (x / 256) * (256 * p) + (x % 256) * p) by (nonlinear_arith);
            }
            x = x / 256;
            j = j + 1;
        }
        proof {
            lemma_be_value_bound(out@.subrange(4, 20));
            assert(x == 0) by {
                if x > 0 {
                    assert(x * pow256(16) >= pow256(16)) by (nonlinear_arith)
                        requires
                            x > 0,
                    ;
                }
            }
        }
        let mut y: u32 = self.hi;
        while j < 20
            invariant
                16 <= j <= 20,
                out@.len() == 20,
                self@ == y * pow256(j as nat) + be_value(out@.subrange(20 - j, 20)),
            decreases 20 - j,
        {
            let byte = (y % 256) as u8;
            let ghost old_out = out@;
            out[19 - j] = byte;
            proof {
                let suf = old_out.subrange(20 - j, 20);
                assert(out@.subrange(19 - j, 20) == seq![byte] + suf);
                assert(out@.subrange(20 - j, 20) == suf);
                lemma_be_value_concat(seq![byte], suf);
                lemma_be_value_single(byte);
                lemma_pow256_values();
                let p = pow256(j as nat);
                assert(y * p == (y / 256) * (256 * p) + (y % 256) * p) by (nonlinear_arith);
            }
            y = y / 256;
            j = j + 1;
        }
        proof {
            assert(out@.subrange(0, 20) == out@);
            lemma_be_value_bound(out@);
            // y is 0: otherwise the value would exceed 2^160
            assert(y == 0) by {
                if y > 0 {
                    assert(y * pow256(20) >= pow256(20)) by (nonlinear_arith)
                        requires
                            y > 0,
                    ;
                    self.lemma_bounds();
                }
            }
        }
        out
    }

    /// The identifier 0.
    pub fn zero() -> (r: Did)
        ensures
            r@ == 0,
    {
        Did { hi: 0, lo: 0 }
    }

    /// Sum of two identifiers, modulo 2^160.
    pub fn ring_add(self, rhs: Did) -> (r: Did)
        ensures
            r@ == ring_add(self@, rhs@),
    {
        let (lo, carry): (u128, u64) = if self.lo <= u128::MAX - rhs.lo {
            (self.lo + rhs.lo, 0)
        } else {
            (self.lo - (u128::MAX - rhs.lo) - 1, 1)
        };
        let wide: u64 = self.hi as u64 + rhs.hi as u64 + carry;
        let hi: u64 = if wide > u32::MAX as u64 { wide - 0x1_0000_0000 } else { wide };
        let r = Did { hi: hi as u32, lo };
        assert(r@ == ring_add(self@, rhs@)) by {
            let s = self@ + rhs@;
            if wide > u32::MAX as u64 {
                assert(s == r@ + ring_size());
            } else {
                assert(s == r@);
            }
        }
        r
    }

    /// Negation: `(2^160 - x) mod 2^160`.
    pub fn ring_neg(self) -> (r: Did)
        ensures
            r@ == ring_neg(self@),
    {
        if self.hi == 0 && self.lo == 0 {
            Did { hi: 0, lo: 0 }
        } else {
            // complement every bit, then add one
            let lo = u128::MAX - self.lo;
            let hi = u32::MAX - self.hi;
            let r = if lo == u128::MAX {
                Did { hi: hi + 1, lo: 0 }
            } else {
                Did { hi, lo: lo + 1 }
            };
            assert(r@ + self@ == ring_size());
            r
        }
    }

    /// Difference `self - rhs = self + (-rhs)`: the forward distance from `rhs` to `self`.
    pub fn ring_sub(self, rhs: Did) -> (r: Did)
        ensures
            r@ == ring_sub(self@, rhs@),
    {
        self.ring_add(rhs.ring_neg())
    }

    /// Whether `self < rhs` as unsigned 160-bit numbers.
    pub fn less_than(&self, rhs: &Did) -> (r: bool)
        ensures
            r == (self@ < rhs@),
    {
        self.hi < rhs.hi || (self.hi == rhs.hi && self.lo < rhs.lo)
    }

    /// Whether `self <= rhs` as unsigned 160-bit numbers.
    pub fn less_eq(&self, rhs: &Did) -> (r: bool)
        ensures
            r == (self@ <= rhs@),
    {
        self.hi < rhs.hi || (self.hi == rhs.hi && self.lo <= rhs.lo)
    }
}

/// Whether `c` is a hexadecimal digit.
pub open spec fn is_hex_digit(c: char) -> bool {
    ('0' <= c && c <= '9') || ('a' <= c && c <= 'f') || ('A' <= c && c <= 'F')
}

/// The value of a hexadecimal digit.
pub open spec fn hex_digit_value(c: char) -> int {
    if '0' <= c && c <= '9' {
        c as int - '0' as int
    } else if 'a' <= c && c <= 'f' {
        c as int - 'a' as int + 10
    } else {
        c as int - 'A' as int + 10
    }
}

/// The digits of a hexadecimal string, after an optional `0x` prefix.
pub open spec fn hex_body(s: Seq<char>) -> Seq<char> {
    if s.len() >= 2 && s[0] == '0' && s[1] == 'x' {
        s.subrange(2, s.len() as int)
    } else {
        s
    }
}

/// Whether `s` is an optional `0x` followed by exactly 40 hexadecimal digits.
pub open spec fn is_hex_address(s: Seq<char>) -> bool {
    &&& hex_body(s).len() == 40
    &&& forall|i: int| 0 <= i < 40 ==> is_hex_digit(#[trigger] hex_body(s)[i])
}

/// The 20 bytes that a hexadecimal address spells, two digits per byte.
pub open spec fn hex_address_bytes(s: Seq<char>) -> Seq<u8> {
    Seq::new(
        20,
        |i: int|
            (hex_digit_value(hex_body(s)[2 * i]) * 16 + hex_digit_value(hex_body(s)[2 * i + 1])) as u8,
    )
}

/// Relies on web3's `H160::from_str` (fixed-hash with rustc-hex): after an optional
/// `0x`, pairs of hex digits of either case are read as the 20 big-endian bytes.
#[verifier::external_body]
fn parse_h160(s: &str) -> (r: Option<[u8; 20]>)
    ensures
        is_hex_address(s@) ==> r.is_some(),
        is_hex_address(s@) ==> r.unwrap()@ == hex_address_bytes(s@),
{
    <web3::types::H160 as std::str::FromStr>::from_str(s).ok().map(|h| h.0)
}

impl Did {
    /// Reads an identifier written as 40 hex digits, with or without `0x`.
    pub fn parse(s: &str) -> (r: Result<Did, Error>)
        ensures
            is_hex_address(s@) ==> (r matches Ok(d) && d@ == be_value(hex_address_bytes(s@))),
            r matches Err(e) ==> e == Error::BadHex,
    {
        match parse_h160(s) {
            Some(b) => Ok(Did::from_bytes(b)),
            None => Err(Error::BadHex),
        }
    }

    /// The identifier that big-endian bytes of any length denote, modulo 2^160.
    pub fn from_be_slice(bytes: &[u8]) -> (r: Did)
        ensures
            r@ == be_value(bytes@) % ring_size(),
    {
        let n = bytes.len();
        let start: usize = if n > 20 { n - 20 } else { 0 };
        let m: usize = n - start;
        let mut out = [0u8; 20];
        let mut t: usize = 0;
        while t < m
            invariant
                0 <= t <= m <= 20,
                start + m == n,
                n == bytes@.len(),
                out@.len() == 20,
                forall|k: int| 0 <= k < 20 - m ==> out@[k] == 0,
                forall|k: int| 0 <= k < t ==> out@[20 - m + k] == #[trigger] bytes@[start + k],
            decreases m - t,
        {
            out[20 - m + t] = bytes[start + t];
            t = t + 1;
        }
        proof {
            let zeros = Seq::new((20 - m) as nat, |k: int| 0u8);
            let prefix = bytes@.subrange(0, start as int);
            let suffix = bytes@.subrange(start as int, n as int);
            assert forall|i: int| 0 <= i < 20 implies out@[i] == (zeros + suffix)[i] by {
                if i >= 20 - m {
                    let k = i - (20 - m);
                    assert(out@[20 - m + k] == bytes@[start + k]);
                }
            }
            assert(out@ =~= zeros + suffix);
            lemma_be_value_concat(zeros, suffix);
            lemma_be_value_zeros((20 - m) as nat);
            assert(bytes@ =~= prefix + suffix);
            lemma_be_value_concat(prefix, suffix);
            lemma_be_value_bound(suffix);
            lemma_pow256_values();
            lemma_pow256_grows(m as nat, 20);
            if start > 0 {
                assert(m == 20);
                assert(be_value(prefix) * pow256(m as nat) == ring_size() * be_value(prefix)) by (nonlinear_arith)
                    requires
                        pow256(m as nat) == ring_size(),
                ;
                lemma_mod_multiples_vanish(be_value(prefix) as int, be_value(suffix) as int, ring_size() as int);
            } else {
                assert(prefix =~= Seq::<u8>::empty());
                assert(be_value(prefix) == 0);
            }
            lemma_small_mod(be_value(suffix), ring_size());
        }
        Did::from_bytes(out)
    }

    /// Whether `self` lies strictly between `a` and `b` when the ring is read
    /// starting at `id`.
    pub fn in_range(&self, id: &Did, a: &Did, b: &Did) -> (r: bool)
        ensures
            r == (ring_sub(self@, id@) > ring_sub(a@, id@) && ring_sub(b@, id@) > ring_sub(
                self@,
                id@,
            )),
    {
        let x = self.ring_sub(*id);
        a.ring_sub(*id).less_than(&x) && x.less_than(&b.ring_sub(*id))
    }

    /// This id seen from the origin `id`.
    pub fn bias(&self, id: &Did) -> (r: BiasId)
        ensures
            r@ == (id@, ring_sub(self@, id@)),
    {
        BiasId::new(id, self)
    }
}

/// An id seen with its origin moved to `bias`: its position is the forward
/// distance from `bias`.
#[derive(Clone, Copy, Debug, PartialEq, Eq, Structural, Hash)]
pub struct BiasId {
    bias: Did,
    did: Did,
}

impl View for BiasId {
    /// The origin, and the position relative to it.
    type V = (nat, nat);

    closed spec fn view(&self) -> (nat, nat) {
        (self.bias@, self.did@)
    }
}

impl BiasId {
    pub fn new(bias: &Did, id: &Did) -> (r: BiasId)
        ensures
            r@ == (bias@, ring_sub(id@, bias@)),
    {
        BiasId { bias: *bias, did: id.ring_sub(*bias) }
    }

    /// The id that this biased id stands for.
    pub fn to_did(bid: &BiasId) -> (r: Did)
        ensures
            r@ == ring_add(bid@.1, bid@.0),
    {
        bid.did.ring_add(bid.bias)
    }

    /// The position relative to the origin.
    pub fn pos(&self) -> (r: Did)
        ensures
            r@ == self@.1,
    {
        self.did
    }

    /// Where `other` stands relative to this one's origin.
    pub open spec fn rebased(&self, other: &BiasId) -> nat {
        ring_sub(ring_add(other@.1, other@.0), self@.0)
    }
}

impl PartialOrd for BiasId {
    fn partial_cmp(&self, other: &BiasId) -> (r: Option<core::cmp::Ordering>) {
        let theirs = if other.bias != self.bias {
            BiasId::new(&self.bias, &BiasId::to_did(other)).did
        } else {
            proof {
                self.did.lemma_bounds();
                other.did.lemma_bounds();
                lemma_ring_add_value(other.did@, other.bias@);
                lemma_ring_sub_value(ring_add(other.did@, other.bias@), self.bias@);
            }
            other.did
        };
        self.did.partial_cmp(&theirs)
    }
}

impl vstd::std_specs::cmp::PartialOrdSpecImpl for BiasId {
    open spec fn obeys_partial_cmp_spec() -> bool {
        true
    }

    open spec fn partial_cmp_spec(&self, other: &BiasId) -> Option<core::cmp::Ordering> {
        if self@.1 < self.rebased(other) {
            Some(core::cmp::Ordering::Less)
        } else if self@.1 > self.rebased(other) {
            Some(core::cmp::Ordering::Greater)
        } else {
            Some(core::cmp::Ordering::Equal)
        }
    }
}

impl std::ops::Add for Did {
    type Output = Did;

    fn add(self, rhs: Did) -> (r: Did) {
        let r = self.ring_add(rhs);
        proof {
            Did::lemma_from_nat(ring_add(self@, rhs@));
            r.lemma_view_injective(Did::from_nat(ring_add(self@, rhs@)));
        }
        r
    }
}

impl vstd::std_specs::ops::AddSpecImpl for Did {
    open spec fn obeys_add_spec() -> bool {
        true
    }

    open spec fn add_req(self, rhs: Did) -> bool {
        true
    }

    open spec fn add_spec(self, rhs: Did) -> Did {
        Did::from_nat(ring_add(self@, rhs@))
    }
}

impl std::ops::Neg for Did {
    type Output = Did;

    fn neg(self) -> (r: Did) {
        let r = self.ring_neg();
        proof {
            self.lemma_bounds();
            lemma_ring_neg_value(self@);
            Did::lemma_from_nat(ring_neg(self@));
            r.lemma_view_injective(Did::from_nat(ring_neg(self@)));
        }
        r
    }
}

impl vstd::std_specs::ops::NegSpecImpl for Did {
    open spec fn obeys_neg_spec() -> bool {
        true
    }

    open spec fn neg_req(self) -> bool {
        true
    }

    open spec fn neg_spec(self) -> Did {
        Did::from_nat(ring_neg(self@))
    }
}

impl std::ops::Sub for Did {
    type Output = Did;

    fn sub(self, rhs: Did) -> (r: Did) {
        let r = self.ring_sub(rhs);
        proof {
            Did::lemma_from_nat(ring_sub(self@, rhs@));
            r.lemma_view_injective(Did::from_nat(ring_sub(self@, rhs@)));
        }
        r
    }
}

impl vstd::std_specs::ops::SubSpecImpl for Did {
    open spec fn obeys_sub_spec() -> bool {
        true
    }

    open spec fn sub_req(self, rhs: Did) -> bool {
        true
    }

    open spec fn sub_spec(self, rhs: Did) -> Did {
        Did::from_nat(ring_sub(self@, rhs@))
    }
}

impl std::str::FromStr for Did {
    type Err = Error;

    fn from_str(s: &str) -> (r: Result<Did, Error>) {
        Did::parse(s)
    }
}

/// Whether the ids of `s` are in non-decreasing order of their forward
/// distance from `origin`.
pub open spec fn sorted_by_ring(s: Seq<Did>, origin: nat) -> bool {
    forall|i: int, j: int|
        0 <= i < j < s.len() ==> ring_sub(#[trigger] s[i]@, origin) <= ring_sub(
            #[trigger] s[j]@,
            origin,
        )
}

proof fn lemma_insert_keeps_sorted(s: Seq<Did>, j: int, x: Did, origin: nat)
    requires
        sorted_by_ring(s, origin),
        0 <= j <= s.len(),
        forall|k: int| 0 <= k < j ==> ring_sub(#[trigger] s[k]@, origin) <= ring_sub(x@, origin),
        j < s.len() ==> ring_sub(s[j]@, origin) > ring_sub(x@, origin),
    ensures
        sorted_by_ring(s.insert(j, x), origin),
{
    let t = s.insert(j, x);
    assert forall|a: int, b: int| 0 <= a < b < t.len() implies ring_sub(
        #[trigger] t[a]@,
        origin,
    ) <= ring_sub(#[trigger] t[b]@, origin) by {
        if b > j && a <= j {
            if b - 1 > j {
                assert(ring_sub(s[j]@, origin) <= ring_sub(s[b - 1]@, origin));
            }
        }
    }
}

/// Sorts ids by their forward distance from `origin`, nearest first.
pub fn sort_by_ring(v: &mut Vec<Did>, origin: Did)
    ensures
        final(v)@.to_multiset() == old(v)@.to_multiset(),
        sorted_by_ring(final(v)@, origin@),
{
    let mut out: Vec<Did> = Vec::new();
    let mut i: usize = 0;
    proof {
        assert(v@.subrange(0, 0) =~= out@);
    }
    while i < v.len()
        invariant
            0 <= i <= v@.len(),
            out@.to_multiset() == v@.subrange(0, i as int).to_multiset(),
            sorted_by_ring(out@, origin@),
        decreases v@.len() - i,
    {
        let x = v[i];
        let key = x.ring_sub(origin);
        let mut j: usize = 0;
        while j < out.len() && out[j].ring_sub(origin).less_eq(&key)
            invariant
                0 <= j <= out@.len(),
                forall|k: int| 0 <= k < j ==> ring_sub(#[trigger] out@[k]@, origin@) <= key@,
            decreases out@.len() - j,
        {
            j = j + 1;
        }
        let ghost before = out@;
        proof {
            lemma_insert_keeps_sorted(out@, j as int, x, origin@);
        }
        out.insert(j, x);
        proof {
            assert(v@.subrange(0, i + 1) == v@.subrange(0, i as int).push(x));
            vstd::seq_lib::to_multiset_build(v@.subrange(0, i as int), x);
            vstd::seq_lib::to_multiset_insert(before, j as int, x);
        }
        i = i + 1;
    }
    proof {
        assert(v@.subrange(0, v@.len() as int) == v@);
    }
    *v = out;
}

/// Sorting a list of ids in ring order around an origin.
pub trait SortRing {
    /// Sorts by forward distance from `id`, nearest first.
    fn sort(&mut self, id: Did);
}

impl SortRing for Vec<Did> {
    fn sort(&mut self, id: Did)
        ensures
            final(self)@.to_multiset() == old(self)@.to_multiset(),
            sorted_by_ring(final(self)@, id@),
    {
        sort_by_ring(self, id)
    }
}

impl PartialOrd for Did {
    fn partial_cmp(&self, other: &Did) -> (r: Option<core::cmp::Ordering>) {
        if self.less_than(other) {
            Some(core::cmp::Ordering::Less)
        } else if other.less_than(self) {
            Some(core::cmp::Ordering::Greater)
        } else {
            Some(core::cmp::Ordering::Equal)
        }
    }
}

impl vstd::std_specs::cmp::PartialOrdSpecImpl for Did {
    open spec fn obeys_partial_cmp_spec() -> bool {
        true
    }

    open spec fn partial_cmp_spec(&self, other: &Did) -> Option<core::cmp::Ordering> {
        if self@ < other@ {
            Some(core::cmp::Ordering::Less)
        } else if self@ > other@ {
            Some(core::cmp::Ordering::Greater)
        } else {
            Some(core::cmp::Ordering::Equal)
        }
    }
}

} // verus!
