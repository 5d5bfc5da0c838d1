//! Plain values of the chain: addresses, hashes, 256-bit words, accounts,
//! headers, transactions and receipts.
use crate::table::TableKey;
use vstd::prelude::*;

verus! {

/// `x * c + y` orders and distinguishes pairs lexicographically when `y` is
/// below `c`.
pub proof fn lemma_pair_rank(x1: int, y1: int, x2: int, y2: int, c: int)
    requires
        0 <= y1 < c,
        0 <= y2 < c,
    ensures
        (x1 * c + y1 < x2 * c + y2) <==> (x1 < x2 || (x1 == x2 && y1 < y2)),
        (x1 * c + y1 == x2 * c + y2) <==> (x1 == x2 && y1 == y2),
{
    if x1 < x2 {
        assert(x1 * c + c <= x2 * c) by (nonlinear_arith)
            requires
                x1 < x2,
                0 < c,
        ;
    } else if x1 > x2 {
        assert(x2 * c + c <= x1 * c) by (nonlinear_arith)
            requires
                x2 < x1,
                0 < c,
        ;
    }
}

pub open spec fn pow2_32() -> int {
    0x1_0000_0000
}

pub open spec fn pow2_64() -> int {
    0x1_0000_0000_0000_0000
}

pub open spec fn pow2_128() -> int {
    pow2_64() * pow2_64()
}

pub open spec fn pow2_160() -> int {
    pow2_128() * pow2_32()
}

pub open spec fn pow2_256() -> int {
    pow2_128() * pow2_128()
}

/// The eight big-endian bytes of a 64-bit word.
pub open spec fn u64_be_bytes(x: u64) -> Seq<u8> {
    seq![
        (x >> 56u64) as u8,
        (x >> 48u64) as u8,
        (x >> 40u64) as u8,
        (x >> 32u64) as u8,
        (x >> 24u64) as u8,
        (x >> 16u64) as u8,
        (x >> 8u64) as u8,
        x as u8,
    ]
}

/// The four big-endian bytes of a 32-bit word.
pub open spec fn u32_be_bytes(x: u32) -> Seq<u8> {
    seq![(x >> 24u32) as u8, (x >> 16u32) as u8, (x >> 8u32) as u8, x as u8]
}

fn push_u64_be(out: &mut Vec<u8>, x: u64)
    ensures
        final(out)@ == old(out)@ + u64_be_bytes(x),
{
    out.push((x >> 56u64) as u8);
    out.push((x >> 48u64) as u8);
    out.push((x >> 40u64) as u8);
    out.push((x >> 32u64) as u8);
    out.push((x >> 24u64) as u8);
    out.push((x >> 16u64) as u8);
    out.push((x >> 8u64) as u8);
    out.push(x as u8);
    proof {
        assert(out@ =~= old(out)@ + u64_be_bytes(x));
    }
}

/// A 20-byte account address, as three big-endian limbs.
#[derive(Clone, Copy, Debug, PartialEq, Eq, Structural, Hash)]
pub struct Address {
    pub hi: u64,
    pub mid: u64,
    pub lo: u32,
}

impl Address {
    pub open spec fn bytes(&self) -> Seq<u8> {
        u64_be_bytes(self.hi) + u64_be_bytes(self.mid) + u32_be_bytes(self.lo)
    }

    pub fn new(hi: u64, mid: u64, lo: u32) -> (r: Address)
        ensures
            r == (Address { hi, mid, lo }),
    {
        Address { hi, mid, lo }
    }

    /// The twenty big-endian bytes of the address.
    pub fn to_bytes(&self) -> (r: Vec<u8>)
        ensures
            r@ == self.bytes(),
    {
        let mut out: Vec<u8> = Vec::new();
        push_u64_be(&mut out, self.hi);
        push_u64_be(&mut out, self.mid);
        out.push((self.lo >> 24u32) as u8);
        out.push((self.lo >> 16u32) as u8);
        out.push((self.lo >> 8u32) as u8);
        out.push(self.lo as u8);
        proof {
            assert(out@ =~= self.bytes());
        }
        out
    }
}

impl TableKey for Address {
    open spec fn rank(&self) -> int {
        (self.hi as int * pow2_64() + self.mid as int) * pow2_32() + self.lo as int
    }

    proof fn lemma_rank_injective(a: Self, b: Self) {
        lemma_pair_rank(a.hi as int, a.mid as int, b.hi as int, b.mid as int, pow2_64());
        lemma_address_rank(a, b);
    }

    fn key_lt(&self, other: &Self) -> (r: bool) {
        proof {
            lemma_address_rank(*self, *other);
        }
        self.hi < other.hi || (self.hi == other.hi && (self.mid < other.mid || (self.mid
            == other.mid && self.lo < other.lo)))
    }

    fn key_eq(&self, other: &Self) -> (r: bool) {
        proof {
            lemma_address_rank(*self, *other);
        }
        *self == *other
    }
}

pub proof fn lemma_address_rank(a: Address, b: Address)
    ensures
        0 <= a.rank() < pow2_160(),
        a.rank() < b.rank() <==> (a.hi < b.hi || (a.hi == b.hi && (a.mid < b.mid || (a.mid == b.mid
            && a.lo < b.lo)))),
        a.rank() == b.rank() <==> a == b,
{
    let ha = a.hi as int * pow2_64() + a.mid as int;
    let hb = b.hi as int * pow2_64() + b.mid as int;
    lemma_pair_rank(a.hi as int, a.mid as int, b.hi as int, b.mid as int, pow2_64());
    lemma_pair_rank(ha, a.lo as int, hb, b.lo as int, pow2_32());
    assert(0 <= ha < pow2_128()) by (nonlinear_arith)
        requires
            ha == a.hi as int * pow2_64() + a.mid as int,
            0 <= a.hi < pow2_64(),
            0 <= a.mid < pow2_64(),
            pow2_128() == pow2_64() * pow2_64(),
    ;
    assert(0 <= a.rank() < pow2_160()) by (nonlinear_arith)
        requires
            a.rank() == ha * pow2_32() + a.lo as int,
            0 <= ha < pow2_128(),
            0 <= a.lo < pow2_32(),
            pow2_160() == pow2_128() * pow2_32(),
    ;
}

/// A 32-byte hash or word, as four big-endian limbs.
#[derive(Clone, Copy, Debug, PartialEq, Eq, Structural, Hash)]
pub struct B256 {
    pub a: u64,
    pub b: u64,
    pub c: u64,
    pub d: u64,
}

impl B256 {
    pub open spec fn bytes(&self) -> Seq<u8> {
        u64_be_bytes(self.a) + u64_be_bytes(self.b) + u64_be_bytes(self.c) + u64_be_bytes(self.d)
    }

    pub fn zero() -> (r: B256)
        ensures
            r == (B256 { a: 0, b: 0, c: 0, d: 0 }),
    {
        B256 { a: 0, b: 0, c: 0, d: 0 }
    }

    pub fn new(a: u64, b: u64, c: u64, d: u64) -> (r: B256)
        ensures
            r == (B256 { a, b, c, d }),
    {
        B256 { a, b, c, d }
    }

    /// The thirty-two big-endian bytes.
    pub fn to_bytes(&self) -> (r: Vec<u8>)
        ensures
            r@ == self.bytes(),
    {
        let mut out: Vec<u8> = Vec::new();
        push_u64_be(&mut out, self.a);
        push_u64_be(&mut out, self.b);
        push_u64_be(&mut out, self.c);
        push_u64_be(&mut out, self.d);
        proof {
            assert(out@ =~= self.bytes());
        }
        out
    }
}

pub proof fn lemma_b256_rank(x: B256, y: B256)
    ensures
        0 <= x.rank() < pow2_256(),
        x.rank() < y.rank() <==> (x.a < y.a || (x.a == y.a && (x.b < y.b || (x.b == y.b && (x.c
            < y.c || (x.c == y.c && x.d < y.d)))))),
        x.rank() == y.rank() <==> x == y,
{
    let p = pow2_64();
    let x1 = x.a as int * p + x.b as int;
    let y1 = y.a as int * p + y.b as int;
    let x2 = x1 * p + x.c as int;
    let y2 = y1 * p + y.c as int;
    lemma_pair_rank(x.a as int, x.b as int, y.a as int, y.b as int, p);
    lemma_pair_rank(x1, x.c as int, y1, y.c as int, p);
    lemma_pair_rank(x2, x.d as int, y2, y.d as int, p);
    assert(0 <= x1 < p * p) by (nonlinear_arith)
        requires
            x1 == x.a as int * p + x.b as int,
            0 <= x.a < p,
            0 <= x.b < p,
    ;
    assert(0 <= x2 < p * p * p) by (nonlinear_arith)
        requires
            x2 == x1 * p + x.c as int,
            0 <= x1 < p * p,
            0 <= x.c < p,
    ;
    assert(0 <= x.rank() < p * p * p * p) by (nonlinear_arith)
        requires
            x.rank() == x2 * p + x.d as int,
            0 <= x2 < p * p * p,
            0 <= x.d < p,
    ;
    assert(p * p * p * p == pow2_256()) by (nonlinear_arith)
        requires
            p == pow2_64(),
            pow2_128() == p * p,
            pow2_256() == pow2_128() * pow2_128(),
    ;
}

impl TableKey for B256 {
    open spec fn rank(&self) -> int {
        ((self.a as int * pow2_64() + self.b as int) * pow2_64() + self.c as int) * pow2_64()
            + self.d as int
    }

    proof fn lemma_rank_injective(a: Self, b: Self) {
        lemma_b256_rank(a, b);
    }

    fn key_lt(&self, other: &Self) -> (r: bool) {
        proof {
            lemma_b256_rank(*self, *other);
        }
        self.a < other.a || (self.a == other.a && (self.b < other.b || (self.b == other.b && (
        self.c < other.c || (self.c == other.c && self.d < other.d)))))
    }

    fn key_eq(&self, other: &Self) -> (r: bool) {
        proof {
            lemma_b256_rank(*self, *other);
        }
        *self == *other
    }
}

pub uninterp spec fn keccak256_of(data: Seq<u8>) -> B256;

/// Relies on `alloy_primitives::keccak256`: the Keccak-256 digest of the input,
/// a function of the input bytes alone, read back as four big-endian limbs.
#[verifier::external_body]
fn keccak256_raw(data: &[u8]) -> (r: B256)
    ensures
        r == keccak256_of(data@),
{
    let h = alloy_primitives::keccak256(data).0;
    B256 {
        a: u64::from_be_bytes(h[0..8].try_into().unwrap()),
        b: u64::from_be_bytes(h[8..16].try_into().unwrap()),
        c: u64::from_be_bytes(h[16..24].try_into().unwrap()),
        d: u64::from_be_bytes(h[24..32].try_into().unwrap()),
    }
}

/// The Keccak-256 digest of a byte string.
pub fn keccak256(data: &Vec<u8>) -> (r: B256)
    ensures
        r == keccak256_of(data@),
{
    keccak256_raw(data.as_slice())
}

/// The Keccak-256 digest of an address's twenty bytes.
pub fn keccak256_address(address: &Address) -> (r: B256)
    ensures
        r == keccak256_of(address.bytes()),
{
    let bytes = address.to_bytes();
    keccak256_raw(bytes.as_slice())
}

/// The Keccak-256 digest of a word's thirty-two bytes.
pub fn keccak256_word(word: &B256) -> (r: B256)
    ensures
        r == keccak256_of(word.bytes()),
{
    let bytes = word.to_bytes();
    keccak256_raw(bytes.as_slice())
}

/// An unsigned 256-bit integer, as two 128-bit halves.
#[derive(Clone, Copy, Debug, PartialEq, Eq, Structural, Hash)]
pub struct U256 {
    pub hi: u128,
    pub lo: u128,
}

impl U256 {
    pub open spec fn value(&self) -> int {
        self.hi as int * pow2_128() + self.lo as int
    }

    pub fn zero() -> (r: U256)
        ensures
            r.value() == 0,
            r == (U256 { hi: 0, lo: 0 }),
    {
        U256 { hi: 0, lo: 0 }
    }

    pub fn from_u128(x: u128) -> (r: U256)
        ensures
            r.value() == x,
            r == (U256 { hi: 0, lo: x }),
    {
        U256 { hi: 0, lo: x }
    }

    pub fn is_zero(&self) -> (r: bool)
        ensures
            r == (*self == U256 { hi: 0, lo: 0 }),
            r == (self.value() == 0),
    {
        proof {
            assert(self.hi > 0 ==> self.hi as int * pow2_128() >= pow2_128()) by (nonlinear_arith);
        }
        self.hi == 0 && self.lo == 0
    }

    /// Addition modulo 2^256.
    pub fn wrapping_add(&self, other: &U256) -> (r: U256)
        ensures
            r.value() == (self.value() + other.value()) % pow2_256(),
    {
        let lo = self.lo.wrapping_add(other.lo);
        let carry: u128 = if lo < self.lo {
            1
        } else {
            0
        };
        let hi = self.hi.wrapping_add(other.hi).wrapping_add(carry);
        let r = U256 { hi, lo };
        proof {
            let b = pow2_128();
            let s = self.lo as int + other.lo as int;
            assert(lo as int == s - carry * b);
            let t = self.hi as int + other.hi as int + carry as int;
            let k: int = if t >= b {
                1
            } else {
                0
            };
            assert(hi as int == t - k * b);
            assert(self.value() + other.value() == r.value() + k * (b * b)) by (nonlinear_arith)
                requires
                    self.value() == self.hi as int * b + self.lo as int,
                    other.value() == other.hi as int * b + other.lo as int,
                    r.value() == hi as int * b + lo as int,
                    lo as int == s - carry * b,
                    s == self.lo as int + other.lo as int,
                    hi as int == t - k * b,
                    t == self.hi as int + other.hi as int + carry as int,
            ;
            assert(0 <= r.value() < b * b) by (nonlinear_arith)
                requires
                    r.value() == hi as int * b + lo as int,
                    0 <= hi < b,
                    0 <= lo < b,
            ;
            vstd::arithmetic::div_mod::lemma_mod_multiples_vanish(k, r.value(), b * b);
            vstd::arithmetic::div_mod::lemma_small_mod(r.value() as nat, (b * b) as nat);
        }
        r
    }
}

} // verus!
