//! The BabyBear prime field, p = 2^31 - 2^27 + 1 = 2013265921.
//!
//! Values are kept canonical (0 <= value < p) by every constructor and
//! operation; a `u32` holds them, so a slice of elements can be handed to a
//! GPU as a slice of `u32`.

use vstd::prelude::*;

verus! {

/// The BabyBear prime 2^31 - 2^27 + 1.
pub const BABYBEAR_PRIME: u32 = 2013265921;

/// A BabyBear field element held in canonical form.
#[derive(Debug, Clone, Copy, PartialEq, Eq, Structural)]
pub struct BabyBear {
    pub value: u32,
}

impl BabyBear {
    /// The element is in canonical form.
    pub open spec fn is_canonical(self) -> bool {
        self.value < BABYBEAR_PRIME
    }

    /// The element `value mod p`.
    pub fn new(value: u64) -> (r: Self)
        ensures
            r.value == value % (BABYBEAR_PRIME as u64),
            r.is_canonical(),
    {
        Self { value: (value % (BABYBEAR_PRIME as u64)) as u32 }
    }

    pub fn zero() -> (r: Self)
        ensures
            r.value == 0,
    {
        Self { value: 0 }
    }

    pub fn one() -> (r: Self)
        ensures
            r.value == 1,
    {
        Self { value: 1 }
    }

    /// The four little-endian bytes of the value.
    pub fn to_bytes(&self) -> (r: [u8; 4])
        ensures
            r@ == le_bytes_u32(self.value),
    {
        let v = self.value;
        assert((v & 0xff) == v % 256 && ((v >> 8) & 0xff) == (v / 256) % 256 && ((v >> 16) & 0xff)
            == (v / 65536) % 256 && ((v >> 24) & 0xff) == (v / 16777216) % 256) by (bit_vector);
        [
            (v & 0xff) as u8,
            ((v >> 8) & 0xff) as u8,
            ((v >> 16) & 0xff) as u8,
            ((v >> 24) & 0xff) as u8,
        ]
    }
}

/// The little-endian bytes of a `u32`, as arithmetic on its value.
pub open spec fn le_bytes_u32(v: u32) -> Seq<u8> {
    seq![
        (v % 256) as u8,
        ((v / 256) % 256) as u8,
        ((v / 65536) % 256) as u8,
        ((v / 16777216) % 256) as u8,
    ]
}

/// `a + b` reduced by one conditional subtraction of p.
pub open spec fn add_value(a: u32, b: u32) -> u32 {
    if a + b >= BABYBEAR_PRIME {
        (a + b - BABYBEAR_PRIME) as u32
    } else {
        (a + b) as u32
    }
}

/// `a - b`, lifted by p when `a < b`.
pub open spec fn sub_value(a: u32, b: u32) -> u32 {
    if a >= b {
        (a - b) as u32
    } else {
        (a + BABYBEAR_PRIME - b) as u32
    }
}

impl core::ops::Add for BabyBear {
    type Output = Self;

    fn add(self, rhs: Self) -> (r: Self) {
        let sum = self.value + rhs.value;
        Self { value: if sum >= BABYBEAR_PRIME { sum - BABYBEAR_PRIME } else { sum } }
    }
}

impl vstd::std_specs::ops::AddSpecImpl for BabyBear {
    open spec fn obeys_add_spec() -> bool {
        true
    }

    /// The sum of the two values fits in a `u32`.
    open spec fn add_req(self, rhs: Self) -> bool {
        self.value + rhs.value <= u32::MAX
    }

    open spec fn add_spec(self, rhs: Self) -> Self {
        BabyBear { value: add_value(self.value, rhs.value) }
    }
}

impl core::ops::Sub for BabyBear {
    type Output = Self;

    fn sub(self, rhs: Self) -> (r: Self) {
        let diff = if self.value >= rhs.value {
            self.value - rhs.value
        } else {
            self.value + BABYBEAR_PRIME - rhs.value
        };
        Self { value: diff }
    }
}

impl vstd::std_specs::ops::SubSpecImpl for BabyBear {
    open spec fn obeys_sub_spec() -> bool {
        true
    }

    /// When `self < rhs`, `self + p` neither overflows nor falls below `rhs`.
    open spec fn sub_req(self, rhs: Self) -> bool {
        self.value >= rhs.value || (self.value + BABYBEAR_PRIME <= u32::MAX && rhs.value
            <= self.value + BABYBEAR_PRIME)
    }

    open spec fn sub_spec(self, rhs: Self) -> Self {
        BabyBear { value: sub_value(self.value, rhs.value) }
    }
}

impl core::ops::Mul for BabyBear {
    type Output = Self;

    fn mul(self, rhs: Self) -> (r: Self) {
        let a = self.value as u64;
        let b = rhs.value as u64;
        assert(a * b <= u64::MAX) by (nonlinear_arith)
            requires
                a <= u32::MAX,
                b <= u32::MAX,
        ;
        Self { value: ((a * b) % (BABYBEAR_PRIME as u64)) as u32 }
    }
}

impl vstd::std_specs::ops::MulSpecImpl for BabyBear {
    open spec fn obeys_mul_spec() -> bool {
        true
    }

    open spec fn mul_req(self, rhs: Self) -> bool {
        true
    }

    open spec fn mul_spec(self, rhs: Self) -> Self {
        BabyBear { value: ((self.value * rhs.value) % (BABYBEAR_PRIME as int)) as u32 }
    }
}

/// On canonical elements the three operations are the field operations mod p.
pub proof fn lemma_canonical_ops(a: BabyBear, b: BabyBear)
    requires
        a.is_canonical(),
        b.is_canonical(),
    ensures
        add_value(a.value, b.value) == (a.value + b.value) % (BABYBEAR_PRIME as int),
        sub_value(a.value, b.value) == (a.value - b.value) % (BABYBEAR_PRIME as int),
        (a.value * b.value) % (BABYBEAR_PRIME as int) < BABYBEAR_PRIME,
{
}

/// The bytes of `to_bytes` are the base-256 digits of the value, least
/// significant first: each is below 256, and
/// `b[0] + 256 b[1] + 65536 b[2] + 16777216 b[3]` is the value.
pub proof fn lemma_le_bytes_u32_digits(v: u32)
    ensures
        le_bytes_u32(v).len() == 4,
        ({
            let b = le_bytes_u32(v);
            b[0] + 256 * b[1] + 65536 * b[2] + 16777216 * b[3] == v
        }),
{
    let b = le_bytes_u32(v);
    assert(v == v % 256 + 256 * ((v / 256) % 256) + 65536 * ((v / 65536) % 256) + 16777216 * ((v / 16777216)
        % 256)) by (bit_vector);
    assert(b[0] == v % 256);
    assert(b[1] == (v / 256) % 256);
    assert(b[2] == (v / 65536) % 256);
    assert(b[3] == (v / 16777216) % 256);
}

} // verus!
