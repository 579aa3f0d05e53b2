//! Prices, sizes and amounts of money, all in minor units.
use vstd::prelude::*;
use crate::math;

verus! {

/// Price in minor units of the quote currency. Scale and tick belong to the
/// symbol.
#[derive(Debug, Clone, Copy, PartialEq, Eq, PartialOrd, Ord, Hash, Default, Structural)]
pub struct Price(pub i64);

/// Quantity in minor units of the base currency.
#[derive(Debug, Clone, Copy, PartialEq, Eq, PartialOrd, Ord, Hash, Default, Structural)]
pub struct Size(pub i64);

/// Money in minor units of some currency. Signed, since a loss is negative.
#[derive(Debug, Clone, Copy, PartialEq, Eq, PartialOrd, Ord, Hash, Default, Structural)]
pub struct Amount(pub i64);

/// Basis points: one is a hundredth of a percent.
#[derive(Debug, Clone, Copy, PartialEq, Eq, PartialOrd, Ord, Hash, Default, Structural)]
pub struct Bps(pub u32);

/// `amount` at a rate of `bps`, truncated toward zero.
pub open spec fn bps_of(amount: int, bps: int) -> int {
    math::tdiv(amount * bps, 10_000)
}

/// `amount` at a rate of `bps`, rounded away from zero.
pub open spec fn bps_of_ceil(amount: int, bps: int) -> int {
    math::div_away(amount * bps, 10_000)
}

impl Price {
    pub fn new(v: i64) -> (r: Price)
        ensures
            r.0 == v,
    {
        Price(v)
    }

    pub fn raw(self) -> (r: i64)
        ensures
            r == self.0,
    {
        self.0
    }

    /// The product of price and size. An `i128` holds every such product.
    pub fn mul_size(self, size: Size) -> (r: i128)
        ensures
            r == self.0 * size.0,
    {
        let p: i64 = self.0;
        let s: i64 = size.0;
        proof {
            lemma_product_fits(p, s);
        }
        p as i128 * s as i128
    }
}

/// The product of two `i64` values is far inside `i128`.
pub proof fn lemma_product_fits(a: i64, b: i64)
    ensures
        -0x4000_0000_0000_0000_0000_0000_0000_0000 <= a * b
            <= 0x4000_0000_0000_0000_0000_0000_0000_0000,
{
    let m: int = 0x8000_0000_0000_0000;
    let x = a as int;
    let y = b as int;
    assert(-(m * m) <= x * y <= m * m) by (nonlinear_arith)
        requires
            -m <= x <= m,
            -m <= y <= m,
    ;
    assert(m * m == 0x4000_0000_0000_0000_0000_0000_0000_0000);
}

impl Size {
    pub fn new(v: i64) -> (r: Size)
        ensures
            r.0 == v,
    {
        Size(v)
    }

    pub fn raw(self) -> (r: i64)
        ensures
            r == self.0,
    {
        self.0
    }

    pub fn is_zero(self) -> (r: bool)
        ensures
            r == (self.0 == 0),
    {
        self.0 == 0
    }

    pub fn is_positive(self) -> (r: bool)
        ensures
            r == (self.0 > 0),
    {
        self.0 > 0
    }

    pub fn checked_add(self, rhs: Size) -> (r: Option<Size>)
        ensures
            r == (if math::fits_i64(self.0 + rhs.0) {
                Some(Size((self.0 + rhs.0) as i64))
            } else {
                None
            }),
    {
        match self.0.checked_add(rhs.0) {
            Some(v) => Some(Size(v)),
            None => None,
        }
    }

    pub fn checked_sub(self, rhs: Size) -> (r: Option<Size>)
        ensures
            r == (if math::fits_i64(self.0 - rhs.0) {
                Some(Size((self.0 - rhs.0) as i64))
            } else {
                None
            }),
    {
        match self.0.checked_sub(rhs.0) {
            Some(v) => Some(Size(v)),
            None => None,
        }
    }

    /// Subtraction clamped to the range of `i64`, not to zero.
    pub fn saturating_sub(self, rhs: Size) -> (r: Size)
        ensures
            r.0 == (if self.0 - rhs.0 > i64::MAX {
                i64::MAX as int
            } else if self.0 - rhs.0 < i64::MIN {
                i64::MIN as int
            } else {
                self.0 - rhs.0
            }),
    {
        Size(saturating_diff(self.0, rhs.0))
    }

    pub fn min(self, other: Size) -> (r: Size)
        ensures
            r.0 == (if self.0 <= other.0 {
                self.0
            } else {
                other.0
            }),
    {
        if self.0 <= other.0 {
            self
        } else {
            other
        }
    }

    pub fn max(self, other: Size) -> (r: Size)
        ensures
            r.0 == (if self.0 >= other.0 {
                self.0
            } else {
                other.0
            }),
    {
        if self.0 >= other.0 {
            self
        } else {
            other
        }
    }
}

/// `a - b`, clamped to the range of `i64`.
pub open spec fn saturated(x: int) -> int {
    if x > i64::MAX {
        i64::MAX as int
    } else if x < i64::MIN {
        i64::MIN as int
    } else {
        x
    }
}

/// `a - b`, clamped to the range of `i64`.
pub fn saturating_diff(a: i64, b: i64) -> (r: i64)
    ensures
        r == saturated(a - b),
{
    match a.checked_sub(b) {
        Some(v) => v,
        None => if b > 0 {
            i64::MIN
        } else {
            i64::MAX
        },
    }
}

impl Amount {
    pub fn new(v: i64) -> (r: Amount)
        ensures
            r.0 == v,
    {
        Amount(v)
    }

    pub fn raw(self) -> (r: i64)
        ensures
            r == self.0,
    {
        self.0
    }

    pub fn is_zero(self) -> (r: bool)
        ensures
            r == (self.0 == 0),
    {
        self.0 == 0
    }

    pub fn checked_add(self, rhs: Amount) -> (r: Option<Amount>)
        ensures
            r == (if math::fits_i64(self.0 + rhs.0) {
                Some(Amount((self.0 + rhs.0) as i64))
            } else {
                None
            }),
    {
        match self.0.checked_add(rhs.0) {
            Some(v) => Some(Amount(v)),
            None => None,
        }
    }

    pub fn checked_sub(self, rhs: Amount) -> (r: Option<Amount>)
        ensures
            r == (if math::fits_i64(self.0 - rhs.0) {
                Some(Amount((self.0 - rhs.0) as i64))
            } else {
                None
            }),
    {
        match self.0.checked_sub(rhs.0) {
            Some(v) => Some(Amount(v)),
            None => None,
        }
    }

    /// The amount at a rate of `bps`, truncated toward zero. `None` where the
    /// result is no `i64`.
    pub fn mul_bps(self, bps: Bps) -> (r: Option<Amount>)
        ensures
            r == (if math::fits_i64(bps_of(self.0 as int, bps.0 as int)) {
                Some(Amount(bps_of(self.0 as int, bps.0 as int) as i64))
            } else {
                None
            }),
    {
        proof {
            lemma_product_fits(self.0, bps.0 as i64);
        }
        let product: i128 = self.0 as i128 * bps.0 as i128;
        match math::narrow_i64(math::trunc_div(product, 10_000)) {
            Some(v) => Some(Amount(v)),
            None => None,
        }
    }

    /// The amount at a rate of `bps`, rounded away from zero, so that a fee
    /// never loses its fraction. `None` where the result is no `i64`.
    pub fn mul_bps_ceil(self, bps: Bps) -> (r: Option<Amount>)
        ensures
            r == (if math::fits_i64(bps_of_ceil(self.0 as int, bps.0 as int)) {
                Some(Amount(bps_of_ceil(self.0 as int, bps.0 as int) as i64))
            } else {
                None
            }),
    {
        proof {
            lemma_product_fits(self.0, bps.0 as i64);
        }
        let product: i128 = self.0 as i128 * bps.0 as i128;
        let result: i128 = if product >= 0 {
            math::trunc_div(product + 9_999, 10_000)
        } else {
            math::trunc_div(product - 9_999, 10_000)
        };
        match math::narrow_i64(result) {
            Some(v) => Some(Amount(v)),
            None => None,
        }
    }

    /// `raw / divisor`, truncated toward zero. `None` where the divisor is zero
    /// or the quotient is no `i64`.
    pub fn from_scaled_i128(raw: i128, divisor: i128) -> (r: Option<Amount>)
        requires
            !(raw == i128::MIN && divisor == -1),
        ensures
            r == (if divisor != 0 && math::fits_i64(math::tdiv(raw as int, divisor as int)) {
                Some(Amount(math::tdiv(raw as int, divisor as int) as i64))
            } else {
                None
            }),
    {
        if divisor == 0 {
            return None;
        }
        match math::narrow_i64(math::trunc_div(raw, divisor)) {
            Some(v) => Some(Amount(v)),
            None => None,
        }
    }
}

impl Bps {
    pub fn new(v: u32) -> (r: Bps)
        ensures
            r.0 == v,
    {
        Bps(v)
    }

    pub fn raw(self) -> (r: u32)
        ensures
            r == self.0,
    {
        self.0
    }
}

impl core::ops::Add for Size {
    type Output = Size;

    fn add(self, rhs: Size) -> Size {
        Size(self.0 + rhs.0)
    }
}

impl vstd::std_specs::ops::AddSpecImpl for Size {
    open spec fn obeys_add_spec() -> bool {
        true
    }

    open spec fn add_req(self, rhs: Size) -> bool {
        math::fits_i64(self.0 + rhs.0)
    }

    open spec fn add_spec(self, rhs: Size) -> Size {
        Size((self.0 + rhs.0) as i64)
    }
}

impl core::ops::Sub for Size {
    type Output = Size;

    fn sub(self, rhs: Size) -> Size {
        Size(self.0 - rhs.0)
    }
}

impl vstd::std_specs::ops::SubSpecImpl for Size {
    open spec fn obeys_sub_spec() -> bool {
        true
    }

    open spec fn sub_req(self, rhs: Size) -> bool {
        math::fits_i64(self.0 - rhs.0)
    }

    open spec fn sub_spec(self, rhs: Size) -> Size {
        Size((self.0 - rhs.0) as i64)
    }
}

impl core::ops::Add for Amount {
    type Output = Amount;

    fn add(self, rhs: Amount) -> Amount {
        Amount(self.0 + rhs.0)
    }
}

impl vstd::std_specs::ops::AddSpecImpl for Amount {
    open spec fn obeys_add_spec() -> bool {
        true
    }

    open spec fn add_req(self, rhs: Amount) -> bool {
        math::fits_i64(self.0 + rhs.0)
    }

    open spec fn add_spec(self, rhs: Amount) -> Amount {
        Amount((self.0 + rhs.0) as i64)
    }
}

impl core::ops::Sub for Amount {
    type Output = Amount;

    fn sub(self, rhs: Amount) -> Amount {
        Amount(self.0 - rhs.0)
    }
}

impl vstd::std_specs::ops::SubSpecImpl for Amount {
    open spec fn obeys_sub_spec() -> bool {
        true
    }

    open spec fn sub_req(self, rhs: Amount) -> bool {
        math::fits_i64(self.0 - rhs.0)
    }

    open spec fn sub_spec(self, rhs: Amount) -> Amount {
        Amount((self.0 - rhs.0) as i64)
    }
}

impl core::ops::Neg for Amount {
    type Output = Amount;

    fn neg(self) -> Amount {
        Amount(-self.0)
    }
}

impl vstd::std_specs::ops::NegSpecImpl for Amount {
    open spec fn obeys_neg_spec() -> bool {
        true
    }

    open spec fn neg_req(self) -> bool {
        self.0 != i64::MIN
    }

    open spec fn neg_spec(self) -> Amount {
        Amount((-self.0) as i64)
    }
}

/// Adding and then taking away the same amount gives back the first one.
pub proof fn law_add_then_sub_roundtrip(a: Amount, b: Amount)
    requires
        math::fits_i64(a.0 + b.0),
    ensures
        ({
            let sum = Amount((a.0 + b.0) as i64);
            &&& math::fits_i64(sum.0 - b.0)
            &&& Amount((sum.0 - b.0) as i64) == a
        }),
{
}

/// A rate of at most the whole gives a result that fits and is no larger in
/// magnitude than the amount.
pub proof fn law_mul_bps_bounded_by_amount(a: Amount, bps: Bps)
    requires
        bps.0 <= 10_000,
    ensures
        math::fits_i64(bps_of(a.0 as int, bps.0 as int)),
        math::magnitude(bps_of(a.0 as int, bps.0 as int)) <= math::magnitude(a.0 as int),
{
    let x = math::magnitude(a.0 as int);
    let r = bps.0 as int;
    let p = a.0 as int * r;
    assert(math::magnitude(p) == x * r) by (nonlinear_arith)
        requires
            p == a.0 as int * r,
            r >= 0,
            x == math::magnitude(a.0 as int),
    ;
    assert(x * r <= x * 10_000) by (nonlinear_arith)
        requires
            x >= 0,
            0 <= r <= 10_000,
    ;
    assert((a.0 >= 0 ==> p >= 0) && (a.0 <= 0 ==> p <= 0)) by (nonlinear_arith)
        requires
            p == a.0 as int * r,
            r >= 0,
    ;
}

/// Rounding a fee up costs at most one unit over truncating it.
pub proof fn law_mul_bps_ceil_at_least_mul_bps(a: Amount, bps: Bps)
    requires
        a.0 >= 0,
    ensures
        bps_of(a.0 as int, bps.0 as int) <= bps_of_ceil(a.0 as int, bps.0 as int),
        bps_of_ceil(a.0 as int, bps.0 as int) - bps_of(a.0 as int, bps.0 as int) <= 1,
{
    let p = a.0 as int * bps.0 as int;
    assert(p >= 0) by (nonlinear_arith)
        requires
            p == a.0 as int * bps.0 as int,
            a.0 >= 0,
            bps.0 >= 0,
    ;
}

/// An amount at a rate is the largest whole number that is not above it, and rounded up the
/// smallest that is not below it. Negative amounts are taken like positive ones.
pub proof fn law_rates_are_exact(amount: int, bps: int)
    requires
        amount >= 0,
        bps >= 0,
    ensures
        bps_of(amount, bps) * 10_000 <= amount * bps < (bps_of(amount, bps) + 1) * 10_000,
        (bps_of_ceil(amount, bps) - 1) * 10_000 < amount * bps <= bps_of_ceil(amount, bps)
            * 10_000,
        bps_of(-amount, bps) == -bps_of(amount, bps),
        bps_of_ceil(-amount, bps) == -bps_of_ceil(amount, bps),
{
    let p = amount * bps;
    assert(p >= 0) by (nonlinear_arith)
        requires
            p == amount * bps,
            amount >= 0,
            bps >= 0,
    ;
    assert((-amount) * bps == -p) by (nonlinear_arith)
        requires
            p == amount * bps,
    ;
}

/// A clamped number is the nearest one that a machine word holds.
pub proof fn law_clamping_takes_the_nearest(x: int, y: i64)
    ensures
        math::fits_i64(saturated(x)),
        math::magnitude(saturated(x) - x) <= math::magnitude(y - x),
{
}

} // verus!
