use vstd::prelude::*;

verus! {

/// Bit pattern of positive infinity. Every pattern above it, sign aside, is a NaN.
pub const INFINITY_BITS: u64 = 0x7FF0_0000_0000_0000;

/// Bit pattern of negative zero: the sign bit alone.
pub const SIGN_BIT: u64 = 0x8000_0000_0000_0000;

/// The pattern with its sign bit cleared.
pub open spec fn magnitude(bits: u64) -> u64 {
    if bits >= SIGN_BIT {
        (bits - SIGN_BIT) as u64
    } else {
        bits
    }
}

/// The value is neither an infinity nor a NaN.
pub open spec fn is_finite(bits: u64) -> bool {
    magnitude(bits) < INFINITY_BITS
}

/// The value compares greater than or equal to zero (negative zero does).
pub open spec fn is_non_negative(bits: u64) -> bool {
    bits <= INFINITY_BITS || bits == SIGN_BIT
}

/// The value compares strictly greater than zero.
pub open spec fn is_positive(bits: u64) -> bool {
    0 < bits <= INFINITY_BITS
}

pub fn bits_finite(bits: u64) -> (r: bool)
    ensures
        r == is_finite(bits),
{
    if bits >= SIGN_BIT {
        bits - SIGN_BIT < INFINITY_BITS
    } else {
        bits < INFINITY_BITS
    }
}

pub fn bits_non_negative(bits: u64) -> (r: bool)
    ensures
        r == is_non_negative(bits),
{
    bits <= INFINITY_BITS || bits == SIGN_BIT
}

pub fn bits_positive(bits: u64) -> (r: bool)
    ensures
        r == is_positive(bits),
{
    0 < bits && bits <= INFINITY_BITS
}

/// One trading day's record. The five numbers are binary64 bit patterns in
/// currency units (volume: a count).
#[derive(Clone, Debug, PartialEq, Eq)]
pub struct PriceBar {
    pub date: String,
    pub open: u64,
    pub high: u64,
    pub low: u64,
    pub close: u64,
    pub volume: u64,
}

/// What a `PriceBar` stands for.
pub struct BarModel {
    pub date: Seq<char>,
    pub open: u64,
    pub high: u64,
    pub low: u64,
    pub close: u64,
    pub volume: u64,
}

impl BarModel {
    /// All five numbers are finite.
    pub open spec fn finite(self) -> bool {
        &&& is_finite(self.open)
        &&& is_finite(self.high)
        &&& is_finite(self.low)
        &&& is_finite(self.close)
        &&& is_finite(self.volume)
    }

    /// All five numbers are finite and not below zero.
    pub open spec fn valid(self) -> bool {
        &&& self.finite()
        &&& is_non_negative(self.open)
        &&& is_non_negative(self.high)
        &&& is_non_negative(self.low)
        &&& is_non_negative(self.close)
        &&& is_non_negative(self.volume)
    }
}

impl View for PriceBar {
    type V = BarModel;

    open spec fn view(&self) -> BarModel {
        BarModel {
            date: self.date@,
            open: self.open,
            high: self.high,
            low: self.low,
            close: self.close,
            volume: self.volume,
        }
    }
}

/// The models of a sequence of bars, in order.
pub open spec fn models(bars: Seq<PriceBar>) -> Seq<BarModel> {
    bars.map_values(|b: PriceBar| b@)
}

impl PriceBar {
    /// Whether all five numbers are finite.
    pub fn is_finite(&self) -> (r: bool)
        ensures
            r == self@.finite(),
    {
        bits_finite(self.open) && bits_finite(self.high) && bits_finite(self.low) && bits_finite(
            self.close,
        ) && bits_finite(self.volume)
    }

    /// Whether the bar meets the record invariant: finite numbers, none below zero.
    pub fn is_valid(&self) -> (r: bool)
        ensures
            r == self@.valid(),
    {
        self.is_finite() && bits_non_negative(self.open) && bits_non_negative(self.high)
            && bits_non_negative(self.low) && bits_non_negative(self.close) && bits_non_negative(
            self.volume,
        )
    }

    /// A copy with the same date and numbers.
    pub fn duplicate(&self) -> (r: PriceBar)
        ensures
            r@ == self@,
    {
        PriceBar {
            date: self.date.clone(),
            open: self.open,
            high: self.high,
            low: self.low,
            close: self.close,
            volume: self.volume,
        }
    }
}

/// Which bars the normaliser keeps.
#[derive(Clone, Copy, Debug, PartialEq, Eq, Structural)]
pub enum InclusionPolicy {
    /// Keep every bar.
    AcceptAll,
    /// Drop a bar whose close is not strictly greater than zero.
    RejectNonPositiveClose,
}

impl InclusionPolicy {
    pub open spec fn accepts(self, bar: BarModel) -> bool {
        match self {
            InclusionPolicy::AcceptAll => true,
            InclusionPolicy::RejectNonPositiveClose => is_positive(bar.close),
        }
    }

    /// Whether this policy keeps `bar`.
    pub fn keeps(&self, bar: &PriceBar) -> (r: bool)
        ensures
            r == self.accepts(bar@),
    {
        match self {
            InclusionPolicy::AcceptAll => true,
            InclusionPolicy::RejectNonPositiveClose => bits_positive(bar.close),
        }
    }
}

impl Default for InclusionPolicy {
    fn default() -> (r: InclusionPolicy)
        ensures
            r == InclusionPolicy::AcceptAll,
    {
        InclusionPolicy::AcceptAll
    }
}

} // verus!
