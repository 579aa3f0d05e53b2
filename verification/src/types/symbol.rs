//! What the engine knows about a tradable symbol.
use vstd::prelude::*;

use crate::types::ids::{CurrencyId, SymbolId, Timestamp};
use crate::types::numeric::{Bps, Price, Size};

verus! {

#[derive(Debug, Clone, Copy)]
pub struct SymbolSpec {
    pub symbol_id: SymbolId,
    pub base_currency: CurrencyId,
    pub quote_currency: CurrencyId,
    pub base_minor_per_major: i64,
    pub quote_minor_per_major: i64,
    pub tick_size: Price,
    pub lot_size: Size,
    pub min_order_size: Size,
    pub max_order_size: Size,
    pub fee_schedule: FeeSchedule,
    pub price_band: PriceBand,
    /// Spot, or the parameters of a derivative.
    pub kind_params: SymbolKindParams,
    pub is_suspended: bool,
}

#[derive(Debug, Clone, Copy)]
pub enum SymbolKindParams {
    Spot,
    PerpetualSwap(PerpParams),
    Future(FutureParams),
}

#[derive(Debug, Clone, Copy)]
pub struct PerpParams {
    pub initial_margin_bps: Bps,
    pub maintenance_margin_bps: Bps,
    pub funding_interval_secs: i64,
    pub max_leverage: u32,
}

#[derive(Debug, Clone, Copy)]
pub struct FutureParams {
    pub expiry: Timestamp,
    pub initial_margin_bps: Bps,
    pub maintenance_margin_bps: Bps,
    /// Mostly the quote currency; an inverse contract has another.
    pub settlement_currency: CurrencyId,
}

#[derive(Debug, Clone, Copy)]
pub struct FeeSchedule {
    pub maker_bps: Bps,
    pub taker_bps: Bps,
}

/// Prices may stand at most `upper_bps_from_ref` above and at most
/// `lower_bps_from_ref` below `reference_price`. A side without a value is open.
#[derive(Debug, Clone, Copy)]
pub struct PriceBand {
    pub upper_bps_from_ref: Option<Bps>,
    pub lower_bps_from_ref: Option<Bps>,
    pub reference_price: Option<Price>,
}

impl PriceBand {
    /// A band that lets every price pass.
    pub fn none() -> (r: PriceBand)
        ensures
            r.upper_bps_from_ref.is_none(),
            r.lower_bps_from_ref.is_none(),
            r.reference_price.is_none(),
    {
        PriceBand { upper_bps_from_ref: None, lower_bps_from_ref: None, reference_price: None }
    }
}

} // verus!
