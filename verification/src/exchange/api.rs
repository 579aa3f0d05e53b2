//! Commands, events and market data of the exchange.
use vstd::prelude::*;

verus! {

pub type UserId = u64;

pub type OrderId = u64;

pub type SymbolId = i32;

pub type Currency = i32;

pub type Price = i64;

pub type Size = i64;

#[derive(Debug, Clone, Copy, PartialEq, Eq, Structural)]
pub enum OrderAction {
    Ask,
    Bid,
}

impl OrderAction {
    pub open spec fn other(self) -> OrderAction {
        match self {
            OrderAction::Ask => OrderAction::Bid,
            OrderAction::Bid => OrderAction::Ask,
        }
    }

    pub fn opposite(self) -> (r: OrderAction)
        ensures
            r == self.other(),
    {
        match self {
            OrderAction::Ask => OrderAction::Bid,
            OrderAction::Bid => OrderAction::Ask,
        }
    }
}

#[derive(Debug, Clone, Copy, PartialEq, Eq, Structural)]
pub enum OrderType {
    /// Good till cancelled.
    Gtc,
    /// Immediate or cancel.
    Ioc,
    /// Fill or kill.
    Fok,
    /// Fill or kill within a budget.
    FokBudget,
    /// Immediate or cancel within a budget.
    IocBudget,
    PostOnly,
    StopLimit,
    StopMarket,
    Iceberg,
    Day,
    /// Good till a point in time.
    Gtd(i64),
}

/// What happens where a user's order would trade with another one of the same
/// user.
#[derive(Debug, Clone, Copy, PartialEq, Eq, Structural)]
pub enum SelfTradePrevention {
    /// They trade.
    Allow,
    /// The incoming order is cancelled, the resting one stays.
    CancelTaker,
    /// The resting order is cancelled, the incoming one goes on.
    CancelMaker,
    /// Both are cancelled.
    CancelBoth,
    /// The resting order is passed over, both stay.
    Skip,
}

#[derive(Debug, Clone, Copy, PartialEq, Eq, Structural)]
pub enum SymbolType {
    CurrencyExchangePair,
    FuturesContract,
    PerpetualSwap,
    CallOption,
    PutOption,
}

#[derive(Debug, Clone, Copy, PartialEq, Eq, Structural)]
pub enum CommandResultCode {
    New,
    ValidForMatchingEngine,
    Success,
    Accepted,
    AuthInvalidUser,
    RiskNsf,
    RiskInvalidReserveBidPrice,
    RiskAskPriceLowerThanFee,
    RiskMarginTradingDisabled,
    /// A size or a price that is not positive.
    RiskInvalidOrderParams,
    /// An amount that does not fit a machine word.
    RiskArithmeticOverflow,
    MatchingInvalidOrderBookId,
    MatchingUnknownOrderId,
    MatchingUnsupportedCommand,
    MatchingMoveFailedPriceOverRiskLimit,
    MatchingReduceFailedWrongSize,
    MatchingInvalidOrderSize,
    /// The order id is already in the book.
    MatchingDuplicateOrderId,
    StatePersistRiskEngineFailed,
    StatePersistMatchingEngineFailed,
    UserMgmtUserAlreadyExists,
    /// The transaction id was seen before.
    UserMgmtDuplicateTransaction,
    InvalidSymbol,
    UnsupportedSymbolType,
    BinaryCommandFailed,
    /// The matching thread failed on an earlier command.
    EnginePoisoned,
    /// The engine was shut down.
    EngineStopped,
}

/// A traded pair. Fees are per unit of size.
#[derive(Debug, Clone, Copy, PartialEq, Eq, Structural)]
pub struct CoreSymbolSpecification {
    pub symbol_id: SymbolId,
    pub symbol_type: SymbolType,
    pub base_currency: Currency,
    pub quote_currency: Currency,
    pub base_scale_k: i64,
    pub quote_scale_k: i64,
    pub taker_fee: i64,
    pub maker_fee: i64,
    pub margin_buy: i64,
    pub margin_sell: i64,
    pub stp: SelfTradePrevention,
}

/// The specification that a symbol has where nothing else is said. Self-trades
/// are prevented.
pub open spec fn default_spec() -> CoreSymbolSpecification {
    CoreSymbolSpecification {
        symbol_id: 0,
        symbol_type: SymbolType::CurrencyExchangePair,
        base_currency: 0,
        quote_currency: 0,
        base_scale_k: 1,
        quote_scale_k: 1,
        taker_fee: 0,
        maker_fee: 0,
        margin_buy: 0,
        margin_sell: 0,
        stp: SelfTradePrevention::CancelTaker,
    }
}

impl Default for CoreSymbolSpecification {
    fn default() -> (r: CoreSymbolSpecification)
        ensures
            r == default_spec(),
    {
        CoreSymbolSpecification {
            symbol_id: 0,
            symbol_type: SymbolType::CurrencyExchangePair,
            base_currency: 0,
            quote_currency: 0,
            base_scale_k: 1,
            quote_scale_k: 1,
            taker_fee: 0,
            maker_fee: 0,
            margin_buy: 0,
            margin_sell: 0,
            stp: SelfTradePrevention::CancelTaker,
        }
    }
}

#[derive(Debug, Clone, Copy, PartialEq, Eq, Structural)]
pub enum MatcherEventType {
    Trade,
    /// What is left of the command's own order leaves.
    Reject,
    Reduce,
    /// A resting order leaves because of self-trade prevention.
    RejectMaker,
}

/// What matching reports.
#[derive(Debug, Clone, Copy, PartialEq, Eq, Structural)]
pub struct MatcherTradeEvent {
    pub event_type: MatcherEventType,
    pub size: Size,
    pub price: Price,
    pub matched_order_id: OrderId,
    pub matched_order_uid: UserId,
    /// The price at which the bid of the event was frozen.
    pub bidder_hold_price: Price,
}

pub open spec fn trade_event(
    size: int,
    price: Price,
    matched_order_id: OrderId,
    matched_order_uid: UserId,
    bidder_hold_price: Price,
) -> MatcherTradeEvent {
    MatcherTradeEvent {
        event_type: MatcherEventType::Trade,
        size: size as i64,
        price,
        matched_order_id,
        matched_order_uid,
        bidder_hold_price,
    }
}

pub open spec fn reject_event(size: int, price: Price, bidder_hold_price: Price) -> MatcherTradeEvent {
    MatcherTradeEvent {
        event_type: MatcherEventType::Reject,
        size: size as i64,
        price,
        matched_order_id: 0,
        matched_order_uid: 0,
        bidder_hold_price,
    }
}

pub open spec fn reject_maker_event(
    size: int,
    price: Price,
    bidder_hold_price: Price,
    matched_order_id: OrderId,
    matched_order_uid: UserId,
) -> MatcherTradeEvent {
    MatcherTradeEvent {
        event_type: MatcherEventType::RejectMaker,
        size: size as i64,
        price,
        matched_order_id,
        matched_order_uid,
        bidder_hold_price,
    }
}

impl Default for MatcherTradeEvent {
    fn default() -> (r: MatcherTradeEvent)
        ensures
            r == trade_event(0, 0, 0, 0, 0),
    {
        MatcherTradeEvent::new_trade(0, 0, 0, 0, 0)
    }
}

impl MatcherTradeEvent {
    pub fn new_trade(
        size: Size,
        price: Price,
        matched_order_id: OrderId,
        matched_order_uid: UserId,
        bidder_hold_price: Price,
    ) -> (r: MatcherTradeEvent)
        ensures
            r == trade_event(
                size as int,
                price,
                matched_order_id,
                matched_order_uid,
                bidder_hold_price,
            ),
    {
        MatcherTradeEvent {
            event_type: MatcherEventType::Trade,
            size,
            price,
            matched_order_id,
            matched_order_uid,
            bidder_hold_price,
        }
    }

    /// What is left of an order leaves. The hold price is the one that its funds
    /// were frozen at: what is given back is computed from it.
    pub fn new_reject(size: Size, price: Price, bidder_hold_price: Price) -> (r: MatcherTradeEvent)
        ensures
            r == reject_event(size as int, price, bidder_hold_price),
    {
        MatcherTradeEvent {
            event_type: MatcherEventType::Reject,
            size,
            price,
            matched_order_id: 0,
            matched_order_uid: 0,
            bidder_hold_price,
        }
    }

    /// A resting order leaves.
    pub fn new_reject_maker(
        size: Size,
        price: Price,
        bidder_hold_price: Price,
        matched_order_id: OrderId,
        matched_order_uid: UserId,
    ) -> (r: MatcherTradeEvent)
        ensures
            r == reject_maker_event(
                size as int,
                price,
                bidder_hold_price,
                matched_order_id,
                matched_order_uid,
            ),
    {
        MatcherTradeEvent {
            event_type: MatcherEventType::RejectMaker,
            size,
            price,
            matched_order_id,
            matched_order_uid,
            bidder_hold_price,
        }
    }
}

/// Depth of a book: price, volume and number of orders of each level, best level
/// first.
#[derive(Debug, Clone)]
pub struct L2MarketData {
    pub ask_prices: Vec<Price>,
    pub ask_volumes: Vec<Size>,
    pub ask_order_counts: Vec<usize>,
    pub bid_prices: Vec<Price>,
    pub bid_volumes: Vec<Size>,
    pub bid_order_counts: Vec<usize>,
}

impl L2MarketData {
    /// No levels. There is room for as many as the depth says.
    pub fn new(depth: usize) -> (r: L2MarketData)
        ensures
            r.ask_prices@.len() == 0,
            r.ask_volumes@.len() == 0,
            r.ask_order_counts@.len() == 0,
            r.bid_prices@.len() == 0,
            r.bid_volumes@.len() == 0,
            r.bid_order_counts@.len() == 0,
    {
        L2MarketData {
            ask_prices: Vec::with_capacity(depth),
            ask_volumes: Vec::with_capacity(depth),
            ask_order_counts: Vec::with_capacity(depth),
            bid_prices: Vec::with_capacity(depth),
            bid_volumes: Vec::with_capacity(depth),
            bid_order_counts: Vec::with_capacity(depth),
        }
    }
}

#[derive(Debug, Clone, Copy, PartialEq, Eq, Structural)]
pub enum OrderCommandType {
    PlaceOrder,
    CancelOrder,
    MoveOrder,
    ReduceOrder,
    AddUser,
    BalanceAdjustment,
    PersistStateMatching,
    PersistStateRisk,
    ShutdownSignal,
    Nop,
}

/// A command on its way through the exchange, and what has come of it so far. A
/// balance adjustment has its currency in `symbol`, its amount in `price` and its
/// transaction id in `order_id`.
#[derive(Debug, Clone)]
pub struct OrderCommand {
    pub command: OrderCommandType,
    pub uid: UserId,
    pub order_id: OrderId,
    pub symbol: SymbolId,
    pub price: Price,
    pub size: Size,
    pub action: OrderAction,
    pub order_type: OrderType,
    pub reserve_price: Price,
    pub timestamp: i64,
    pub stop_price: Option<Price>,
    pub visible_size: Option<Size>,
    pub expire_time: Option<i64>,
    pub seq: u64,
    pub result_code: CommandResultCode,
    pub matcher_events: Vec<MatcherTradeEvent>,
}

/// Whether two states of a command ask for the same.
pub open spec fn same_request(a: OrderCommand, b: OrderCommand) -> bool {
    &&& a.command == b.command
    &&& a.uid == b.uid
    &&& a.order_id == b.order_id
    &&& a.symbol == b.symbol
    &&& a.price == b.price
    &&& a.size == b.size
    &&& a.order_type == b.order_type
    &&& a.timestamp == b.timestamp
    &&& a.stop_price == b.stop_price
    &&& a.visible_size == b.visible_size
    &&& a.expire_time == b.expire_time
    &&& a.seq == b.seq
}

/// Whether nothing but the kind, the number and the answer of a command is filled in.
pub open spec fn is_blank(c: OrderCommand) -> bool {
    &&& c.uid == 0
    &&& c.order_id == 0
    &&& c.symbol == 0
    &&& c.price == 0
    &&& c.size == 0
    &&& c.action == OrderAction::Ask
    &&& c.order_type == OrderType::Gtc
    &&& c.reserve_price == 0
    &&& c.timestamp == 0
    &&& c.stop_price.is_none()
    &&& c.visible_size.is_none()
    &&& c.expire_time.is_none()
    &&& c.matcher_events@.len() == 0
}

impl Default for OrderCommand {
    fn default() -> (r: OrderCommand)
        ensures
            is_blank(r),
            r.command == OrderCommandType::Nop,
            r.seq == 0,
            r.result_code == CommandResultCode::New,
    {
        OrderCommand {
            command: OrderCommandType::Nop,
            uid: 0,
            order_id: 0,
            symbol: 0,
            price: 0,
            size: 0,
            action: OrderAction::Ask,
            order_type: OrderType::Gtc,
            reserve_price: 0,
            timestamp: 0,
            stop_price: None,
            visible_size: None,
            expire_time: None,
            seq: 0,
            result_code: CommandResultCode::New,
            matcher_events: Vec::new(),
        }
    }
}

} // verus!
