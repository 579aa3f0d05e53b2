//! One shard of the ledger: it freezes what an order may cost before matching, and
//! settles what came of it afterwards.
use vstd::prelude::*;

use crate::exchange::api::{
    CommandResultCode, CoreSymbolSpecification, Currency, MatcherEventType, MatcherTradeEvent,
    OrderAction, OrderCommand, OrderCommandType, OrderType, SymbolId, UserId,
};
use crate::exchange::ledger;
use crate::exchange::ledger::RiskModel;
use crate::exchange::state;
use crate::exchange::state::RiskEngineState;
use crate::exchange::users::{Amounts, UserProfileService};
use crate::math;
use crate::store::coded::CodeMap;
use crate::store::listing;

verus! {

pub struct RiskEngine {
    shard_id: u64,
    shard_mask: u64,
    user_service: UserProfileService,
    symbols: CodeMap<CoreSymbolSpecification>,
    fees_collected: Amounts,
}

impl View for RiskEngine {
    type V = RiskModel;

    closed spec fn view(&self) -> RiskModel {
        RiskModel {
            shard: self.shard_id,
            mask: self.shard_mask,
            users: self.user_service@,
            symbols: self.symbols@,
            fees: self.fees_collected@,
            exact: true,
        }
    }
}

/// The symbols of a map as a list.
fn listed_symbols(symbols: &CodeMap<CoreSymbolSpecification>) -> (r: Vec<
    (SymbolId, CoreSymbolSpecification),
>)
    requires
        symbols.wf(),
    ensures
        listing::map_of(r@) == symbols@,
{
    let mut out: Vec<(SymbolId, CoreSymbolSpecification)> = Vec::new();
    let n: usize = symbols.len();
    let ghost codes = symbols.code_order();
    let mut i: usize = 0;
    while i < n
        invariant
            symbols.wf(),
            codes == symbols.code_order(),
            n == codes.len(),
            i <= n,
            out@.len() == i,
            forall|j: int|
                0 <= j < i ==> (#[trigger] out@[j]).0 == codes[j] && out@[j].1 == symbols@[codes[j]],
        decreases n - i,
    {
        out.push((symbols.code_at(i), *symbols.value_at(i)));
        i = i + 1;
    }
    proof {
        symbols.lemma_code_order();
        assert forall|c: SymbolId| #[trigger] symbols@.contains_key(c) implies exists|j: int|
            0 <= j < out@.len() && (#[trigger] out@[j]).0 == c by {
            let j = choose|j: int| 0 <= j < codes.len() && #[trigger] codes[j] == c;
            assert(out@[j].0 == c);
        }
        assert forall|j: int| 0 <= j < out@.len() implies symbols@.contains_key(
            (#[trigger] out@[j]).0,
        ) && symbols@[out@[j].0] == out@[j].1 by {
            assert(symbols@.contains_key(codes[j]));
        }
        listing::lemma_lists(out@, symbols@);
    }
    out
}

/// Product of three numbers.
fn mul3(a: i64, b: i64, c: i64) -> (r: i64)
    requires
        ledger::mul3_fits(a as int, b as int, c as int),
    ensures
        r == ledger::mul3(a as int, b as int, c as int),
{
    let ab: i64 = a * b;
    ab * c
}

/// The price at which an order is frozen, so that freezing and giving back go by the
/// same price.
fn normalize_reserve_price(cmd: &mut OrderCommand)
    ensures
        *final(cmd) == (OrderCommand {
            reserve_price: ledger::hold_price(*old(cmd)),
            ..*old(cmd)
        }),
{
    let budget: bool = match cmd.order_type {
        OrderType::FokBudget => true,
        OrderType::IocBudget => true,
        _ => false,
    };
    match cmd.action {
        OrderAction::Bid => {
            if budget {
                cmd.reserve_price = cmd.price;
            }
        },
        OrderAction::Ask => {
            cmd.reserve_price = cmd.price;
        },
    }
}

/// What an order freezes, or `None` where that does not fit.
fn hold_amount(cmd: &OrderCommand, spec: &CoreSymbolSpecification) -> (r: Option<i64>)
    ensures
        r.is_some() == ledger::hold(
            cmd.action,
            cmd.size as int,
            cmd.reserve_price,
            *spec,
        ).is_some(),
        r matches Some(n) ==> n == ledger::hold(
            cmd.action,
            cmd.size as int,
            cmd.reserve_price,
            *spec,
        ).unwrap(),
{
    match cmd.action {
        OrderAction::Bid => {
            let a: i64 = match cmd.size.checked_mul(cmd.reserve_price) {
                Some(a) => a,
                None => {
                    return None;
                },
            };
            let notional: i64 = match a.checked_mul(spec.quote_scale_k) {
                Some(n) => n,
                None => {
                    return None;
                },
            };
            let fee: i64 = match cmd.size.checked_mul(spec.taker_fee) {
                Some(f) => f,
                None => {
                    return None;
                },
            };
            notional.checked_add(fee)
        },
        OrderAction::Ask => cmd.size.checked_mul(spec.base_scale_k),
    }
}

impl RiskEngine {
    pub closed spec fn wf(&self) -> bool {
        &&& self.user_service.wf()
        &&& self.symbols.wf()
        &&& self.fees_collected.wf()
    }

    /// The shard as lists.
    pub fn serialize_state(&self) -> (r: RiskEngineState)
        requires
            self.wf(),
        ensures
            state::risk_of(r) == self@,
    {
        RiskEngineState {
            shard_id: self.shard_id,
            shard_mask: self.shard_mask,
            users: self.user_service.serialize_state(),
            symbols: listed_symbols(&self.symbols),
            fees_collected: self.fees_collected.serialize_state(),
        }
    }

    /// The shard that was saved.
    pub fn from_state(s: &RiskEngineState) -> (r: RiskEngine)
        ensures
            r.wf(),
            r@ == state::risk_of(*s),
    {
        let mut symbols: CodeMap<CoreSymbolSpecification> = CodeMap::new();
        let ghost e = s.symbols@;
        let mut i: usize = 0;
        proof {
            assert(e.take(e.len() as int) =~= e);
        }
        while i < s.symbols.len()
            invariant
                symbols.wf(),
                e == s.symbols@,
                i <= e.len(),
                symbols@ == listing::map_of(e.take(i as int)),
            decreases e.len() - i,
        {
            proof {
                assert(e.take(i + 1).drop_last() =~= e.take(i as int));
            }
            symbols.insert(s.symbols[i].0, s.symbols[i].1);
            i = i + 1;
        }
        proof {
            assert(e.take(i as int) =~= e);
        }
        RiskEngine {
            shard_id: s.shard_id,
            shard_mask: s.shard_mask,
            user_service: UserProfileService::from_state(&s.users),
            symbols,
            fees_collected: Amounts::from_state(&s.fees_collected),
        }
    }

    /// A shard has finitely many users.
    pub proof fn lemma_finite(&self)
        requires
            self.wf(),
        ensures
            self@.users.dom().finite(),
    {
        self.user_service.lemma_finite();
    }

    /// One of a number of shards that is a power of two.
    pub fn new(shard_id: usize, num_shards: usize) -> (r: RiskEngine)
        requires
            math::power_of_two(num_shards as int),
        ensures
            r.wf(),
            r@ == (RiskModel {
                shard: shard_id as u64,
                mask: (num_shards - 1) as u64,
                users: Map::empty(),
                symbols: Map::empty(),
                fees: Map::empty(),
                exact: true,
            }),
    {
        RiskEngine {
            shard_id: shard_id as u64,
            shard_mask: (num_shards - 1) as u64,
            user_service: UserProfileService::new(),
            symbols: CodeMap::new(),
            fees_collected: Amounts::new(),
        }
    }

    /// Fees taken so far.
    pub fn fees_collected(&self, currency: Currency) -> (r: i64)
        requires
            self.wf(),
        ensures
            r == ledger::amount(self@.fees, currency),
    {
        self.fees_collected.get(currency)
    }

    /// Free money of a user.
    pub fn balance_of(&self, uid: UserId, currency: Currency) -> (r: i64)
        requires
            self.wf(),
        ensures
            r == self@.balance(uid, currency),
    {
        match self.user_service.balance(uid, currency) {
            Some(n) => n,
            None => 0,
        }
    }

    fn uid_for_this_shard(&self, uid: UserId) -> (r: bool)
        ensures
            r == self@.owns(uid),
    {
        self.shard_mask == 0 || (uid & self.shard_mask) == self.shard_id
    }

    /// Registers a symbol, in place of what was known of it.
    pub fn add_symbol(&mut self, spec: CoreSymbolSpecification)
        requires
            old(self).wf(),
        ensures
            final(self).wf(),
            final(self)@ == (RiskModel {
                symbols: old(self)@.symbols.insert(spec.symbol_id, spec),
                ..old(self)@
            }),
    {
        self.symbols.insert(spec.symbol_id, spec);
    }

    /// Before matching: an order is checked and frozen, users and money come in.
    pub fn pre_process(&mut self, cmd: &mut OrderCommand)
        requires
            old(self).wf(),
            ledger::pre_processed(old(self)@, *old(cmd)).risk.exact,
        ensures
            final(self).wf(),
            final(self)@ == ledger::pre_processed(old(self)@, *old(cmd)).risk,
            *final(cmd) == ledger::answered(
                *old(cmd),
                ledger::pre_processed(old(self)@, *old(cmd)),
            ),
    {
        if !self.uid_for_this_shard(cmd.uid) {
            return;
        }
        match cmd.command {
            OrderCommandType::PlaceOrder => {
                normalize_reserve_price(cmd);
                cmd.result_code = self.place_order_risk_check(cmd);
            },
            OrderCommandType::AddUser => {
                cmd.result_code = if self.user_service.add_user(cmd.uid) {
                    CommandResultCode::Success
                } else {
                    CommandResultCode::UserMgmtUserAlreadyExists
                };
            },
            OrderCommandType::BalanceAdjustment => {
                cmd.result_code = self.user_service.balance_adjustment(
                    cmd.uid,
                    cmd.symbol,
                    cmd.price,
                    #[verifier::truncate]
                    (cmd.order_id as i64),
                );
            },
            _ => {},
        }
    }

    /// Checks an order whose hold price is settled, and freezes what it may cost.
    fn place_order_risk_check(&mut self, cmd: &OrderCommand) -> (r: CommandResultCode)
        requires
            old(self).wf(),
            ledger::order_checked(old(self)@, *cmd, cmd.reserve_price).exact,
        ensures
            final(self).wf(),
            final(self)@ == ledger::order_checked(old(self)@, *cmd, cmd.reserve_price),
            r == ledger::order_code(old(self)@, *cmd, cmd.reserve_price),
    {
        if cmd.size <= 0 || cmd.price <= 0 || cmd.reserve_price <= 0 {
            return CommandResultCode::RiskInvalidOrderParams;
        }
        if cmd.action == OrderAction::Bid && cmd.reserve_price < cmd.price {
            return CommandResultCode::RiskInvalidReserveBidPrice;
        }
        let spec: CoreSymbolSpecification = match self.symbols.get(cmd.symbol) {
            Some(s) => *s,
            None => {
                return CommandResultCode::InvalidSymbol;
            },
        };
        let currency: Currency = match cmd.action {
            OrderAction::Bid => spec.quote_currency,
            OrderAction::Ask => spec.base_currency,
        };
        let hold: i64 = match hold_amount(cmd, &spec) {
            Some(h) => h,
            None => {
                return CommandResultCode::RiskArithmeticOverflow;
            },
        };
        let balance: i64 = match self.user_service.balance(cmd.uid, currency) {
            Some(b) => b,
            None => {
                return CommandResultCode::AuthInvalidUser;
            },
        };
        if balance >= hold {
            self.user_service.set_balance(cmd.uid, currency, balance - hold);
            CommandResultCode::ValidForMatchingEngine
        } else {
            CommandResultCode::RiskNsf
        }
    }

    /// Gives an amount to a user, or takes one that is negative. Nothing happens to
    /// users that are not known.
    fn credit(&mut self, uid: UserId, currency: Currency, n: i128)
        requires
            old(self).wf(),
            old(self)@.credited(uid, currency, n as int).exact,
            -0x4_0000_0000_0000_0000 <= n <= 0x4_0000_0000_0000_0000,
        ensures
            final(self).wf(),
            final(self)@ == old(self)@.credited(uid, currency, n as int),
    {
        match self.user_service.balance(uid, currency) {
            Some(b) => {
                self.user_service.set_balance(uid, currency, (b as i128 + n) as i64);
            },
            None => {},
        }
    }

    /// Takes fees.
    fn earn(&mut self, currency: Currency, n: i128)
        requires
            old(self).wf(),
            old(self)@.earned(currency, n as int).exact,
            -0x4_0000_0000_0000_0000 <= n <= 0x4_0000_0000_0000_0000,
        ensures
            final(self).wf(),
            final(self)@ == old(self)@.earned(currency, n as int),
    {
        let sum: i128 = self.fees_collected.get(currency) as i128 + n;
        self.fees_collected.set(currency, sum as i64);
    }

    /// Settles a trade, as far as its sides belong to the shard.
    fn handle_trade_event(
        &mut self,
        uid: UserId,
        event: &MatcherTradeEvent,
        spec: &CoreSymbolSpecification,
        taker_sell: bool,
    )
        requires
            old(self).wf(),
            ledger::trade_settled(old(self)@, uid, *event, *spec, taker_sell).exact,
        ensures
            final(self).wf(),
            final(self)@ == ledger::trade_settled(old(self)@, uid, *event, *spec, taker_sell),
    {
        let ghost r = self@;
        assert(ledger::trade_fits(*event, *spec));
        let notional: i64 = mul3(event.size, event.price, spec.quote_scale_k);
        let base_amount: i64 = event.size * spec.base_scale_k;
        let taker_fee: i64 = event.size * spec.taker_fee;
        let maker_fee: i64 = event.size * spec.maker_fee;
        let price_diff: i64 = event.bidder_hold_price - event.price;
        let bid_refund: i64 = mul3(event.size, price_diff, spec.quote_scale_k);
        let maker: UserId = event.matched_order_uid;
        assert(r.checked(ledger::trade_fits(*event, *spec)) == r);
        if self.uid_for_this_shard(uid) {
            self.earn(spec.quote_currency, taker_fee as i128 + maker_fee as i128);
            if taker_sell {
                self.credit(uid, spec.quote_currency, notional as i128 - taker_fee as i128);
            } else {
                self.credit(uid, spec.quote_currency, bid_refund as i128);
                self.credit(uid, spec.base_currency, base_amount as i128);
            }
        }
        if self.uid_for_this_shard(maker) {
            if taker_sell {
                self.credit(
                    maker,
                    spec.quote_currency,
                    bid_refund as i128 + (taker_fee as i128 - maker_fee as i128),
                );
                self.credit(maker, spec.base_currency, base_amount as i128);
            } else {
                self.credit(maker, spec.quote_currency, notional as i128 - maker_fee as i128);
            }
        }
    }

    /// Gives back what an order froze that left the book or never got there.
    fn handle_reject_event(
        &mut self,
        uid: UserId,
        event: &MatcherTradeEvent,
        spec: &CoreSymbolSpecification,
        taker_sell: bool,
    )
        requires
            old(self).wf(),
            ledger::reject_settled(old(self)@, uid, *event, *spec, taker_sell).exact,
        ensures
            final(self).wf(),
            final(self)@ == ledger::reject_settled(old(self)@, uid, *event, *spec, taker_sell),
    {
        if !self.uid_for_this_shard(uid) {
            return;
        }
        assert(ledger::reject_fits(*event, *spec));
        let refund_base: i64 = event.size * spec.base_scale_k;
        let refund_quote: i64 = mul3(event.size, event.bidder_hold_price, spec.quote_scale_k)
            + event.size * spec.taker_fee;
        if taker_sell {
            self.credit(uid, spec.base_currency, refund_base as i128);
        } else {
            self.credit(uid, spec.quote_currency, refund_quote as i128);
        }
    }

    /// After matching: settles what the events report.
    pub fn post_process(&mut self, cmd: &OrderCommand)
        requires
            old(self).wf(),
            ledger::post_processed(
                old(self)@,
                cmd.uid,
                cmd.symbol,
                cmd.action,
                cmd.matcher_events@,
            ).exact,
        ensures
            final(self).wf(),
            final(self)@ == ledger::post_processed(
                old(self)@,
                cmd.uid,
                cmd.symbol,
                cmd.action,
                cmd.matcher_events@,
            ),
    {
        if cmd.matcher_events.len() == 0 {
            return;
        }
        let spec: CoreSymbolSpecification = match self.symbols.get(cmd.symbol) {
            Some(s) => *s,
            None => {
                return;
            },
        };
        let taker_sell: bool = cmd.action == OrderAction::Ask;
        let ghost r = self@;
        let ghost events = cmd.matcher_events@;
        let mut i: usize = 0;
        proof {
            assert(events.take(events.len() as int) =~= events);
        }
        while i < cmd.matcher_events.len()
            invariant
                self.wf(),
                events == cmd.matcher_events@,
                i <= events.len(),
                self@ == ledger::settled(r, cmd.uid, events.take(i as int), spec, taker_sell),
                ledger::settled(
                    r,
                    cmd.uid,
                    events.take(events.len() as int),
                    spec,
                    taker_sell,
                ).exact,
            decreases events.len() - i,
        {
            let event = cmd.matcher_events[i];
            proof {
                assert(events.take(i + 1).drop_last() =~= events.take(i as int));
                lemma_exact_before(r, cmd.uid, events, i + 1, spec, taker_sell);
            }
            match event.event_type {
                MatcherEventType::Trade => {
                    self.handle_trade_event(cmd.uid, &event, &spec, taker_sell);
                },
                MatcherEventType::Reject => {
                    self.handle_reject_event(cmd.uid, &event, &spec, taker_sell);
                },
                MatcherEventType::Reduce => {
                    self.handle_reject_event(cmd.uid, &event, &spec, taker_sell);
                },
                MatcherEventType::RejectMaker => {
                    self.handle_reject_event(cmd.uid, &event, &spec, !taker_sell);
                },
            }
            i = i + 1;
        }
    }
}

/// Numbers that fit at the end fitted on the way.
proof fn lemma_exact_before(
    r: RiskModel,
    uid: UserId,
    events: Seq<MatcherTradeEvent>,
    i: int,
    spec: CoreSymbolSpecification,
    sell: bool,
)
    requires
        0 <= i <= events.len(),
        ledger::settled(r, uid, events.take(events.len() as int), spec, sell).exact,
    ensures
        ledger::settled(r, uid, events.take(i), spec, sell).exact,
    decreases events.len() - i,
{
    if i < events.len() {
        lemma_exact_before(r, uid, events, i + 1, spec, sell);
        assert(events.take(i + 1).drop_last() =~= events.take(i));
    }
}

} // verus!
