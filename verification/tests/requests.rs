//! The words of requests and settings.
use matching_engine::exchange::api::{OrderAction, OrderType, SelfTradePrevention};
use matching_engine::exchange::journal::SyncPolicy;
use matching_engine::exchange::request::{
    depth_limit, parse_order_type, parse_side, parse_symbols, parse_sync_policy, RequestError,
};

#[test]
fn sides_have_two_names_in_any_case() {
    for word in ["buy", "bid", "BUY", "Bid"] {
        assert_eq!(parse_side(word), Ok(OrderAction::Bid));
    }
    for word in ["sell", "ask", "SELL", "aSk"] {
        assert_eq!(parse_side(word), Ok(OrderAction::Ask));
    }
    for word in ["", "b", "buyer", " buy"] {
        assert_eq!(parse_side(word), Err(RequestError::Side));
    }
}

#[test]
fn order_types_default_to_gtc() {
    assert_eq!(parse_order_type(None), Ok(OrderType::Gtc));
    assert_eq!(parse_order_type(Some("GTC")), Ok(OrderType::Gtc));
    assert_eq!(parse_order_type(Some("ioc")), Ok(OrderType::Ioc));
    assert_eq!(parse_order_type(Some("fok_budget")), Ok(OrderType::FokBudget));
    assert_eq!(parse_order_type(Some("fok")), Err(RequestError::OrderType));
}

#[test]
fn symbols_are_listed_with_their_currencies() {
    let specs = parse_symbols("1:0:1, 2:-3:4 ,").unwrap();
    assert_eq!(specs.len(), 2);
    assert_eq!((specs[0].symbol_id, specs[0].base_currency, specs[0].quote_currency), (1, 0, 1));
    assert_eq!((specs[1].symbol_id, specs[1].base_currency, specs[1].quote_currency), (2, -3, 4));
    assert_eq!(specs[0].stp, SelfTradePrevention::CancelBoth);
}

#[test]
fn symbols_that_are_none_are_turned_down() {
    assert_eq!(parse_symbols("").unwrap_err(), RequestError::NoSymbols);
    assert_eq!(parse_symbols(" , ").unwrap_err(), RequestError::NoSymbols);
    assert_eq!(parse_symbols("1:0").unwrap_err(), RequestError::SymbolForm);
    assert_eq!(parse_symbols("1:0:1:2").unwrap_err(), RequestError::SymbolForm);
    assert_eq!(parse_symbols("1:x:1").unwrap_err(), RequestError::Number);
    assert_eq!(parse_symbols("2147483648:0:1").unwrap_err(), RequestError::Number);
    assert_eq!(parse_symbols("-2147483648:0:1").unwrap()[0].symbol_id, i32::MIN);
}

#[test]
fn sync_policies_are_words_or_numbers() {
    assert_eq!(parse_sync_policy(" Always "), Ok(SyncPolicy::EveryCommand));
    assert_eq!(parse_sync_policy("never"), Ok(SyncPolicy::Never));
    assert_eq!(parse_sync_policy("64"), Ok(SyncPolicy::EveryN(64)));
    assert_eq!(parse_sync_policy("often"), Err(RequestError::SyncPolicy));
    assert_eq!(parse_sync_policy("-1"), Err(RequestError::SyncPolicy));
}

#[test]
fn depth_is_bounded() {
    assert_eq!(depth_limit(10), 10);
    assert_eq!(depth_limit(1000), 1000);
    assert_eq!(depth_limit(5000), 1000);
}
