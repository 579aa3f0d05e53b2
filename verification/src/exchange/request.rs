//! The words of requests and settings.
use vstd::prelude::*;
use vstd::string::StrSliceExecFns;

use crate::exchange::api::{
    CoreSymbolSpecification, OrderAction, OrderType, SelfTradePrevention, SymbolType,
};
use crate::exchange::journal::SyncPolicy;
use crate::text;

verus! {

/// Why a word is not understood.
#[derive(Debug, Clone, Copy, PartialEq, Eq, Structural)]
pub enum RequestError {
    /// A side is `buy`, `bid`, `sell` or `ask`.
    Side,
    /// An order type is `gtc`, `ioc` or `fok_budget`.
    OrderType,
    /// A symbol is written as its id, its base and its quote currency, with colons in
    /// between.
    SymbolForm,
    /// A number is not one, or does not fit.
    Number,
    /// No symbol is named.
    NoSymbols,
    /// The journal is synced `always`, `never`, or every so many commands.
    SyncPolicy,
}

/// The code of a character, an upper-case letter counting as the lower-case one.
pub open spec fn folded(c: char) -> int {
    if 'A' <= c <= 'Z' {
        c as int + 32
    } else {
        c as int
    }
}

/// Whether a text is a word, whatever the case of its letters.
pub open spec fn reads(s: Seq<char>, word: Seq<char>) -> bool {
    &&& s.len() == word.len()
    &&& forall|i: int| 0 <= i < s.len() ==> folded(#[trigger] s[i]) == word[i] as int
}

fn reads_as(s: &str, word: &str) -> (r: bool)
    ensures
        r == reads(s@, word@),
{
    let n: usize = s.unicode_len();
    if n != word.unicode_len() {
        return false;
    }
    let mut i: usize = 0;
    while i < n
        invariant
            n == s@.len(),
            n == word@.len(),
            i <= n,
            forall|j: int| 0 <= j < i ==> folded(#[trigger] s@[j]) == word@[j] as int,
        decreases n - i,
    {
        let c: char = s.get_char(i);
        let code: u32 = if 'A' <= c && c <= 'Z' {
            c as u32 + 32
        } else {
            c as u32
        };
        if code != word.get_char(i) as u32 {
            assert(folded(s@[i as int]) != word@[i as int] as int);
            return false;
        }
        i = i + 1;
    }
    true
}

/// The side that a word names.
pub open spec fn side_named(s: Seq<char>) -> Option<OrderAction> {
    if reads(s, "buy"@) || reads(s, "bid"@) {
        Some(OrderAction::Bid)
    } else if reads(s, "sell"@) || reads(s, "ask"@) {
        Some(OrderAction::Ask)
    } else {
        None
    }
}

pub fn parse_side(s: &str) -> (r: Result<OrderAction, RequestError>)
    ensures
        r == (match side_named(s@) {
            Some(a) => Ok::<OrderAction, RequestError>(a),
            None => Err(RequestError::Side),
        }),
{
    if reads_as(s, "buy") || reads_as(s, "bid") {
        Ok(OrderAction::Bid)
    } else if reads_as(s, "sell") || reads_as(s, "ask") {
        Ok(OrderAction::Ask)
    } else {
        Err(RequestError::Side)
    }
}

/// The order type that a word names.
pub open spec fn type_named(s: Seq<char>) -> Option<OrderType> {
    if reads(s, "gtc"@) {
        Some(OrderType::Gtc)
    } else if reads(s, "ioc"@) {
        Some(OrderType::Ioc)
    } else if reads(s, "fok_budget"@) {
        Some(OrderType::FokBudget)
    } else {
        None
    }
}

/// The order type of a request, which may leave it open.
pub fn parse_order_type(s: Option<&str>) -> (r: Result<OrderType, RequestError>)
    ensures
        r == (match s {
            None => Ok::<OrderType, RequestError>(OrderType::Gtc),
            Some(w) => match type_named(w@) {
                Some(t) => Ok(t),
                None => Err(RequestError::OrderType),
            },
        }),
{
    match s {
        None => Ok(OrderType::Gtc),
        Some(w) => {
            if reads_as(w, "gtc") {
                Ok(OrderType::Gtc)
            } else if reads_as(w, "ioc") {
                Ok(OrderType::Ioc)
            } else if reads_as(w, "fok_budget") {
                Ok(OrderType::FokBudget)
            } else {
                Err(RequestError::OrderType)
            }
        },
    }
}

/// White space, as Unicode has it.
pub open spec fn is_space(c: char) -> bool {
    let n = c as int;
    ||| 0x9 <= n <= 0xd
    ||| n == 0x20
    ||| n == 0x85
    ||| n == 0xa0
    ||| n == 0x1680
    ||| 0x2000 <= n <= 0x200a
    ||| n == 0x2028
    ||| n == 0x2029
    ||| n == 0x202f
    ||| n == 0x205f
    ||| n == 0x3000
}

fn space(c: char) -> (r: bool)
    ensures
        r == is_space(c),
{
    let n: u32 = c as u32;
    (0x9 <= n && n <= 0xd) || n == 0x20 || n == 0x85 || n == 0xa0 || n == 0x1680 || (0x2000 <= n
        && n <= 0x200a) || n == 0x2028 || n == 0x2029 || n == 0x202f || n == 0x205f || n == 0x3000
}

/// A text without the white space that it begins with.
pub open spec fn left_trimmed(s: Seq<char>) -> Seq<char>
    decreases s.len(),
{
    if s.len() > 0 && is_space(s.first()) {
        left_trimmed(s.drop_first())
    } else {
        s
    }
}

/// A text without the white space that it ends with.
pub open spec fn right_trimmed(s: Seq<char>) -> Seq<char>
    decreases s.len(),
{
    if s.len() > 0 && is_space(s.last()) {
        right_trimmed(s.drop_last())
    } else {
        s
    }
}

/// A text without white space around it.
pub open spec fn trimmed(s: Seq<char>) -> Seq<char> {
    right_trimmed(left_trimmed(s))
}

fn trim<'a>(s: &'a str) -> (r: &'a str)
    ensures
        r@ == trimmed(s@),
{
    let n: usize = s.unicode_len();
    let mut i: usize = 0;
    proof {
        assert(s@.skip(0) =~= s@);
    }
    while i < n && space(s.get_char(i))
        invariant
            n == s@.len(),
            i <= n,
            left_trimmed(s@) == left_trimmed(s@.skip(i as int)),
        decreases n - i,
    {
        proof {
            assert(s@.skip(i as int).drop_first() =~= s@.skip(i + 1));
        }
        i = i + 1;
    }
    let mut j: usize = n;
    proof {
        assert(left_trimmed(s@) == s@.skip(i as int));
        assert(s@.skip(i as int) =~= s@.subrange(i as int, n as int));
    }
    while j > i && space(s.get_char(j - 1))
        invariant
            n == s@.len(),
            i <= j <= n,
            trimmed(s@) == right_trimmed(s@.subrange(i as int, j as int)),
        decreases j,
    {
        proof {
            assert(s@.subrange(i as int, j as int).drop_last() =~= s@.subrange(i as int, j - 1));
        }
        j = j - 1;
    }
    s.substring_char(i, j)
}

/// How far it is to a character, or to the end.
pub open spec fn up_to(s: Seq<char>, c: char) -> int
    decreases s.len(),
{
    if s.len() == 0 || s.first() == c {
        0
    } else {
        1 + up_to(s.drop_first(), c)
    }
}

pub proof fn lemma_up_to(s: Seq<char>, c: char)
    ensures
        0 <= up_to(s, c) <= s.len(),
    decreases s.len(),
{
    if s.len() > 0 && s.first() != c {
        lemma_up_to(s.drop_first(), c);
    }
}

/// The parts of a text between the places of a character.
pub open spec fn parts(s: Seq<char>, c: char) -> Seq<Seq<char>>
    decreases s.len(),
{
    proof {
        lemma_up_to(s, c);
    }
    let k = up_to(s, c);
    if k >= s.len() {
        seq![s]
    } else {
        seq![s.take(k)] + parts(s.skip(k + 1), c)
    }
}

/// The texts of a list.
pub open spec fn texts(v: Seq<&str>) -> Seq<Seq<char>> {
    v.map_values(|s: &str| s@)
}

fn split<'a>(s: &'a str, c: char) -> (r: Vec<&'a str>)
    ensures
        texts(r@) == parts(s@, c),
{
    let n: usize = s.unicode_len();
    let mut out: Vec<&'a str> = Vec::new();
    let mut start: usize = 0;
    let ghost all = parts(s@, c);
    proof {
        assert(s@.skip(0) =~= s@);
        assert(texts(out@) + all =~= all);
    }
    loop
        invariant
            n == s@.len(),
            start <= n,
            all == parts(s@, c),
            all == texts(out@) + parts(s@.skip(start as int), c),
        decreases n - start,
    {
        let ghost rest = s@.skip(start as int);
        let ghost before = texts(out@);
        let mut k: usize = start;
        proof {
            assert(rest.skip(0) =~= rest);
        }
        while k < n && s.get_char(k) != c
            invariant
                n == s@.len(),
                start <= k <= n,
                rest == s@.skip(start as int),
                up_to(rest, c) == (k - start) + up_to(rest.skip(k - start), c),
            decreases n - k,
        {
            proof {
                let r = rest.skip(k - start);
                assert(r.first() == s@[k as int]);
                assert(r.drop_first() =~= rest.skip(k - start + 1));
            }
            k = k + 1;
        }
        proof {
            if k < n {
                assert(rest.skip(k - start).first() == s@[k as int]);
            }
            assert(up_to(rest, c) == k - start);
            assert(s@.subrange(start as int, k as int) =~= rest.take(k - start));
        }
        out.push(s.substring_char(start, k));
        proof {
            assert(texts(out@) =~= before.push(rest.take(k - start)));
        }
        if k == n {
            proof {
                assert(rest.take(k - start) =~= rest);
                assert(before + seq![rest] =~= before.push(rest));
            }
            return out;
        }
        proof {
            let more = parts(s@.skip(k + 1), c);
            assert(rest.skip(k - start + 1) =~= s@.skip(k + 1));
            assert(before + (seq![rest.take(k - start)] + more) =~= before.push(
                rest.take(k - start),
            ) + more);
        }
        start = k + 1;
    }
}

/// The whole number that a text stands for: an optional sign and decimal digits.
pub open spec fn whole_number(s: Seq<char>) -> Option<i32> {
    if s.len() > 0 && s[0] == '-' {
        let t = s.drop_first();
        if text::all_digits(t) && text::number_of(t) <= 0x8000_0000 {
            Some((-text::number_of(t)) as i32)
        } else {
            None
        }
    } else {
        match text::parsed(s, 0x7fff_ffff) {
            Some(n) => Some(n as i32),
            None => None,
        }
    }
}

fn parse_whole(s: &str) -> (r: Option<i32>)
    ensures
        r == whole_number(s@),
{
    let n: usize = s.unicode_len();
    if n > 0 && s.get_char(0) == '-' {
        if n > 1 && s.get_char(1) == '+' {
            assert(!text::is_digit(s@.drop_first()[0]));
            return None;
        }
        let t: &str = s.substring_char(1, n);
        assert(t@ =~= s@.drop_first());
        match text::parse_number(t, 0x8000_0000) {
            Some(k) => Some((-(k as i64)) as i32),
            None => None,
        }
    } else {
        match text::parse_number(s, 0x7fff_ffff) {
            Some(k) => Some(k as i32),
            None => None,
        }
    }
}

/// The symbol of an entry of the list.
pub open spec fn symbol_of(item: Seq<char>) -> Result<CoreSymbolSpecification, RequestError> {
    let p = parts(item, ':');
    if p.len() != 3 {
        Err(RequestError::SymbolForm)
    } else {
        match (whole_number(p[0]), whole_number(p[1]), whole_number(p[2])) {
            (Some(id), Some(base), Some(quote)) => Ok(
                CoreSymbolSpecification {
                    symbol_id: id,
                    symbol_type: SymbolType::CurrencyExchangePair,
                    base_currency: base,
                    quote_currency: quote,
                    base_scale_k: 1,
                    quote_scale_k: 1,
                    taker_fee: 0,
                    maker_fee: 0,
                    margin_buy: 0,
                    margin_sell: 0,
                    stp: SelfTradePrevention::CancelBoth,
                },
            ),
            _ => Err(RequestError::Number),
        }
    }
}

fn parse_symbol(item: &str) -> (r: Result<CoreSymbolSpecification, RequestError>)
    ensures
        r == symbol_of(item@),
{
    let p = split(item, ':');
    let ghost t = texts(p@);
    if p.len() != 3 {
        return Err(RequestError::SymbolForm);
    }
    assert(t[0] == p@[0]@ && t[1] == p@[1]@ && t[2] == p@[2]@);
    match (parse_whole(p[0]), parse_whole(p[1]), parse_whole(p[2])) {
        (Some(id), Some(base), Some(quote)) => Ok(
            CoreSymbolSpecification {
                symbol_id: id,
                symbol_type: SymbolType::CurrencyExchangePair,
                base_currency: base,
                quote_currency: quote,
                base_scale_k: 1,
                quote_scale_k: 1,
                taker_fee: 0,
                maker_fee: 0,
                margin_buy: 0,
                margin_sell: 0,
                stp: SelfTradePrevention::CancelBoth,
            },
        ),
        _ => Err(RequestError::Number),
    }
}

/// The symbols of a list of entries, or the first fault. Empty entries are passed over.
pub open spec fn symbols_of(items: Seq<Seq<char>>) -> Result<
    Seq<CoreSymbolSpecification>,
    RequestError,
>
    decreases items.len(),
{
    if items.len() == 0 {
        Ok(Seq::empty())
    } else {
        match symbols_of(items.drop_last()) {
            Err(e) => Err(e),
            Ok(v) => if trimmed(items.last()).len() == 0 {
                Ok(v)
            } else {
                match symbol_of(trimmed(items.last())) {
                    Err(e) => Err(e),
                    Ok(s) => Ok(v.push(s)),
                }
            },
        }
    }
}

/// A fault among the first entries is the fault of all.
proof fn lemma_fault_stays(items: Seq<Seq<char>>, i: int)
    requires
        0 <= i <= items.len(),
        symbols_of(items.take(i)) is Err,
    ensures
        symbols_of(items) == symbols_of(items.take(i)),
    decreases items.len() - i,
{
    if i < items.len() {
        assert(items.take(i + 1).drop_last() =~= items.take(i));
        lemma_fault_stays(items, i + 1);
    } else {
        assert(items.take(i) =~= items);
    }
}

/// Reads the symbols of a setting such as `1:0:1,2:0:2`.
pub fn parse_symbols(raw: &str) -> (r: Result<Vec<CoreSymbolSpecification>, RequestError>)
    ensures
        match symbols_of(parts(raw@, ',')) {
            Err(e) => r == Err::<Vec<CoreSymbolSpecification>, RequestError>(e),
            Ok(v) => if v.len() == 0 {
                r == Err::<Vec<CoreSymbolSpecification>, RequestError>(RequestError::NoSymbols)
            } else {
                r matches Ok(list) && list@ == v
            },
        },
{
    let items = split(raw, ',');
    let ghost t = texts(items@);
    let mut out: Vec<CoreSymbolSpecification> = Vec::new();
    let mut i: usize = 0;
    proof {
        assert(t.take(0) =~= Seq::<Seq<char>>::empty());
        assert(t.take(t.len() as int) =~= t);
    }
    while i < items.len()
        invariant
            t == texts(items@),
            t == parts(raw@, ','),
            i <= items@.len(),
            symbols_of(t.take(i as int)) == Ok::<Seq<CoreSymbolSpecification>, RequestError>(out@),
        decreases items@.len() - i,
    {
        proof {
            assert(t.take(i + 1).drop_last() =~= t.take(i as int));
            assert(t.take(i + 1).last() == items@[i as int]@);
        }
        let item: &str = trim(items[i]);
        if item.unicode_len() > 0 {
            match parse_symbol(item) {
                Ok(s) => {
                    out.push(s);
                },
                Err(e) => {
                    proof {
                        lemma_fault_stays(t, i + 1);
                    }
                    return Err(e);
                },
            }
        }
        i = i + 1;
    }
    if out.len() == 0 {
        return Err(RequestError::NoSymbols);
    }
    Ok(out)
}

/// The policy that a setting names.
pub open spec fn policy_named(s: Seq<char>) -> Option<SyncPolicy> {
    if reads(s, "always"@) {
        Some(SyncPolicy::EveryCommand)
    } else if reads(s, "never"@) {
        Some(SyncPolicy::Never)
    } else {
        match text::parsed(s, usize::MAX as int) {
            Some(n) => Some(SyncPolicy::EveryN(n as usize)),
            None => None,
        }
    }
}

pub fn parse_sync_policy(raw: &str) -> (r: Result<SyncPolicy, RequestError>)
    ensures
        r == (match policy_named(trimmed(raw@)) {
            Some(p) => Ok::<SyncPolicy, RequestError>(p),
            None => Err(RequestError::SyncPolicy),
        }),
{
    let word: &str = trim(raw);
    if reads_as(word, "always") {
        Ok(SyncPolicy::EveryCommand)
    } else if reads_as(word, "never") {
        Ok(SyncPolicy::Never)
    } else {
        match text::parse_number(word, usize::MAX as u64) {
            Some(n) => Ok(SyncPolicy::EveryN(n as usize)),
            None => Err(RequestError::SyncPolicy),
        }
    }
}

/// The depth that a request is answered with.
pub fn depth_limit(limit: usize) -> (r: usize)
    ensures
        r == (if limit < 1000 {
            limit as int
        } else {
            1000
        }),
{
    if limit < 1000 {
        limit
    } else {
        1000
    }
}

} // verus!
