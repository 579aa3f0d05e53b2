//! What requests may look like: words in any case, settings with white space around them, and
//! lists of symbols.
use vstd::prelude::*;

use crate::exchange::api::{
    CoreSymbolSpecification, OrderAction, OrderType, SelfTradePrevention, SymbolType,
};
use crate::exchange::journal::SyncPolicy;
use crate::exchange::request;
use crate::exchange::request::RequestError;
use crate::text;

verus! {

/// Whether a text has the letters of a word, small or large.
pub open spec fn spells(s: Seq<char>, word: Seq<char>) -> bool {
    s.len() == word.len() && forall|i: int|
        0 <= i < s.len() ==> (#[trigger] s[i]) == word[i] || ('a' <= word[i] <= 'z' && s[i] as int
            + 32 == word[i] as int)
}

proof fn lemma_spells(s: Seq<char>, word: Seq<char>)
    requires
        forall|i: int| 0 <= i < word.len() ==> !('A' <= (#[trigger] word[i]) <= 'Z'),
    ensures
        request::reads(s, word) == spells(s, word),
{
    if request::reads(s, word) {
        assert forall|i: int| 0 <= i < s.len() implies (#[trigger] s[i]) == word[i] || ('a'
            <= word[i] <= 'z' && s[i] as int + 32 == word[i] as int) by {
            assert(request::folded(s[i]) == word[i] as int);
        }
    }
    if spells(s, word) {
        assert forall|i: int| 0 <= i < s.len() implies request::folded(#[trigger] s[i])
            == word[i] as int by {
            assert(!('A' <= word[i] <= 'Z'));
        }
    }
}

/// A side is named by `buy` or `bid`, or by `sell` or `ask`, in any case, and by nothing else.
pub proof fn law_sides_are_named(s: Seq<char>)
    ensures
        request::side_named(s) == Some(OrderAction::Bid) <==> spells(s, "buy"@) || spells(
            s,
            "bid"@,
        ),
        request::side_named(s) == Some(OrderAction::Ask) <==> spells(s, "sell"@) || spells(
            s,
            "ask"@,
        ),
{
    reveal_strlit("buy");
    reveal_strlit("bid");
    reveal_strlit("sell");
    reveal_strlit("ask");
    lemma_spells(s, "buy"@);
    lemma_spells(s, "bid"@);
    lemma_spells(s, "sell"@);
    lemma_spells(s, "ask"@);
    if s.len() == 3 && spells(s, "ask"@) {
        assert(s[0] == 'a' || s[0] as int + 32 == 'a' as int);
    }
    if s.len() == 3 && (spells(s, "buy"@) || spells(s, "bid"@)) {
        assert(s[0] == 'b' || s[0] as int + 32 == 'b' as int);
    }
}

/// An order type is named by `gtc`, `ioc` or `fok_budget`, in any case, and by nothing else.
pub proof fn law_order_types_are_named(s: Seq<char>)
    ensures
        request::type_named(s) == Some(OrderType::Gtc) <==> spells(s, "gtc"@),
        request::type_named(s) == Some(OrderType::Ioc) <==> spells(s, "ioc"@),
        request::type_named(s) == Some(OrderType::FokBudget) <==> spells(s, "fok_budget"@),
        request::type_named(s) != Some(OrderType::IocBudget),
{
    reveal_strlit("gtc");
    reveal_strlit("ioc");
    reveal_strlit("fok_budget");
    lemma_spells(s, "gtc"@);
    lemma_spells(s, "ioc"@);
    lemma_spells(s, "fok_budget"@);
    if s.len() == 3 && spells(s, "gtc"@) {
        assert(s[0] == 'g' || s[0] as int + 32 == 'g' as int);
    }
    if s.len() == 3 && spells(s, "ioc"@) {
        assert(s[0] == 'i' || s[0] as int + 32 == 'i' as int);
    }
}

/// Whether a text is white space only.
pub open spec fn blank(s: Seq<char>) -> bool {
    forall|i: int| 0 <= i < s.len() ==> request::is_space(#[trigger] s[i])
}

/// White space is what ends a line, what stands between words, and nothing that a word or a
/// number is made of.
pub proof fn law_words_hold_no_space(c: char)
    ensures
        c == ' ' || c == '\t' || c == '\n' || c == '\r' ==> request::is_space(c),
        '!' <= c <= '~' ==> !request::is_space(c),
{
}

/// Trimming takes the white space from both ends, and nothing else.
pub proof fn law_trimming_takes_space_only(s: Seq<char>) -> (r: (Seq<char>, Seq<char>))
    ensures
        s == r.0 + request::trimmed(s) + r.1,
        blank(r.0),
        blank(r.1),
        request::trimmed(s).len() > 0 ==> !request::is_space(request::trimmed(s).first())
            && !request::is_space(request::trimmed(s).last()),
{
    let t = request::left_trimmed(s);
    let a = lemma_left(s);
    let b = lemma_right(t);
    let u = request::trimmed(s);
    assert(s =~= a + u + b);
    if u.len() > 0 {
        assert(u.first() == t.first());
    }
    (a, b)
}

proof fn lemma_left(s: Seq<char>) -> (r: Seq<char>)
    ensures
        s == r + request::left_trimmed(s),
        blank(r),
        request::left_trimmed(s).len() > 0 ==> !request::is_space(
            request::left_trimmed(s).first(),
        ),
    decreases s.len(),
{
    if s.len() > 0 && request::is_space(s.first()) {
        let r = lemma_left(s.drop_first());
        let all = seq![s.first()] + r;
        let t = s.drop_first();
        let left = request::left_trimmed(t);
        assert(request::left_trimmed(s) == left);
        assert(s =~= seq![s.first()] + t);
        assert(all + left =~= seq![s.first()] + (r + left));
        assert forall|i: int| 0 <= i < all.len() implies request::is_space(#[trigger] all[i]) by {
            if i > 0 {
                assert(all[i] == r[i - 1]);
            }
        }
        all
    } else {
        assert(s =~= Seq::<char>::empty() + s);
        Seq::empty()
    }
}

proof fn lemma_right(s: Seq<char>) -> (r: Seq<char>)
    ensures
        s == request::right_trimmed(s) + r,
        blank(r),
        request::right_trimmed(s).len() > 0 ==> !request::is_space(
            request::right_trimmed(s).last(),
        ),
    decreases s.len(),
{
    if s.len() > 0 && request::is_space(s.last()) {
        let r = lemma_right(s.drop_last());
        let all = r.push(s.last());
        let t = s.drop_last();
        let left = request::right_trimmed(t);
        assert(request::right_trimmed(s) == left);
        assert(s =~= t.push(s.last()));
        assert(left + all =~= (left + r).push(s.last()));
        all
    } else {
        assert(s =~= s + Seq::<char>::empty());
        Seq::empty()
    }
}

/// Some texts with a character between each two of them.
pub open spec fn joined(v: Seq<Seq<char>>, c: char) -> Seq<char>
    decreases v.len(),
{
    if v.len() == 0 {
        Seq::empty()
    } else if v.len() == 1 {
        v[0]
    } else {
        v[0] + seq![c] + joined(v.drop_first(), c)
    }
}

/// Splitting a text that was joined from texts without the character gives these texts back.
pub proof fn law_splitting_undoes_joining(v: Seq<Seq<char>>, c: char)
    requires
        v.len() > 0,
        forall|i: int| 0 <= i < v.len() ==> !(#[trigger] v[i]).contains(c),
    ensures
        request::parts(joined(v, c), c) == v,
    decreases v.len(),
{
    let s = joined(v, c);
    if v.len() == 1 {
        lemma_none(v[0], c);
        assert(v =~= seq![v[0]]);
    } else {
        let rest = v.drop_first();
        assert forall|i: int| 0 <= i < rest.len() implies !(#[trigger] rest[i]).contains(c) by {
            assert(rest[i] == v[i + 1]);
        }
        law_splitting_undoes_joining(rest, c);
        lemma_first(v[0], c, joined(rest, c));
        let k = v[0].len() as int;
        assert(s.take(k) =~= v[0]);
        assert(s.skip(k + 1) =~= joined(rest, c));
        assert(v =~= seq![v[0]] + rest);
    }
}

proof fn lemma_none(s: Seq<char>, c: char)
    requires
        !s.contains(c),
    ensures
        request::up_to(s, c) == s.len(),
    decreases s.len(),
{
    if s.len() > 0 {
        assert(s[0] != c) by {
            if s[0] == c {
                assert(s.contains(c));
            }
        }
        let rest = s.drop_first();
        assert(!rest.contains(c)) by {
            if rest.contains(c) {
                let i = choose|i: int| 0 <= i < rest.len() && rest[i] == c;
                assert(s[i + 1] == c);
            }
        }
        lemma_none(rest, c);
    }
}

proof fn lemma_first(a: Seq<char>, c: char, b: Seq<char>)
    requires
        !a.contains(c),
    ensures
        request::up_to(a + seq![c] + b, c) == a.len(),
    decreases a.len(),
{
    let s = a + seq![c] + b;
    if a.len() > 0 {
        assert(a[0] != c) by {
            if a[0] == c {
                assert(a.contains(c));
            }
        }
        let rest = a.drop_first();
        assert(!rest.contains(c)) by {
            if rest.contains(c) {
                let i = choose|i: int| 0 <= i < rest.len() && rest[i] == c;
                assert(a[i + 1] == c);
            }
        }
        assert(s.drop_first() =~= rest + seq![c] + b);
        lemma_first(rest, c, b);
    } else {
        assert(s.first() == c);
    }
}

/// A whole number is read back from the way that it is written.
pub proof fn law_whole_numbers_read_back(n: i32)
    ensures
        request::whole_number(text::signed_decimal(n as int)) == Some(n),
{
    reveal_strlit("-");
    if n < 0 {
        let t = text::decimal(-(n as int));
        let s = "-"@ + t;
        assert(s.drop_first() =~= t);
        text::lemma_decimal(-(n as int));
    } else {
        let t = text::decimal(n as int);
        text::lemma_decimal(n as int);
        assert(text::is_digit(t[0]));
    }
}

proof fn lemma_no_colon(n: int)
    ensures
        !text::signed_decimal(n).contains(':'),
{
    reveal_strlit("-");
    let m = if n < 0 {
        -n
    } else {
        n
    };
    let s = text::signed_decimal(n);
    text::lemma_decimal(m);
    if s.contains(':') {
        let i = choose|i: int| 0 <= i < s.len() && s[i] == ':';
        let t = text::decimal(m);
        if n < 0 {
            if i > 0 {
                assert(s[i] == t[i - 1]);
                assert(text::is_digit(t[i - 1]));
            }
        } else {
            assert(text::is_digit(t[i]));
        }
    }
}

/// An entry of three numbers names a currency pair: its number and its two currencies, in that
/// order. It costs no fees, counts in single units and strikes both orders of a self-trade.
pub proof fn law_entries_name_symbols(id: i32, base: i32, quote: i32)
    ensures
        ({
            let entry = joined(
                seq![
                    text::signed_decimal(id as int),
                    text::signed_decimal(base as int),
                    text::signed_decimal(quote as int),
                ],
                ':',
            );
            request::symbol_of(entry) matches Ok(s) && {
                &&& s.symbol_id == id
                &&& s.base_currency == base
                &&& s.quote_currency == quote
                &&& s.symbol_type == SymbolType::CurrencyExchangePair
                &&& s.base_scale_k == 1 && s.quote_scale_k == 1
                &&& s.taker_fee == 0 && s.maker_fee == 0
                &&& s.margin_buy == 0 && s.margin_sell == 0
                &&& s.stp == SelfTradePrevention::CancelBoth
            }
        }),
{
    let v = seq![
        text::signed_decimal(id as int),
        text::signed_decimal(base as int),
        text::signed_decimal(quote as int),
    ];
    lemma_no_colon(id as int);
    lemma_no_colon(base as int);
    lemma_no_colon(quote as int);
    law_splitting_undoes_joining(v, ':');
    law_whole_numbers_read_back(id);
    law_whole_numbers_read_back(base);
    law_whole_numbers_read_back(quote);
}

/// The symbols of a list.
pub type Listed = Seq<CoreSymbolSpecification>;

/// A list of entries gives one symbol for each entry that is not blank, in their order. Where an
/// entry is at fault, the list is.
pub proof fn law_lists_name_their_symbols(items: Seq<Seq<char>>, item: Seq<char>)
    ensures
        request::symbols_of(Seq::empty()) matches Ok(v) && v.len() == 0,
        blank(item) ==> request::symbols_of(items.push(item)) == request::symbols_of(items),
        !blank(item) ==> match (
            request::symbols_of(items),
            request::symbol_of(request::trimmed(item)),
        ) {
            (Err(e), _) => request::symbols_of(items.push(item)) == Err::<Listed, RequestError>(e),
            (Ok(_), Err(e)) => request::symbols_of(items.push(item)) == Err::<Listed, RequestError>(
                e,
            ),
            (Ok(v), Ok(s)) => request::symbols_of(items.push(item)) matches Ok(w) && w == v.push(
                s,
            ),
        },
{
    let (a, b) = law_trimming_takes_space_only(item);
    let t = request::trimmed(item);
    assert(items.push(item).drop_last() =~= items);
    if blank(item) && t.len() > 0 {
        assert(item[a.len() as int] == t[0]);
    }
    if t.len() == 0 {
        assert forall|i: int| 0 <= i < item.len() implies request::is_space(
            #[trigger] item[i],
        ) by {
            if i < a.len() {
                assert(item[i] == a[i]);
            } else {
                assert(item[i] == b[i - a.len()]);
            }
        }
    }
}

/// A number as a policy is how many commands are written between two syncs, and the words
/// `always` and `never`, in any case, say what they say.
pub proof fn law_policies_are_named(s: Seq<char>, n: usize)
    ensures
        spells(s, "always"@) ==> request::policy_named(s) == Some(SyncPolicy::EveryCommand),
        spells(s, "never"@) ==> request::policy_named(s) == Some(SyncPolicy::Never),
        request::policy_named(s) == Some(SyncPolicy::EveryCommand) ==> spells(s, "always"@),
        request::policy_named(s) == Some(SyncPolicy::Never) ==> spells(s, "never"@),
        request::policy_named(text::decimal(n as int)) == Some(SyncPolicy::EveryN(n)),
{
    reveal_strlit("always");
    reveal_strlit("never");
    lemma_spells(s, "always"@);
    lemma_spells(s, "never"@);
    let t = text::decimal(n as int);
    lemma_spells(t, "always"@);
    lemma_spells(t, "never"@);
    text::lemma_decimal(n as int);
    text::law_decimal_reads_back(n as int, usize::MAX as int);
    assert(text::is_digit(t[0]));
}

} // verus!
