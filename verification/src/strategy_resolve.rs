//! Which strategy a name stands for, and which symbols it may trade.
use vstd::prelude::*;
use crate::event::{EventEnvelope, SymbolId, Venue};
use crate::number::Real;
use crate::text::{push_text, same};

verus! {

/// The venues and symbols that a strategy may trade.
#[derive(Debug)]
pub struct Universe {
    pub venues: Vec<Venue>,
    pub symbols: Vec<SymbolId>,
}

/// The venues of the events, each once, as they first occur.
pub open spec fn venues_of(events: Seq<EventEnvelope>) -> Seq<Venue>
    decreases events.len(),
{
    if events.len() == 0 {
        Seq::empty()
    } else {
        let before = venues_of(events.drop_last());
        if before.contains(events.last().venue) {
            before
        } else {
            before.push(events.last().venue)
        }
    }
}

/// The symbols of the events, each once, as they first occur.
pub open spec fn symbols_of(events: Seq<EventEnvelope>) -> Seq<SymbolId>
    decreases events.len(),
{
    if events.len() == 0 {
        Seq::empty()
    } else {
        let before = symbols_of(events.drop_last());
        if before.contains(events.last().symbol) {
            before
        } else {
            before.push(events.last().symbol)
        }
    }
}

/// Whether the events show enough venues and symbols to stop looking.
pub open spec fn enough(events: Seq<EventEnvelope>) -> bool {
    venues_of(events).len() > 3 && symbols_of(events).len() > 5
}

fn has_venue(v: &Vec<Venue>, x: Venue) -> (r: bool)
    ensures
        r == v@.contains(x),
{
    let mut i: usize = 0;
    while i < v.len()
        invariant
            i <= v@.len(),
            forall|k: int| 0 <= k < i ==> v@[k] != x,
        decreases v@.len() - i,
    {
        if v[i] == x {
            return true;
        }
        i = i + 1;
    }
    false
}

fn has_symbol(v: &Vec<SymbolId>, x: SymbolId) -> (r: bool)
    ensures
        r == v@.contains(x),
{
    let mut i: usize = 0;
    while i < v.len()
        invariant
            i <= v@.len(),
            forall|k: int| 0 <= k < i ==> v@[k] != x,
        decreases v@.len() - i,
    {
        if v[i] == x {
            return true;
        }
        i = i + 1;
    }
    false
}

/// The venues and symbols that occur in the events, up to the first place
/// where there are enough of both.
pub fn universe_from_events(events: &[EventEnvelope]) -> (u: Universe)
    ensures
        exists|n: int| #![trigger events@.take(n)]
            0 <= n <= events@.len() && u.venues@ == venues_of(events@.take(n)) && u.symbols@
                == symbols_of(events@.take(n)) && (n == events@.len() || enough(events@.take(n)))
                && forall|k: int| 0 <= k < n ==> !enough(#[trigger] events@.take(k)),
{
    let mut venues: Vec<Venue> = Vec::new();
    let mut symbols: Vec<SymbolId> = Vec::new();
    let mut i: usize = 0;
    assert(venues@ =~= venues_of(events@.take(0)));
    assert(symbols@ =~= symbols_of(events@.take(0)));
    while i < events.len()
        invariant
            i <= events@.len(),
            venues@ == venues_of(events@.take(i as int)),
            symbols@ == symbols_of(events@.take(i as int)),
            !enough(events@.take(i as int)),
            forall|k: int| 0 <= k < i ==> !enough(#[trigger] events@.take(k)),
        decreases events@.len() - i,
    {
        let e = &events[i];
        assert(events@.take(i + 1).drop_last() =~= events@.take(i as int));
        assert(events@.take(i + 1).last() == *e);
        if !has_venue(&venues, e.venue) {
            venues.push(e.venue);
        }
        if !has_symbol(&symbols, e.symbol) {
            symbols.push(e.symbol);
        }
        i = i + 1;
        if venues.len() > 3 && symbols.len() > 5 {
            assert(enough(events@.take(i as int)));
            return Universe { venues, symbols };
        }
    }
    Universe { venues, symbols }
}

/// How the exit threshold of a strategy is set.
#[derive(Clone, Copy, Debug, PartialEq, Eq, Structural)]
pub enum ExitThreshold {
    /// As the strategy has it.
    Own,
    /// As it was given.
    Given(Real),
    /// A fifth of the entry threshold that was given.
    FifthOf(Real),
}

/// What a name stands for.
#[derive(Clone, Copy, Debug, PartialEq, Eq, Structural)]
pub enum StrategyChoice {
    CoinFlip,
    /// Runs, and asks for nothing.
    Idle,
    Carry { entry: Option<Real>, exit: ExitThreshold },
    Orderflow { entry: Option<Real>, exit: ExitThreshold },
    LiqFade { entry: Option<Real>, exit: ExitThreshold },
}

/// The exit threshold of a strategy that keeps its own unless one is given.
pub open spec fn exit_of(exit: Option<Real>) -> ExitThreshold {
    match exit {
        Some(x) => ExitThreshold::Given(x),
        None => ExitThreshold::Own,
    }
}

/// The exit threshold of the carry strategy: it follows an entry threshold
/// that was given alone.
pub open spec fn carry_exit_of(entry: Option<Real>, exit: Option<Real>) -> ExitThreshold {
    match (exit, entry) {
        (Some(x), _) => ExitThreshold::Given(x),
        (None, Some(e)) => ExitThreshold::FifthOf(e),
        (None, None) => ExitThreshold::Own,
    }
}

/// What a name stands for, if anything.
pub open spec fn choice_of(name: Seq<char>, entry: Option<Real>, exit: Option<Real>) -> Option<
    StrategyChoice,
> {
    if name == "coinflip"@ {
        Some(StrategyChoice::CoinFlip)
    } else if name == "null"@ {
        Some(StrategyChoice::Idle)
    } else if name == "carry-v1"@ {
        Some(StrategyChoice::Carry { entry, exit: carry_exit_of(entry, exit) })
    } else if name == "orderflow-v1"@ {
        Some(StrategyChoice::Orderflow { entry, exit: exit_of(exit) })
    } else if name == "liq-fade-v1"@ {
        Some(StrategyChoice::LiqFade { entry, exit: exit_of(exit) })
    } else {
        None
    }
}

/// What a name stands for; an unknown name is refused.
pub fn strategy_named(name: &str, entry: Option<Real>, exit: Option<Real>) -> (r: Result<
    StrategyChoice,
    String,
>)
    ensures
        match r {
            Ok(c) => choice_of(name@, entry, exit) == Some(c),
            Err(e) => choice_of(name@, entry, exit) is None && e@ == "unknown strategy: "@ + name@
                + " (coinflip|null|carry-v1|orderflow-v1|liq-fade-v1)"@,
        },
{
    let own = match exit {
        Some(x) => ExitThreshold::Given(x),
        None => ExitThreshold::Own,
    };
    if same(name, "coinflip") {
        Ok(StrategyChoice::CoinFlip)
    } else if same(name, "null") {
        Ok(StrategyChoice::Idle)
    } else if same(name, "carry-v1") {
        let carry = match (exit, entry) {
            (Some(x), _) => ExitThreshold::Given(x),
            (None, Some(e)) => ExitThreshold::FifthOf(e),
            (None, None) => ExitThreshold::Own,
        };
        Ok(StrategyChoice::Carry { entry, exit: carry })
    } else if same(name, "orderflow-v1") {
        Ok(StrategyChoice::Orderflow { entry, exit: own })
    } else if same(name, "liq-fade-v1") {
        Ok(StrategyChoice::LiqFade { entry, exit: own })
    } else {
        let mut e = "unknown strategy: ".to_owned();
        push_text(&mut e, name);
        push_text(&mut e, " (coinflip|null|carry-v1|orderflow-v1|liq-fade-v1)");
        Err(e)
    }
}

/// A universe names nothing twice, and every event up to where the search
/// stopped is in it.
pub proof fn law_universe_covers(events: Seq<EventEnvelope>, i: int)
    requires
        0 <= i < events.len(),
    ensures
        venues_of(events).no_duplicates(),
        symbols_of(events).no_duplicates(),
        venues_of(events).contains(events[i].venue),
        symbols_of(events).contains(events[i].symbol),
    decreases events.len(),
{
    let e0 = events.drop_last();
    let v0 = venues_of(e0);
    let s0 = symbols_of(e0);
    if e0.len() > 0 {
        law_universe_covers(e0, if i < e0.len() { i } else { 0 });
    }
    let v = venues_of(events);
    let s = symbols_of(events);
    if i < e0.len() {
        assert(e0[i] == events[i]);
        let a = v0.index_of(events[i].venue);
        let b = s0.index_of(events[i].symbol);
        assert(v[a] == v0[a]);
        assert(s[b] == s0[b]);
    } else {
        if !v0.contains(events.last().venue) {
            assert(v[v0.len() as int] == events.last().venue);
        }
        if !s0.contains(events.last().symbol) {
            assert(s[s0.len() as int] == events.last().symbol);
        }
    }
}

/// A universe names no venue and no symbol that no event has.
pub proof fn law_universe_invents_nothing(events: Seq<EventEnvelope>)
    ensures
        forall|v: Venue| #[trigger]
            venues_of(events).contains(v) ==> exists|i: int|
                0 <= i < events.len() && (#[trigger] events[i]).venue == v,
        forall|s: SymbolId| #[trigger]
            symbols_of(events).contains(s) ==> exists|i: int|
                0 <= i < events.len() && (#[trigger] events[i]).symbol == s,
    decreases events.len(),
{
    if events.len() > 0 {
        let t = events.drop_last();
        let n = events.len() - 1;
        law_universe_invents_nothing(t);
        assert(events[n] == events.last());
        assert forall|v: Venue| #[trigger] venues_of(events).contains(v) implies exists|i: int|
            0 <= i < events.len() && (#[trigger] events[i]).venue == v by {
            if v != events[n].venue {
                let x = venues_of(events).index_of(v);
                assert(venues_of(t)[x] == v);
                assert(venues_of(t).contains(v));
                let i = choose|i: int| 0 <= i < t.len() && (#[trigger] t[i]).venue == v;
                assert(events[i].venue == v);
            }
        }
        assert forall|s: SymbolId| #[trigger] symbols_of(events).contains(s) implies exists|i: int|
            0 <= i < events.len() && (#[trigger] events[i]).symbol == s by {
            if s != events[n].symbol {
                let x = symbols_of(events).index_of(s);
                assert(symbols_of(t)[x] == s);
                assert(symbols_of(t).contains(s));
                let i = choose|i: int| 0 <= i < t.len() && (#[trigger] t[i]).symbol == s;
                assert(events[i].symbol == s);
            }
        }
    }
}

/// Later events add to a universe at its end: what was first stays first.
pub proof fn law_universe_grows(events: Seq<EventEnvelope>, e: EventEnvelope)
    ensures
        venues_of(events).contains(e.venue) ==> venues_of(events.push(e)) == venues_of(events),
        !venues_of(events).contains(e.venue) ==> venues_of(events.push(e)) == venues_of(
            events,
        ).push(e.venue),
        symbols_of(events).contains(e.symbol) ==> symbols_of(events.push(e)) == symbols_of(events),
        !symbols_of(events).contains(e.symbol) ==> symbols_of(events.push(e)) == symbols_of(
            events,
        ).push(e.symbol),
{
    assert(events.push(e).drop_last() =~= events);
}

/// A given exit threshold is used as it is. Without one, carry leaves at a
/// fifth of a given entry, and every other strategy as it has it.
pub proof fn law_exit_thresholds(entry: Option<Real>, exit: Option<Real>)
    ensures
        choice_of("carry-v1"@, entry, exit) matches Some(StrategyChoice::Carry { entry: e, exit: x })
            && e == entry && (exit is Some ==> x == ExitThreshold::Given(exit->0)) && (exit is None
            && entry is Some ==> x == ExitThreshold::FifthOf(entry->0)) && (exit is None
            && entry is None ==> x is Own),
        choice_of("orderflow-v1"@, entry, exit) matches Some(
            StrategyChoice::Orderflow { entry: e, exit: x },
        ) && e == entry && (exit is Some ==> x == ExitThreshold::Given(exit->0)) && (exit is None
            ==> x is Own),
        choice_of("liq-fade-v1"@, entry, exit) matches Some(
            StrategyChoice::LiqFade { entry: e, exit: x },
        ) && e == entry && (exit is Some ==> x == ExitThreshold::Given(exit->0)) && (exit is None
            ==> x is Own),
        choice_of("coinflip"@, entry, exit) matches Some(c) && c is CoinFlip,
        choice_of("null"@, entry, exit) matches Some(c) && c is Idle,
{
    reveal_strlit("coinflip");
    reveal_strlit("null");
    reveal_strlit("carry-v1");
    reveal_strlit("orderflow-v1");
    reveal_strlit("liq-fade-v1");
    assert("carry-v1"@[0] != "coinflip"@[0] || "carry-v1"@[1] != "coinflip"@[1]);
    assert("orderflow-v1"@.len() == 12);
    assert("liq-fade-v1"@.len() == 11);
}

/// A name that is none of the five strategies gives none.
pub proof fn law_unknown_strategy(name: Seq<char>, entry: Option<Real>, exit: Option<Real>)
    ensures
        choice_of(name, entry, exit) is None <==> name != "coinflip"@ && name != "null"@ && name
            != "carry-v1"@ && name != "orderflow-v1"@ && name != "liq-fade-v1"@,
{
}

/// Four venues and six symbols are enough, and fewer of either are not.
pub proof fn law_enough(events: Seq<EventEnvelope>)
    ensures
        venues_of(events).len() >= 4 && symbols_of(events).len() >= 6 ==> enough(events),
        venues_of(events).len() < 4 || symbols_of(events).len() < 6 ==> !enough(events),
{
}

} // verus!
