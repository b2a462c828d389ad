//! The recorder of observations in a run: it listens to intents, features and
//! marks, and never answers.
use vstd::prelude::*;
use crate::event::{Side, SymbolId};
use crate::number::Real;
use crate::observation_store::{Direction, ObservationOutcome, SignalObservation};
use crate::ordered::SortedMap;
use crate::text::same;

verus! {

/// The feature that tells the regime of a symbol.
pub const REGIME_FEATURE: &'static str = "regime.trend";

/// What an intent is recorded as.
#[derive(Debug)]
pub struct Fire {
    pub direction: Direction,
    pub snapshot: SortedMap<String, Real>,
}

/// The recorder.
#[derive(Debug)]
pub struct ObservationRecorder {
    /// The strategies that are recorded.
    pub strategies: SortedMap<String, ()>,
    /// What was recorded, in order.
    pub observations: Vec<SignalObservation>,
    /// Fires that the quality of the data did not allow.
    pub blocked: u64,
    /// The marks of each symbol, in order.
    pub mark_history: SortedMap<u32, Vec<(i64, Real)>>,
    /// The last regime of each symbol for which one was seen.
    pub regime_last: SortedMap<u32, Real>,
}

/// The direction of an order.
pub open spec fn direction_of(side: Side) -> Direction {
    match side {
        Side::Buy => Direction::Long,
        Side::Sell => Direction::Short,
    }
}

/// The marks of a symbol.
pub open spec fn marks_in(m: Map<u32, Vec<(i64, Real)>>, symbol: u32) -> Seq<(i64, Real)> {
    if m.dom().contains(symbol) {
        m[symbol]@
    } else {
        Seq::empty()
    }
}

/// A snapshot with the last regime of its symbol. A regime in the snapshot
/// stays, and a symbol without one gets none.
pub open spec fn enriched(
    snapshot: Map<Seq<char>, Real>,
    regimes: Map<u32, Real>,
    symbol: u32,
) -> Map<Seq<char>, Real> {
    if regimes.dom().contains(symbol) && !snapshot.dom().contains(REGIME_FEATURE@) {
        snapshot.insert(REGIME_FEATURE@, regimes[symbol])
    } else {
        snapshot
    }
}

/// The regimes behind a feature value: only a finite value of the regime
/// feature counts.
pub open spec fn regimes_after(
    regimes: Map<u32, Real>,
    name: Seq<char>,
    symbol: u32,
    value: Real,
) -> Map<u32, Real> {
    if name == REGIME_FEATURE@ && value.finite() {
        regimes.insert(symbol, value)
    } else {
        regimes
    }
}

/// The observations with the given outcomes.
pub open spec fn with_outcomes(
    observations: Seq<SignalObservation>,
    outcomes: Seq<Vec<ObservationOutcome>>,
) -> Seq<SignalObservation> {
    Seq::new(
        observations.len(),
        |i: int| SignalObservation { outcomes: outcomes[i], ..observations[i] },
    )
}

fn is_usable(price: Real) -> (r: bool)
    ensures
        r == (price.finite() && price.positive()),
{
    price.is_finite() && price.is_positive()
}

impl ObservationRecorder {
    pub open spec fn wf(&self) -> bool {
        self.strategies.wf() && self.mark_history.wf() && self.regime_last.wf()
    }

    /// A recorder of the given strategies, with nothing recorded.
    pub fn new(strategy_ids: &Vec<String>) -> (r: Self)
        ensures
            r.wf(),
            forall|s: Seq<char>| #[trigger]
                r.strategies.map().dom().contains(s) <==> names(strategy_ids@, s),
            r.observations@.len() == 0,
            r.blocked == 0,
            r.mark_history.map() == Map::<u32, Vec<(i64, Real)>>::empty(),
            r.regime_last.map() == Map::<u32, Real>::empty(),
    {
        let mut strategies: SortedMap<String, ()> = SortedMap::new();
        let mut i: usize = 0;
        while i < strategy_ids.len()
            invariant
                i <= strategy_ids@.len(),
                strategies.wf(),
                forall|s: Seq<char>| #[trigger]
                    strategies.map().dom().contains(s) <==> names(strategy_ids@.take(i as int), s),
            decreases strategy_ids@.len() - i,
        {
            let ghost m0 = strategies.map();
            let ghost prev = strategy_ids@.take(i as int);
            let ghost next = strategy_ids@.take(i + 1);
            strategies.set(strategy_ids[i].as_str().to_owned(), ());
            proof {
                assert(next[i as int] == strategy_ids@[i as int]);
                assert forall|s: Seq<char>| #[trigger]
                    strategies.map().dom().contains(s) <==> names(next, s) by {
                    if names(next, s) {
                        let k = choose|k: int| 0 <= k < next.len() && (#[trigger] next[k])@ == s;
                        if k < i {
                            assert(prev[k] == next[k]);
                            assert(m0.dom().contains(s));
                        }
                    }
                    if m0.dom().contains(s) {
                        let k = choose|k: int| 0 <= k < prev.len() && (#[trigger] prev[k])@ == s;
                        assert(next[k] == prev[k]);
                    }
                }
            }
            i = i + 1;
        }
        assert(strategy_ids@.take(i as int) =~= strategy_ids@);
        ObservationRecorder {
            strategies,
            observations: Vec::new(),
            blocked: 0,
            mark_history: SortedMap::new(),
            regime_last: SortedMap::new(),
        }
    }

    /// Takes a mark of a symbol, where it is usable.
    pub fn record_mark(&mut self, symbol: SymbolId, price: Real, ts_ns: i64)
        requires
            old(self).wf(),
        ensures
            final(self).wf(),
            final(self).strategies == old(self).strategies,
            final(self).observations == old(self).observations,
            final(self).blocked == old(self).blocked,
            final(self).regime_last == old(self).regime_last,
            forall|s: u32|
                #![trigger marks_in(final(self).mark_history.map(), s)]
                marks_in(final(self).mark_history.map(), s) == if s == symbol.0 && price.finite()
                    && price.positive() {
                    marks_in(old(self).mark_history.map(), s).push((ts_ns, price))
                } else {
                    marks_in(old(self).mark_history.map(), s)
                },
    {
        if is_usable(price) {
            let ghost m0 = self.mark_history.map();
            match self.mark_history.find(&symbol.0) {
                Ok(i) => {
                    let (k, mut marks) = self.mark_history.remove_at(i);
                    marks.push((ts_ns, price));
                    self.mark_history.set(k, marks);
                },
                Err(i) => {
                    let mut marks: Vec<(i64, Real)> = Vec::new();
                    marks.push((ts_ns, price));
                    assert(marks@ =~= marks_in(m0, symbol.0).push((ts_ns, price)));
                    self.mark_history.set(symbol.0, marks);
                },
            }
        }
    }

    /// Takes a feature value: the last finite regime of a symbol is kept.
    pub fn on_feature_update(&mut self, name: &str, symbol: SymbolId, value: Real)
        requires
            old(self).wf(),
        ensures
            final(self).wf(),
            final(self).strategies == old(self).strategies,
            final(self).observations == old(self).observations,
            final(self).blocked == old(self).blocked,
            final(self).mark_history == old(self).mark_history,
            final(self).regime_last.map() == regimes_after(
                old(self).regime_last.map(),
                name@,
                symbol.0,
                value,
            ),
    {
        if same(name, REGIME_FEATURE) && value.is_finite() {
            self.regime_last.set(symbol.0, value);
        }
    }

    /// What an intent is recorded as; nothing for a strategy that is not
    /// recorded.
    pub fn record_intent(
        &self,
        strategy: &str,
        side: Side,
        symbol: SymbolId,
        snapshot: SortedMap<String, Real>,
    ) -> (fire: Option<Fire>)
        requires
            self.wf(),
            snapshot.wf(),
        ensures
            fire is Some <==> self.strategies.map().dom().contains(strategy@),
            fire matches Some(f) ==> f.direction == direction_of(side) && f.snapshot.wf()
                && f.snapshot.map() == enriched(
                snapshot.map(),
                self.regime_last.map(),
                symbol.0,
            ),
    {
        if !self.strategies.contains(&strategy.to_owned()) {
            return None;
        }
        let direction = match side {
            Side::Buy => Direction::Long,
            Side::Sell => Direction::Short,
        };
        let mut snap = snapshot;
        if let Some(r) = self.regime_last.get(&symbol.0) {
            let name: String = REGIME_FEATURE.to_owned();
            if !snap.contains(&name) {
                snap.set(name, *r);
            }
        }
        Some(Fire { direction, snapshot: snap })
    }

    /// Keeps an observation, where the quality of the data allowed one; a fire
    /// that it did not allow is counted, never recorded.
    pub fn keep(&mut self, observation: Option<SignalObservation>)
        requires
            observation is None ==> old(self).blocked < u64::MAX,
        ensures
            final(self).strategies == old(self).strategies,
            final(self).mark_history == old(self).mark_history,
            final(self).regime_last == old(self).regime_last,
            final(self).observations@ == match observation {
                Some(o) => old(self).observations@.push(o),
                None => old(self).observations@,
            },
            final(self).blocked == match observation {
                Some(_) => old(self).blocked as int,
                None => old(self).blocked + 1,
            },
    {
        match observation {
            Some(o) => {
                self.observations.push(o);
            },
            None => {
                self.blocked = self.blocked + 1;
            },
        }
    }

    /// How many fires were not allowed.
    pub fn blocked_count(&self) -> (n: u64)
        ensures
            n == self.blocked,
    {
        self.blocked
    }

    /// What was recorded so far, in order.
    pub fn observations(&self) -> (v: &Vec<SignalObservation>)
        ensures
            *v == self.observations,
    {
        &self.observations
    }

    /// The marks from which the outcomes of an observation follow: those of
    /// its symbol, and no others.
    pub fn marks_of(&self, symbol: SymbolId) -> (v: Vec<(i64, Real)>)
        requires
            self.wf(),
        ensures
            v@ == marks_in(self.mark_history.map(), symbol.0),
    {
        match self.mark_history.get(&symbol.0) {
            Some(marks) => {
                let mut v: Vec<(i64, Real)> = Vec::new();
                let mut i: usize = 0;
                while i < marks.len()
                    invariant
                        i <= marks@.len(),
                        v@ == marks@.take(i as int),
                    decreases marks@.len() - i,
                {
                    v.push(marks[i]);
                    assert(v@ =~= marks@.take(i + 1));
                    i = i + 1;
                }
                assert(v@ =~= marks@);
                v
            },
            None => Vec::new(),
        }
    }

    /// Gives each observation its outcomes, and leaves it else as it was.
    pub fn attach_outcomes(&mut self, outcomes: Vec<Vec<ObservationOutcome>>)
        requires
            outcomes@.len() == old(self).observations@.len(),
        ensures
            final(self).strategies == old(self).strategies,
            final(self).mark_history == old(self).mark_history,
            final(self).regime_last == old(self).regime_last,
            final(self).blocked == old(self).blocked,
            final(self).observations@ == with_outcomes(old(self).observations@, outcomes@),
    {
        let ghost before = self.observations@;
        let mut outcomes = outcomes;
        let ghost given = outcomes@;
        let mut done: Vec<SignalObservation> = Vec::new();
        while outcomes.len() > 0
            invariant
                given.len() == before.len(),
                outcomes@.len() + done@.len() == given.len(),
                outcomes@ == given.take(outcomes@.len() as int),
                self.observations@ == before.take(outcomes@.len() as int),
                done@ == with_outcomes(before, given).skip(outcomes@.len() as int).reverse(),
                self.strategies == old(self).strategies,
                self.mark_history == old(self).mark_history,
                self.regime_last == old(self).regime_last,
                self.blocked == old(self).blocked,
            decreases outcomes@.len(),
        {
            let ghost n = outcomes@.len() - 1;
            let next = outcomes.pop();
            let last = self.observations.pop();
            if let (Some(o), Some(mut obs)) = (next, last) {
                obs.outcomes = o;
                done.push(obs);
            }
            assert(outcomes@ =~= given.take(n));
            assert(self.observations@ =~= before.take(n));
            assert(done@ =~= with_outcomes(before, given).skip(n).reverse());
        }
        while done.len() > 0
            invariant
                given.len() == before.len(),
                self.observations@.len() + done@.len() == given.len(),
                self.observations@ == with_outcomes(before, given).take(
                    self.observations@.len() as int,
                ),
                done@ == with_outcomes(before, given).skip(
                    self.observations@.len() as int,
                ).reverse(),
                self.strategies == old(self).strategies,
                self.mark_history == old(self).mark_history,
                self.regime_last == old(self).regime_last,
                self.blocked == old(self).blocked,
            decreases done@.len(),
        {
            let ghost n = self.observations@.len() as int;
            if let Some(obs) = done.pop() {
                self.observations.push(obs);
            }
            assert(self.observations@ =~= with_outcomes(before, given).take(n + 1));
            assert(done@ =~= with_outcomes(before, given).skip(n + 1).reverse());
        }
        assert(self.observations@ =~= with_outcomes(before, given));
    }

    /// What was recorded.
    pub fn into_observations(self) -> (v: Vec<SignalObservation>)
        ensures
            v == self.observations,
    {
        self.observations
    }
}

/// Whether the list names `s`.
pub open spec fn names(v: Seq<String>, s: Seq<char>) -> bool {
    exists|k: int| 0 <= k < v.len() && (#[trigger] v[k])@ == s
}

/// A regime is never made up: a snapshot has one only if it had one before, or
/// one was seen for its symbol.
pub proof fn law_regime_never_made_up(
    snapshot: Map<Seq<char>, Real>,
    regimes: Map<u32, Real>,
    symbol: u32,
)
    ensures
        !snapshot.dom().contains(REGIME_FEATURE@) && !regimes.dom().contains(symbol) ==> !enriched(
            snapshot,
            regimes,
            symbol,
        ).dom().contains(REGIME_FEATURE@),
        snapshot.dom().contains(REGIME_FEATURE@) ==> enriched(snapshot, regimes, symbol)
            == snapshot,
{
}

/// A value that is not finite never replaces a regime that was seen.
pub proof fn law_bad_regime_is_passed_over(
    regimes: Map<u32, Real>,
    name: Seq<char>,
    symbol: u32,
    value: Real,
)
    requires
        !value.finite(),
    ensures
        regimes_after(regimes, name, symbol, value) == regimes,
{
}

/// A purchase is an observation of a rise, a sale of a fall.
pub proof fn law_directions(side: Side)
    ensures
        side == Side::Buy ==> direction_of(side) == Direction::Long,
        side == Side::Sell ==> direction_of(side) == Direction::Short,
{
}

/// A snapshot without a regime gets the last one of its symbol, and keeps all
/// else.
pub proof fn law_regime_is_the_last(
    snapshot: Map<Seq<char>, Real>,
    regimes: Map<u32, Real>,
    symbol: u32,
    name: Seq<char>,
)
    ensures
        regimes.dom().contains(symbol) && !snapshot.dom().contains("regime.trend"@) ==> enriched(
            snapshot,
            regimes,
            symbol,
        ).dom().contains("regime.trend"@) && enriched(snapshot, regimes, symbol)["regime.trend"@]
            == regimes[symbol],
        !regimes.dom().contains(symbol) ==> enriched(snapshot, regimes, symbol) == snapshot,
        name != "regime.trend"@ ==> (enriched(snapshot, regimes, symbol).dom().contains(name)
            <==> snapshot.dom().contains(name)),
        snapshot.dom().contains(name) ==> enriched(snapshot, regimes, symbol).dom().contains(name)
            && enriched(snapshot, regimes, symbol)[name] == snapshot[name],
{
}

/// A finite regime becomes the last of its symbol; other features and other
/// symbols change nothing.
pub proof fn law_regime_is_noted(
    regimes: Map<u32, Real>,
    name: Seq<char>,
    symbol: u32,
    value: Real,
    other: u32,
)
    ensures
        name == "regime.trend"@ && value.finite() ==> regimes_after(
            regimes,
            name,
            symbol,
            value,
        ).dom().contains(symbol) && regimes_after(regimes, name, symbol, value)[symbol] == value,
        name != "regime.trend"@ ==> regimes_after(regimes, name, symbol, value) == regimes,
        other != symbol ==> (regimes_after(regimes, name, symbol, value).dom().contains(other)
            <==> regimes.dom().contains(other)) && regimes_after(
            regimes,
            name,
            symbol,
            value,
        )[other] == regimes[other],
{
}

/// Outcomes go to the observations in order, and change nothing else of them.
pub proof fn law_outcomes_go_to_their_observations(
    observations: Seq<SignalObservation>,
    outcomes: Seq<Vec<ObservationOutcome>>,
    i: int,
)
    requires
        0 <= i < observations.len(),
    ensures
        with_outcomes(observations, outcomes).len() == observations.len(),
        with_outcomes(observations, outcomes)[i].outcomes == outcomes[i],
        with_outcomes(observations, outcomes)[i].observation_id == observations[i].observation_id,
        with_outcomes(observations, outcomes)[i].direction == observations[i].direction,
        with_outcomes(observations, outcomes)[i].timestamp_ns == observations[i].timestamp_ns,
        with_outcomes(observations, outcomes)[i].symbol == observations[i].symbol,
{
}

} // verus!
