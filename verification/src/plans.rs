//! Plans: what is collected from each exchange.
use vstd::prelude::*;

use crate::config::request_views;
use crate::config::CollectorConfig;
use crate::config::ConfigError;
use crate::config::ConfigErrorView;
use crate::config::DataType;
use crate::config::Exchange;
use crate::config::SubscriptionRequest;
use crate::config::SubscriptionRequestView;
use crate::names::lemma_name_sets_are_finite;
use crate::names::texts;
use crate::names::NameSet;

verus! {

/// What is collected from an exchange: the data types apply to all of the
/// instruments.
#[derive(Debug)]
pub struct ExchangePlan {
    pub instruments: NameSet,
    pub subscribe_book_deltas: bool,
    pub subscribe_quotes: bool,
    pub subscribe_trades: bool,
}

#[verifier::ext_equal]
pub struct ExchangePlanView {
    pub instruments: Set<Seq<char>>,
    pub subscribe_book_deltas: bool,
    pub subscribe_quotes: bool,
    pub subscribe_trades: bool,
}

impl View for ExchangePlan {
    type V = ExchangePlanView;

    open spec fn view(&self) -> ExchangePlanView {
        ExchangePlanView {
            instruments: self.instruments@,
            subscribe_book_deltas: self.subscribe_book_deltas,
            subscribe_quotes: self.subscribe_quotes,
            subscribe_trades: self.subscribe_trades,
        }
    }
}

/// The plan that collects nothing.
pub open spec fn empty_plan() -> ExchangePlanView {
    ExchangePlanView {
        instruments: Set::empty(),
        subscribe_book_deltas: false,
        subscribe_quotes: false,
        subscribe_trades: false,
    }
}

/// A plan that also does what `request` asks for.
pub open spec fn with_request(
    plan: ExchangePlanView,
    request: SubscriptionRequestView,
) -> ExchangePlanView {
    ExchangePlanView {
        instruments: plan.instruments.union(request.instruments.to_set()),
        subscribe_book_deltas: plan.subscribe_book_deltas || request.data_type
            == DataType::BookDeltas,
        subscribe_quotes: plan.subscribe_quotes || request.data_type == DataType::Quotes,
        subscribe_trades: plan.subscribe_trades || request.data_type == DataType::Trades,
    }
}

impl Default for ExchangePlan {
    fn default() -> (plan: Self)
        ensures
            plan@ == empty_plan(),
    {
        ExchangePlan {
            instruments: NameSet::new(),
            subscribe_book_deltas: false,
            subscribe_quotes: false,
            subscribe_trades: false,
        }
    }
}

impl ExchangePlan {
    /// Adds what `request` asks for.
    pub fn add_request(&mut self, request: &SubscriptionRequest)
        ensures
            final(self)@ == with_request(old(self)@, request@),
    {
        let ghost before = self.instruments@;
        let ghost asked = texts(request.instruments@);
        let mut i: usize = 0;
        assert(before.union(asked.take(0).to_set()) =~= before);
        while i < request.instruments.len()
            invariant
                i <= request.instruments@.len(),
                asked == texts(request.instruments@),
                self.instruments@ == before.union(asked.take(i as int).to_set()),
                self.subscribe_book_deltas == old(self).subscribe_book_deltas,
                self.subscribe_quotes == old(self).subscribe_quotes,
                self.subscribe_trades == old(self).subscribe_trades,
            decreases request.instruments@.len() - i,
        {
            self.instruments.insert(request.instruments[i].clone());
            proof {
                let name = request.instruments@[i as int]@;
                assert(asked.take(i + 1) =~= asked.take(i as int).push(name));
                asked.take(i as int).lemma_push_to_set_commute(name);
                assert(self.instruments@ =~= before.union(asked.take(i + 1).to_set()));
            }
            i += 1;
        }
        assert(asked.take(i as int) =~= asked);
        match request.data_type {
            DataType::BookDeltas => {
                self.subscribe_book_deltas = true;
            },
            DataType::Quotes => {
                self.subscribe_quotes = true;
            },
            DataType::Trades => {
                self.subscribe_trades = true;
            },
        }
    }
}

/// All exchanges, in their order.
pub open spec fn all_exchanges() -> Seq<Exchange> {
    seq![Exchange::Binance, Exchange::Hyperliquid, Exchange::Lighter]
}

/// The exchanges that have a plan, in their order.
pub open spec fn planned_exchanges(plans: Map<Exchange, ExchangePlanView>) -> Seq<Exchange> {
    all_exchanges().filter(|exchange: Exchange| plans.dom().contains(exchange))
}

/// Whether every plan has finitely many instruments.
pub open spec fn have_finite_instruments(plans: Map<Exchange, ExchangePlanView>) -> bool {
    forall|exchange: Exchange|
        plans.dom().contains(exchange) ==> (#[trigger] plans[exchange]).instruments.finite()
}

/// The plans of the exchanges, at most one for each.
#[derive(Debug)]
pub struct ExchangePlans {
    binance: Option<ExchangePlan>,
    hyperliquid: Option<ExchangePlan>,
    lighter: Option<ExchangePlan>,
}

impl View for ExchangePlans {
    type V = Map<Exchange, ExchangePlanView>;

    closed spec fn view(&self) -> Map<Exchange, ExchangePlanView> {
        Map::new(
            |exchange: Exchange| self.slot(exchange) is Some,
            |exchange: Exchange| self.slot(exchange)->0@,
        )
    }
}

impl ExchangePlans {
    spec fn slot(&self, exchange: Exchange) -> Option<ExchangePlan> {
        match exchange {
            Exchange::Binance => self.binance,
            Exchange::Hyperliquid => self.hyperliquid,
            Exchange::Lighter => self.lighter,
        }
    }

    /// The plans have finitely many instruments.
    pub proof fn lemma_instruments_are_finite(&self)
        ensures
            have_finite_instruments(self@),
    {
        assert forall|exchange: Exchange| self@.dom().contains(exchange) implies (
        #[trigger] self@[exchange]).instruments.finite() by {
            lemma_name_sets_are_finite(self.slot(exchange)->0.instruments);
        }
    }

    /// No plans.
    pub fn new() -> (plans: Self)
        ensures
            plans@ == Map::<Exchange, ExchangePlanView>::empty(),
    {
        let plans = ExchangePlans { binance: None, hyperliquid: None, lighter: None };
        assert(plans@ =~= Map::empty());
        plans
    }

    /// The plan of an exchange.
    pub fn get(&self, exchange: Exchange) -> (plan: Option<&ExchangePlan>)
        ensures
            match plan {
                Some(plan) => self@.dom().contains(exchange) && self@[exchange] == plan@,
                None => !self@.dom().contains(exchange),
            },
            have_finite_instruments(self@),
    {
        proof {
            self.lemma_instruments_are_finite();
        }
        match exchange {
            Exchange::Binance => self.binance.as_ref(),
            Exchange::Hyperliquid => self.hyperliquid.as_ref(),
            Exchange::Lighter => self.lighter.as_ref(),
        }
    }

    /// Sets the plan of an exchange. The result is the plan that it had before.
    pub fn insert(&mut self, exchange: Exchange, plan: ExchangePlan) -> (before: Option<
        ExchangePlan,
    >)
        ensures
            final(self)@ == old(self)@.insert(exchange, plan@),
            match before {
                Some(before) => old(self)@.dom().contains(exchange) && old(self)@[exchange]
                    == before@,
                None => !old(self)@.dom().contains(exchange),
            },
    {
        let mut slot = Some(plan);
        match exchange {
            Exchange::Binance => {
                core::mem::swap(&mut slot, &mut self.binance);
            },
            Exchange::Hyperliquid => {
                core::mem::swap(&mut slot, &mut self.hyperliquid);
            },
            Exchange::Lighter => {
                core::mem::swap(&mut slot, &mut self.lighter);
            },
        }
        assert(self@ =~= old(self)@.insert(exchange, plan@));
        slot
    }

    /// Takes the plan of an exchange away.
    pub fn remove(&mut self, exchange: Exchange) -> (plan: Option<ExchangePlan>)
        ensures
            final(self)@ == old(self)@.remove(exchange),
            match plan {
                Some(plan) => old(self)@.dom().contains(exchange) && old(self)@[exchange] == plan@,
                None => !old(self)@.dom().contains(exchange),
            },
    {
        let mut slot = None;
        match exchange {
            Exchange::Binance => {
                core::mem::swap(&mut slot, &mut self.binance);
            },
            Exchange::Hyperliquid => {
                core::mem::swap(&mut slot, &mut self.hyperliquid);
            },
            Exchange::Lighter => {
                core::mem::swap(&mut slot, &mut self.lighter);
            },
        }
        assert(self@ =~= old(self)@.remove(exchange));
        slot
    }

    /// The exchanges that have a plan, in their order.
    pub fn exchanges(&self) -> (exchanges: Vec<Exchange>)
        ensures
            exchanges@ == planned_exchanges(self@),
            have_finite_instruments(self@),
    {
        let mut exchanges: Vec<Exchange> = Vec::new();
        if self.binance.is_some() {
            exchanges.push(Exchange::Binance);
        }
        if self.hyperliquid.is_some() {
            exchanges.push(Exchange::Hyperliquid);
        }
        if self.lighter.is_some() {
            exchanges.push(Exchange::Lighter);
        }
        proof {
            let planned = |exchange: Exchange| self@.dom().contains(exchange);
            let one = seq![Exchange::Binance];
            let two = seq![Exchange::Binance, Exchange::Hyperliquid];
            self.lemma_instruments_are_finite();
            reveal_with_fuel(Seq::filter, 4);
            assert(one.drop_last() =~= Seq::empty());
            assert(two.drop_last() =~= one);
            assert(all_exchanges().drop_last() =~= two);
            assert(exchanges@ =~= all_exchanges().filter(planned));
        }
        exchanges
    }
}

/// The plans that requests make: for each exchange one plan that does all that
/// is asked of the exchange.
pub open spec fn grouped(requests: Seq<SubscriptionRequestView>) -> Map<Exchange, ExchangePlanView>
    decreases requests.len(),
{
    if requests.len() == 0 {
        Map::empty()
    } else {
        let plans = grouped(requests.drop_last());
        let request = requests.last();
        let plan = if plans.dom().contains(request.exchange) {
            plans[request.exchange]
        } else {
            empty_plan()
        };
        plans.insert(request.exchange, with_request(plan, request))
    }
}

/// The first planned exchange without instruments.
pub open spec fn first_without_instruments(
    plans: Map<Exchange, ExchangePlanView>,
    exchanges: Seq<Exchange>,
) -> Option<Exchange>
    decreases exchanges.len(),
{
    if exchanges.len() == 0 {
        None
    } else {
        match first_without_instruments(plans, exchanges.drop_last()) {
            Some(exchange) => Some(exchange),
            None => if plans[exchanges.last()].instruments == Set::<Seq<char>>::empty() {
                Some(exchanges.last())
            } else {
                None
            },
        }
    }
}

/// The plans of a configuration, or what is wrong with it.
pub open spec fn planned(requests: Seq<SubscriptionRequestView>) -> Result<
    Map<Exchange, ExchangePlanView>,
    ConfigErrorView,
> {
    let plans = grouped(requests);
    if requests.len() == 0 {
        Err(ConfigErrorView::NoSubscriptions)
    } else {
        match first_without_instruments(plans, planned_exchanges(plans)) {
            Some(exchange) => Err(ConfigErrorView::NoInstruments { exchange }),
            None => Ok(plans),
        }
    }
}

proof fn lemma_first_without_instruments_stays(
    plans: Map<Exchange, ExchangePlanView>,
    exchanges: Seq<Exchange>,
    k: int,
)
    requires
        0 <= k <= exchanges.len(),
        first_without_instruments(plans, exchanges.take(k)) is Some,
    ensures
        first_without_instruments(plans, exchanges) == first_without_instruments(
            plans,
            exchanges.take(k),
        ),
    decreases exchanges.len() - k,
{
    if k == exchanges.len() {
        assert(exchanges.take(k) =~= exchanges);
    } else {
        assert(exchanges.take(k + 1).drop_last() =~= exchanges.take(k));
        lemma_first_without_instruments_stays(plans, exchanges, k + 1);
    }
}

impl CollectorConfig {
    /// The plans of the exchanges: what is requested of an exchange under
    /// several data types is one plan. It is an error to request nothing, and
    /// to request nothing of an exchange that is named.
    pub fn exchange_plans(&self) -> (result: Result<ExchangePlans, ConfigError>)
        ensures
            match result {
                Ok(plans) => planned(request_views(self.requests@)) == Ok::<_, ConfigErrorView>(
                    plans@,
                ),
                Err(error) => planned(request_views(self.requests@)) == Err::<
                    Map<Exchange, ExchangePlanView>,
                    _,
                >(error@),
            },
    {
        if self.requests.len() == 0 {
            return Err(ConfigError::NoSubscriptions);
        }
        let ghost requests = request_views(self.requests@);
        let mut plans = ExchangePlans::new();
        let mut i: usize = 0;
        while i < self.requests.len()
            invariant
                i <= self.requests@.len(),
                requests == request_views(self.requests@),
                plans@ == grouped(requests.take(i as int)),
            decreases self.requests@.len() - i,
        {
            let request = &self.requests[i];
            let ghost before = plans@;
            let mut plan = match plans.remove(request.exchange) {
                Some(plan) => plan,
                None => ExchangePlan::default(),
            };
            plan.add_request(request);
            plans.insert(request.exchange, plan);
            proof {
                assert(requests.take(i + 1).drop_last() =~= requests.take(i as int));
                assert(requests.take(i + 1).last() == request@);
                assert(plans@ =~= before.insert(request.exchange, plan@));
            }
            i += 1;
        }
        assert(requests.take(i as int) =~= requests);
        let exchanges = plans.exchanges();
        let mut k: usize = 0;
        while k < exchanges.len()
            invariant
                k <= exchanges@.len(),
                requests.len() > 0,
                requests == request_views(self.requests@),
                plans@ == grouped(requests),
                exchanges@ == planned_exchanges(plans@),
                first_without_instruments(plans@, exchanges@.take(k as int)) is None,
            decreases exchanges@.len() - k,
        {
            assert(exchanges@.take(k + 1).drop_last() =~= exchanges@.take(k as int));
            let exchange = exchanges[k];
            proof {
                all_exchanges().lemma_filter_pred(
                    |exchange: Exchange| plans@.dom().contains(exchange),
                    k as int,
                );
            }
            if let Some(plan) = plans.get(exchange) {
                if plan.instruments.is_empty() {
                    proof {
                        lemma_first_without_instruments_stays(plans@, exchanges@, k + 1);
                    }
                    return Err(ConfigError::NoInstruments { exchange });
                }
            }
            k += 1;
        }
        assert(exchanges@.take(k as int) =~= exchanges@);
        Ok(plans)
    }
}

/// Whether something of `requests` is asked of an exchange.
pub open spec fn asks(requests: Seq<SubscriptionRequestView>, exchange: Exchange) -> bool {
    exists|i: int| 0 <= i < requests.len() && (#[trigger] requests[i]).exchange == exchange
}

/// Whether a type of data is asked of an exchange.
pub open spec fn asks_for_type(
    requests: Seq<SubscriptionRequestView>,
    exchange: Exchange,
    data_type: DataType,
) -> bool {
    exists|i: int|
        0 <= i < requests.len() && (#[trigger] requests[i]).exchange == exchange
            && requests[i].data_type == data_type
}

/// Whether data of an instrument is asked of an exchange.
pub open spec fn asks_for_instrument(
    requests: Seq<SubscriptionRequestView>,
    exchange: Exchange,
    instrument: Seq<char>,
) -> bool {
    exists|i: int|
        0 <= i < requests.len() && (#[trigger] requests[i]).exchange == exchange
            && requests[i].instruments.contains(instrument)
}

/// Grouping loses nothing and adds nothing: an exchange has a plan exactly if
/// something is asked of it, and its plan has exactly the instruments and the
/// data types that are asked of it, under whatever data type.
pub proof fn law_grouping_is_exact(requests: Seq<SubscriptionRequestView>, exchange: Exchange)
    ensures
        grouped(requests).dom().contains(exchange) == asks(requests, exchange),
        asks(requests, exchange) ==> {
            let plan = grouped(requests)[exchange];
            &&& forall|instrument: Seq<char>| #[trigger]
                plan.instruments.contains(instrument) == asks_for_instrument(
                    requests,
                    exchange,
                    instrument,
                )
            &&& plan.subscribe_book_deltas == asks_for_type(
                requests,
                exchange,
                DataType::BookDeltas,
            )
            &&& plan.subscribe_quotes == asks_for_type(requests, exchange, DataType::Quotes)
            &&& plan.subscribe_trades == asks_for_type(requests, exchange, DataType::Trades)
        },
    decreases requests.len(),
{
    if requests.len() > 0 {
        let shorter = requests.drop_last();
        let last = requests.last();
        law_grouping_is_exact(shorter, exchange);
        lemma_asks_one_more(requests, exchange);
        if asks(requests, exchange) {
            let plan = grouped(requests)[exchange];
            assert forall|instrument: Seq<char>| #[trigger]
                plan.instruments.contains(instrument) == asks_for_instrument(
                    requests,
                    exchange,
                    instrument,
                ) by {
                lemma_asks_for_instrument_one_more(requests, exchange, instrument);
                if !asks(shorter, exchange) {
                    assert(!asks_for_instrument(shorter, exchange, instrument));
                }
            }
            lemma_asks_for_type_one_more(requests, exchange, DataType::BookDeltas);
            lemma_asks_for_type_one_more(requests, exchange, DataType::Quotes);
            lemma_asks_for_type_one_more(requests, exchange, DataType::Trades);
            if !asks(shorter, exchange) {
                assert(!asks_for_type(shorter, exchange, DataType::BookDeltas));
                assert(!asks_for_type(shorter, exchange, DataType::Quotes));
                assert(!asks_for_type(shorter, exchange, DataType::Trades));
            }
        }
    }
}

proof fn lemma_asks_one_more(requests: Seq<SubscriptionRequestView>, exchange: Exchange)
    requires
        requests.len() > 0,
    ensures
        asks(requests, exchange) == (asks(requests.drop_last(), exchange)
            || requests.last().exchange == exchange),
{
    let shorter = requests.drop_last();
    if asks(shorter, exchange) {
        let i = choose|i: int|
            0 <= i < shorter.len() && (#[trigger] shorter[i]).exchange == exchange;
        assert(requests[i].exchange == exchange);
    }
    if asks(requests, exchange) {
        let i = choose|i: int|
            0 <= i < requests.len() && (#[trigger] requests[i]).exchange == exchange;
        if i < shorter.len() {
            assert(shorter[i].exchange == exchange);
        }
    }
    assert(requests[requests.len() - 1] == requests.last());
}

proof fn lemma_asks_for_type_one_more(
    requests: Seq<SubscriptionRequestView>,
    exchange: Exchange,
    data_type: DataType,
)
    requires
        requests.len() > 0,
    ensures
        asks_for_type(requests, exchange, data_type) == (asks_for_type(
            requests.drop_last(),
            exchange,
            data_type,
        ) || (requests.last().exchange == exchange && requests.last().data_type == data_type)),
{
    let shorter = requests.drop_last();
    if asks_for_type(shorter, exchange, data_type) {
        let i = choose|i: int|
            0 <= i < shorter.len() && (#[trigger] shorter[i]).exchange == exchange
                && shorter[i].data_type == data_type;
        assert(requests[i].exchange == exchange);
    }
    if asks_for_type(requests, exchange, data_type) {
        let i = choose|i: int|
            0 <= i < requests.len() && (#[trigger] requests[i]).exchange == exchange
                && requests[i].data_type == data_type;
        if i < shorter.len() {
            assert(shorter[i].exchange == exchange);
        }
    }
    assert(requests[requests.len() - 1] == requests.last());
}

proof fn lemma_asks_for_instrument_one_more(
    requests: Seq<SubscriptionRequestView>,
    exchange: Exchange,
    instrument: Seq<char>,
)
    requires
        requests.len() > 0,
    ensures
        asks_for_instrument(requests, exchange, instrument) == (asks_for_instrument(
            requests.drop_last(),
            exchange,
            instrument,
        ) || (requests.last().exchange == exchange && requests.last().instruments.contains(
            instrument,
        ))),
{
    let shorter = requests.drop_last();
    if asks_for_instrument(shorter, exchange, instrument) {
        let i = choose|i: int|
            0 <= i < shorter.len() && (#[trigger] shorter[i]).exchange == exchange
                && shorter[i].instruments.contains(instrument);
        assert(requests[i].exchange == exchange);
    }
    if asks_for_instrument(requests, exchange, instrument) {
        let i = choose|i: int|
            0 <= i < requests.len() && (#[trigger] requests[i]).exchange == exchange
                && requests[i].instruments.contains(instrument);
        if i < shorter.len() {
            assert(shorter[i].exchange == exchange);
        }
    }
    assert(requests[requests.len() - 1] == requests.last());
}

/// A configuration is accepted exactly if it asks for something, and of every
/// exchange that it names for an instrument.
pub proof fn law_accepted_plans_have_instruments(requests: Seq<SubscriptionRequestView>)
    ensures
        planned(requests) is Ok <==> {
            &&& requests.len() > 0
            &&& forall|exchange: Exchange| #[trigger]
                asks(requests, exchange) ==> exists|instrument: Seq<char>|
                    asks_for_instrument(requests, exchange, instrument)
        },
{
    let plans = grouped(requests);
    let exchanges = planned_exchanges(plans);
    let has_plan = |exchange: Exchange| plans.dom().contains(exchange);
    lemma_none_without_instruments(plans, exchanges);
    assert forall|exchange: Exchange| #[trigger] asks(requests, exchange) implies (plans[exchange].instruments
        != Set::<Seq<char>>::empty() <==> exists|instrument: Seq<char>|
        asks_for_instrument(requests, exchange, instrument)) by {
        law_grouping_is_exact(requests, exchange);
        let instruments = plans[exchange].instruments;
        if instruments != Set::<Seq<char>>::empty() {
            if forall|instrument: Seq<char>| !instruments.contains(instrument) {
                assert(instruments =~= Set::empty());
            }
            let instrument = choose|instrument: Seq<char>| instruments.contains(instrument);
            assert(asks_for_instrument(requests, exchange, instrument));
        }
        if exists|instrument: Seq<char>| asks_for_instrument(requests, exchange, instrument) {
            let instrument = choose|instrument: Seq<char>|
                asks_for_instrument(requests, exchange, instrument);
            assert(instruments.contains(instrument));
        }
    }
    assert forall|exchange: Exchange| asks(requests, exchange) == #[trigger] exchanges.contains(
        exchange,
    ) by {
        law_grouping_is_exact(requests, exchange);
        let all = all_exchanges();
        assert(all[0] == Exchange::Binance && all[1] == Exchange::Hyperliquid && all[2]
            == Exchange::Lighter);
        match exchange {
            Exchange::Binance => {
                assert(all[0] == exchange);
            },
            Exchange::Hyperliquid => {
                assert(all[1] == exchange);
            },
            Exchange::Lighter => {
                assert(all[2] == exchange);
            },
        }
        assert(all.contains(exchange));
        if exchanges.contains(exchange) {
            let k = choose|k: int| 0 <= k < exchanges.len() && exchanges[k] == exchange;
            all.lemma_filter_pred(has_plan, k);
        }
        if has_plan(exchange) {
            let i = choose|i: int| 0 <= i < all.len() && all[i] == exchange;
            all.lemma_filter_contains(has_plan, i);
        }
    }
    if planned(requests) is Ok {
        assert forall|exchange: Exchange| #[trigger] asks(requests, exchange) implies exists|
            instrument: Seq<char>,
        | asks_for_instrument(requests, exchange, instrument) by {
            assert(exchanges.contains(exchange));
        }
    } else if requests.len() > 0 {
        let exchange = first_without_instruments(plans, exchanges)->0;
        assert(exchanges.contains(exchange));
        assert(asks(requests, exchange));
    }
}

proof fn lemma_none_without_instruments(
    plans: Map<Exchange, ExchangePlanView>,
    exchanges: Seq<Exchange>,
)
    ensures
        match first_without_instruments(plans, exchanges) {
            Some(exchange) => exchanges.contains(exchange) && plans[exchange].instruments == Set::<
                Seq<char>,
            >::empty(),
            None => forall|exchange: Exchange| #[trigger]
                exchanges.contains(exchange) ==> plans[exchange].instruments != Set::<
                    Seq<char>,
                >::empty(),
        },
    decreases exchanges.len(),
{
    if exchanges.len() > 0 {
        let shorter = exchanges.drop_last();
        lemma_none_without_instruments(plans, shorter);
        assert(exchanges[exchanges.len() - 1] == exchanges.last());
        assert forall|exchange: Exchange| #[trigger] exchanges.contains(exchange) implies exchange
            == exchanges.last() || shorter.contains(exchange) by {
            let k = choose|k: int| 0 <= k < exchanges.len() && exchanges[k] == exchange;
            if k < shorter.len() {
                assert(shorter[k] == exchange);
            }
        }
        if let Some(exchange) = first_without_instruments(plans, shorter) {
            let k = choose|k: int| 0 <= k < shorter.len() && shorter[k] == exchange;
            assert(exchanges[k] == exchange);
        }
    }
}

} // verus!
