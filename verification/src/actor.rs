//! The collecting actor: what it asks of the data clients when it starts and
//! when it stops.
use vstd::prelude::*;
use vstd::string::StringExecFns;
use vstd::utf8::is_ascii_chars;

use crate::config::Exchange;
use crate::identifiers::binance_client_id;
use crate::identifiers::has_content;
use crate::identifiers::instrument_error;
use crate::identifiers::new_client_id;
use crate::identifiers::parse_instrument_id;
use crate::identifiers::parsed_instrument_id;
use crate::identifiers::ClientId;
use crate::identifiers::InstrumentId;
use crate::identifiers::InstrumentIdView;
use crate::names::in_order;
use crate::names::texts;
use crate::names::NameSet;
use crate::plans::planned_exchanges;
use crate::plans::ExchangePlan;
use crate::plans::ExchangePlanView;
use crate::plans::ExchangePlans;
use crate::results::all_or_first_error;
use crate::results::lemma_early_error;
use crate::results::lemma_push_result;

verus! {

/// What is subscribed to at one client.
#[derive(Debug, PartialEq, Eq)]
pub struct SubscriptionPlan {
    pub client_id: ClientId,
    pub instrument_ids: Vec<InstrumentId>,
    pub subscribe_book_deltas: bool,
    pub subscribe_quotes: bool,
    pub subscribe_trades: bool,
}

pub struct SubscriptionPlanView {
    pub client_id: Seq<char>,
    pub instrument_ids: Seq<InstrumentIdView>,
    pub subscribe_book_deltas: bool,
    pub subscribe_quotes: bool,
    pub subscribe_trades: bool,
}

impl View for SubscriptionPlan {
    type V = SubscriptionPlanView;

    open spec fn view(&self) -> SubscriptionPlanView {
        SubscriptionPlanView {
            client_id: self.client_id@,
            instrument_ids: id_views(self.instrument_ids@),
            subscribe_book_deltas: self.subscribe_book_deltas,
            subscribe_quotes: self.subscribe_quotes,
            subscribe_trades: self.subscribe_trades,
        }
    }
}

/// The views of a vector of instruments.
pub open spec fn id_views(ids: Seq<InstrumentId>) -> Seq<InstrumentIdView> {
    ids.map_values(|id: InstrumentId| id@)
}

/// The views of a vector of plans.
pub open spec fn plan_views(plans: Seq<SubscriptionPlan>) -> Seq<SubscriptionPlanView> {
    plans.map_values(|plan: SubscriptionPlan| plan@)
}

/// Why no subscriptions could be planned.
#[derive(Debug, PartialEq, Eq)]
pub enum PlanError {
    /// A configured instrument is no valid identifier, for this reason.
    InvalidInstrumentId { instrument: String, source: String },
}

/// What stands for a text between quotes, where it holds more than plain
/// characters.
pub uninterp spec fn debug_text(text: Seq<char>) -> Seq<char>;

/// Whether `c` is a printing ASCII character other than a quote, an apostrophe
/// and a backslash.
pub open spec fn is_plain_char(c: char) -> bool {
    ' ' <= c <= '~' && c != '"' && c != '\'' && c != '\\'
}

/// The text between quotes, with escapes where they are needed.
pub open spec fn quoted_text(text: Seq<char>) -> Seq<char> {
    if forall|i: int| 0 <= i < text.len() ==> is_plain_char(#[trigger] text[i]) {
        seq!['"'] + text + seq!['"']
    } else {
        debug_text(text)
    }
}

/// Calls the `Debug` formatting of `str`. A text of plain characters comes out
/// between quotes as it is. Of other texts the result depends on the text
/// alone; which escapes it has is left to the name `debug_text`.
#[verifier::external_body]
fn quoted(text: &str) -> (quoted: String)
    ensures
        quoted@ == (if forall|i: int| 0 <= i < text@.len() ==> is_plain_char(#[trigger] text@[i]) {
            seq!['"'] + text@ + seq!['"']
        } else {
            debug_text(text@)
        }),
{
    format!("{:?}", text)
}

impl PlanError {
    /// The instrument that the error is about.
    pub open spec fn instrument(&self) -> Seq<char> {
        match self {
            PlanError::InvalidInstrumentId { instrument, .. } => instrument@,
        }
    }

    /// Why the instrument is not valid.
    pub open spec fn source(&self) -> Seq<char> {
        match self {
            PlanError::InvalidInstrumentId { source, .. } => source@,
        }
    }

    /// Whether the error is about `instrument`, and gives the reason for it.
    pub open spec fn is_about(&self, instrument: Seq<char>) -> bool {
        self.instrument() == instrument && self.source() == instrument_error(instrument)
    }

    /// What the error says.
    pub fn message(&self) -> (message: String)
        ensures
            message@ == "invalid instrument id "@ + quoted_text(self.instrument()),
    {
        match self {
            PlanError::InvalidInstrumentId { instrument, .. } => {
                "invalid instrument id ".to_owned().concat(quoted(instrument.as_str()).as_str())
            },
        }
    }
}

/// The name of the client of an exchange.
pub open spec fn client_name(exchange: Exchange) -> Seq<char> {
    match exchange {
        Exchange::Binance => "BINANCE"@,
        Exchange::Hyperliquid => "HYPERLIQUID"@,
        Exchange::Lighter => "LIGHTER"@,
    }
}

/// The client of an exchange. The name of the Hyperliquid client is written out:
/// its crate would bring about two hundred packages for this one name.
pub fn client_id(exchange: Exchange) -> (id: ClientId)
    ensures
        id@ == client_name(exchange),
{
    proof {
        reveal_strlit("HYPERLIQUID");
        reveal_strlit("LIGHTER");
        assert("HYPERLIQUID"@[0] == 'H');
        assert("LIGHTER"@[0] == 'L');
        assert(has_content("HYPERLIQUID"@) && is_ascii_chars("HYPERLIQUID"@));
        assert(has_content("LIGHTER"@) && is_ascii_chars("LIGHTER"@));
    }
    match exchange {
        Exchange::Binance => binance_client_id(),
        Exchange::Hyperliquid => new_client_id("HYPERLIQUID"),
        Exchange::Lighter => new_client_id("LIGHTER"),
    }
}

/// The instrument that a configured text names, or the text.
pub open spec fn instrument_result(text: Seq<char>) -> Result<InstrumentIdView, Seq<char>> {
    match parsed_instrument_id(text) {
        Some(id) => Ok(id),
        None => Err(text),
    }
}

/// The instruments that configured texts name, or the first text that names
/// none.
pub open spec fn instrument_results(names: Seq<Seq<char>>) -> Seq<
    Result<InstrumentIdView, Seq<char>>,
> {
    names.map_values(|name: Seq<char>| instrument_result(name))
}

/// What is subscribed to for the plan of an exchange, or the first of its
/// instruments, in ascending order, that is not valid.
pub open spec fn plan_result(exchange: Exchange, plan: ExchangePlanView) -> Result<
    SubscriptionPlanView,
    Seq<char>,
> {
    match all_or_first_error(instrument_results(in_order(plan.instruments))) {
        Err(name) => Err(name),
        Ok(instrument_ids) => Ok(
            SubscriptionPlanView {
                client_id: client_name(exchange),
                instrument_ids,
                subscribe_book_deltas: plan.subscribe_book_deltas,
                subscribe_quotes: plan.subscribe_quotes,
                subscribe_trades: plan.subscribe_trades,
            },
        ),
    }
}

/// What is subscribed to for the plans of exchanges.
pub open spec fn plan_results(
    plans: Map<Exchange, ExchangePlanView>,
    exchanges: Seq<Exchange>,
) -> Seq<Result<SubscriptionPlanView, Seq<char>>> {
    exchanges.map_values(|exchange: Exchange| plan_result(exchange, plans[exchange]))
}

/// The subscriptions for all plans, one for each exchange in the order of the
/// exchanges, or the first instrument that is not valid.
pub open spec fn planned_subscriptions(plans: Map<Exchange, ExchangePlanView>) -> Result<
    Seq<SubscriptionPlanView>,
    Seq<char>,
> {
    all_or_first_error(plan_results(plans, planned_exchanges(plans)))
}

/// What is subscribed to for the plan of an exchange.
fn subscription_plan(exchange: Exchange, plan: &ExchangePlan) -> (result: Result<
    SubscriptionPlan,
    PlanError,
>)
    ensures
        match result {
            Ok(subscription) => plan_result(exchange, plan@) == Ok::<_, Seq<char>>(subscription@),
            Err(error) => {
                &&& plan_result(exchange, plan@) == Err::<SubscriptionPlanView, _>(
                    error.instrument(),
                )
                &&& error.is_about(error.instrument())
            },
        },
{
    let names = plan.instruments.names();
    let ghost found = instrument_results(texts(names@));
    let mut instrument_ids: Vec<InstrumentId> = Vec::new();
    assert(id_views(instrument_ids@) =~= Seq::empty());
    assert(found.take(0) =~= Seq::empty());
    let mut i: usize = 0;
    while i < names.len()
        invariant
            i <= names@.len(),
            texts(names@) == in_order(plan@.instruments),
            found == instrument_results(texts(names@)),
            all_or_first_error(found.take(i as int)) == Ok::<_, Seq<char>>(
                id_views(instrument_ids@),
            ),
        decreases names@.len() - i,
    {
        proof {
            assert(found.take(i + 1) =~= found.take(i as int).push(found[i as int]));
            lemma_push_result(found.take(i as int), found[i as int]);
            assert(texts(names@)[i as int] == names@[i as int]@);
        }
        match parse_instrument_id(names[i].as_str()) {
            Ok(id) => {
                let ghost previous = instrument_ids@;
                instrument_ids.push(id);
                assert(id_views(instrument_ids@) =~= id_views(previous).push(id@));
            },
            Err(source) => {
                proof {
                    lemma_early_error(found, i + 1);
                }
                return Err(
                    PlanError::InvalidInstrumentId { instrument: names[i].clone(), source },
                );
            },
        }
        i += 1;
    }
    assert(found.take(i as int) =~= found);
    Ok(
        SubscriptionPlan {
            client_id: client_id(exchange),
            instrument_ids,
            subscribe_book_deltas: plan.subscribe_book_deltas,
            subscribe_quotes: plan.subscribe_quotes,
            subscribe_trades: plan.subscribe_trades,
        },
    )
}

/// The subscriptions for all plans. The first instrument that is not valid is
/// the error.
pub fn subscription_plans(plans: &ExchangePlans) -> (result: Result<
    Vec<SubscriptionPlan>,
    PlanError,
>)
    ensures
        match result {
            Ok(planned) => planned_subscriptions(plans@) == Ok::<_, Seq<char>>(plan_views(planned@)),
            Err(error) => {
                &&& planned_subscriptions(plans@) == Err::<Seq<SubscriptionPlanView>, _>(
                    error.instrument(),
                )
                &&& error.is_about(error.instrument())
            },
        },
{
    let exchanges = plans.exchanges();
    let ghost found = plan_results(plans@, exchanges@);
    let mut planned: Vec<SubscriptionPlan> = Vec::new();
    assert(plan_views(planned@) =~= Seq::empty());
    assert(found.take(0) =~= Seq::empty());
    let mut i: usize = 0;
    while i < exchanges.len()
        invariant
            i <= exchanges@.len(),
            exchanges@ == planned_exchanges(plans@),
            found == plan_results(plans@, exchanges@),
            all_or_first_error(found.take(i as int)) == Ok::<_, Seq<char>>(plan_views(planned@)),
        decreases exchanges@.len() - i,
    {
        let exchange = exchanges[i];
        proof {
            assert(found.take(i + 1) =~= found.take(i as int).push(found[i as int]));
            lemma_push_result(found.take(i as int), found[i as int]);
            crate::plans::all_exchanges().lemma_filter_pred(
                |exchange: Exchange| plans@.dom().contains(exchange),
                i as int,
            );
        }
        if let Some(plan) = plans.get(exchange) {
            match subscription_plan(exchange, plan) {
                Ok(subscription) => {
                    let ghost previous = planned@;
                    planned.push(subscription);
                    assert(plan_views(planned@) =~= plan_views(previous).push(subscription@));
                },
                Err(error) => {
                    proof {
                        lemma_early_error(found, i + 1);
                    }
                    return Err(error);
                },
            }
        }
        i += 1;
    }
    assert(found.take(i as int) =~= found);
    Ok(planned)
}

/// The detail of an order book.
#[derive(Debug, Clone, Copy, PartialEq, Eq, Structural)]
pub enum BookType {
    /// The best price on each side.
    L1Mbp,
    /// The total at each price.
    L2Mbp,
    /// Every order.
    L3Mbo,
}

/// What the actor asks of a data client.
#[allow(inconsistent_fields)]
#[derive(Debug, PartialEq, Eq)]
pub enum ActorAction {
    RequestInstruments { venue: String, client_id: Option<ClientId> },
    SubscribeBookDeltas {
        instrument_id: InstrumentId,
        book_type: BookType,
        client_id: ClientId,
        managed: bool,
    },
    SubscribeQuotes { instrument_id: InstrumentId, client_id: ClientId },
    SubscribeTrades { instrument_id: InstrumentId, client_id: ClientId },
    UnsubscribeBookDeltas { instrument_id: InstrumentId, client_id: ClientId },
    UnsubscribeQuotes { instrument_id: InstrumentId, client_id: ClientId },
    UnsubscribeTrades { instrument_id: InstrumentId, client_id: ClientId },
}

#[allow(inconsistent_fields)]
pub enum ActorActionView {
    RequestInstruments { venue: Seq<char>, client_id: Option<Seq<char>> },
    SubscribeBookDeltas {
        instrument_id: InstrumentIdView,
        book_type: BookType,
        client_id: Seq<char>,
        managed: bool,
    },
    SubscribeQuotes { instrument_id: InstrumentIdView, client_id: Seq<char> },
    SubscribeTrades { instrument_id: InstrumentIdView, client_id: Seq<char> },
    UnsubscribeBookDeltas { instrument_id: InstrumentIdView, client_id: Seq<char> },
    UnsubscribeQuotes { instrument_id: InstrumentIdView, client_id: Seq<char> },
    UnsubscribeTrades { instrument_id: InstrumentIdView, client_id: Seq<char> },
}

impl View for ActorAction {
    type V = ActorActionView;

    open spec fn view(&self) -> ActorActionView {
        match self {
            ActorAction::RequestInstruments { venue, client_id } =>
                ActorActionView::RequestInstruments {
                    venue: venue@,
                    client_id: match client_id {
                        Some(client_id) => Some(client_id@),
                        None => None,
                    },
                },
            ActorAction::SubscribeBookDeltas { instrument_id, book_type, client_id, managed } =>
                ActorActionView::SubscribeBookDeltas {
                    instrument_id: instrument_id@,
                    book_type: *book_type,
                    client_id: client_id@,
                    managed: *managed,
                },
            ActorAction::SubscribeQuotes { instrument_id, client_id } =>
                ActorActionView::SubscribeQuotes {
                    instrument_id: instrument_id@,
                    client_id: client_id@,
                },
            ActorAction::SubscribeTrades { instrument_id, client_id } =>
                ActorActionView::SubscribeTrades {
                    instrument_id: instrument_id@,
                    client_id: client_id@,
                },
            ActorAction::UnsubscribeBookDeltas { instrument_id, client_id } =>
                ActorActionView::UnsubscribeBookDeltas {
                    instrument_id: instrument_id@,
                    client_id: client_id@,
                },
            ActorAction::UnsubscribeQuotes { instrument_id, client_id } =>
                ActorActionView::UnsubscribeQuotes {
                    instrument_id: instrument_id@,
                    client_id: client_id@,
                },
            ActorAction::UnsubscribeTrades { instrument_id, client_id } =>
                ActorActionView::UnsubscribeTrades {
                    instrument_id: instrument_id@,
                    client_id: client_id@,
                },
        }
    }
}

/// The views of a vector of actions.
pub open spec fn action_views(actions: Seq<ActorAction>) -> Seq<ActorActionView> {
    actions.map_values(|action: ActorAction| action@)
}

/// The venues of the instruments of a plan.
pub open spec fn venues(plan: SubscriptionPlanView) -> Set<Seq<char>> {
    plan.instrument_ids.map_values(|id: InstrumentIdView| id.venue).to_set()
}

/// One request for instruments for each venue of a plan, in ascending order, at
/// the client `client_id`, or at whichever serves the venue.
pub open spec fn instrument_requests(
    plan: SubscriptionPlanView,
    client_id: Option<Seq<char>>,
) -> Seq<ActorActionView> {
    in_order(venues(plan)).map_values(
        |venue: Seq<char>| ActorActionView::RequestInstruments { venue, client_id },
    )
}

/// The subscriptions of a plan for one of its instruments: to level two book
/// deltas with a managed book, to quotes, and to trades, as far as the plan
/// asks for them.
pub open spec fn subscribe_actions(plan: SubscriptionPlanView, id: InstrumentIdView) -> Seq<
    ActorActionView,
> {
    let book_deltas = if plan.subscribe_book_deltas {
        seq![
            ActorActionView::SubscribeBookDeltas {
                instrument_id: id,
                book_type: BookType::L2Mbp,
                client_id: plan.client_id,
                managed: true,
            },
        ]
    } else {
        Seq::empty()
    };
    let quotes = if plan.subscribe_quotes {
        seq![ActorActionView::SubscribeQuotes { instrument_id: id, client_id: plan.client_id }]
    } else {
        Seq::empty()
    };
    let trades = if plan.subscribe_trades {
        seq![ActorActionView::SubscribeTrades { instrument_id: id, client_id: plan.client_id }]
    } else {
        Seq::empty()
    };
    book_deltas + quotes + trades
}

/// The ends of those subscriptions.
pub open spec fn unsubscribe_actions(plan: SubscriptionPlanView, id: InstrumentIdView) -> Seq<
    ActorActionView,
> {
    let book_deltas = if plan.subscribe_book_deltas {
        seq![
            ActorActionView::UnsubscribeBookDeltas { instrument_id: id, client_id: plan.client_id },
        ]
    } else {
        Seq::empty()
    };
    let quotes = if plan.subscribe_quotes {
        seq![ActorActionView::UnsubscribeQuotes { instrument_id: id, client_id: plan.client_id }]
    } else {
        Seq::empty()
    };
    let trades = if plan.subscribe_trades {
        seq![ActorActionView::UnsubscribeTrades { instrument_id: id, client_id: plan.client_id }]
    } else {
        Seq::empty()
    };
    book_deltas + quotes + trades
}

/// All subscriptions of a plan, instrument by instrument.
pub open spec fn plan_subscriptions(plan: SubscriptionPlanView) -> Seq<ActorActionView> {
    plan.instrument_ids.flat_map(|id: InstrumentIdView| subscribe_actions(plan, id))
}

/// What a plan does at the start: the requests for instruments at its client,
/// and then the subscriptions.
pub open spec fn plan_start(plan: SubscriptionPlanView) -> Seq<ActorActionView> {
    instrument_requests(plan, Some(plan.client_id)) + plan_subscriptions(plan)
}

/// What a plan does at the stop.
pub open spec fn plan_stop(plan: SubscriptionPlanView) -> Seq<ActorActionView> {
    plan.instrument_ids.flat_map(|id: InstrumentIdView| unsubscribe_actions(plan, id))
}

/// What is done at the start, plan by plan.
pub open spec fn start_actions(plans: Seq<SubscriptionPlanView>) -> Seq<ActorActionView> {
    plans.flat_map(|plan: SubscriptionPlanView| plan_start(plan))
}

/// What is done at the stop, plan by plan.
pub open spec fn stop_actions(plans: Seq<SubscriptionPlanView>) -> Seq<ActorActionView> {
    plans.flat_map(|plan: SubscriptionPlanView| plan_stop(plan))
}

/// The actor that collects market data.
#[derive(Debug)]
pub struct CollectorActor {
    pub subscriptions: Vec<SubscriptionPlan>,
}

/// The requests for the instruments of a plan's venues at the client
/// `client_id`, which need not be that of the plan.
pub fn request_instruments_for_subscription(
    subscription: &SubscriptionPlan,
    client_id: Option<&ClientId>,
) -> (actions: Vec<ActorAction>)
    ensures
        action_views(actions@) == instrument_requests(
            subscription@,
            match client_id {
                Some(client_id) => Some(client_id@),
                None => None,
            },
        ),
{
    let ghost client = match client_id {
        Some(client_id) => Some(client_id@),
        None => None,
    };
    let ghost requests = instrument_requests(subscription@, client);
    let ghost all = id_views(subscription.instrument_ids@).map_values(
        |id: InstrumentIdView| id.venue,
    );
    let mut found = NameSet::new();
    let mut i: usize = 0;
    assert(all.take(0).to_set() =~= Set::empty());
    while i < subscription.instrument_ids.len()
        invariant
            i <= subscription.instrument_ids@.len(),
            all == id_views(subscription.instrument_ids@).map_values(
                |id: InstrumentIdView| id.venue,
            ),
            found@ == all.take(i as int).to_set(),
        decreases subscription.instrument_ids@.len() - i,
    {
        let ghost venue = subscription.instrument_ids@[i as int].venue@;
        found.insert(subscription.instrument_ids[i].venue.clone());
        proof {
            assert(all.take(i + 1) =~= all.take(i as int).push(venue));
            all.take(i as int).lemma_push_to_set_commute(venue);
        }
        i += 1;
    }
    assert(all.take(i as int) =~= all);
    assert(found@ == venues(subscription@));
    let names = found.names();
    let mut actions: Vec<ActorAction> = Vec::new();
    let mut k: usize = 0;
    assert(action_views(actions@) =~= requests.take(0));
    while k < names.len()
        invariant
            k <= names@.len(),
            texts(names@) == in_order(venues(subscription@)),
            client == (match client_id {
                Some(client_id) => Some(client_id@),
                None => None,
            }),
            requests == instrument_requests(subscription@, client),
            action_views(actions@) == requests.take(k as int),
        decreases names@.len() - k,
    {
        let ghost previous = actions@;
        let action = ActorAction::RequestInstruments {
            venue: names[k].clone(),
            client_id: match client_id {
                Some(client_id) => Some(client_id.copy()),
                None => None,
            },
        };
        actions.push(action);
        proof {
            assert(texts(names@)[k as int] == names@[k as int]@);
            assert(requests[k as int] == action@);
            assert(requests.take(k + 1) =~= requests.take(k as int).push(action@));
            assert(action_views(actions@) =~= action_views(previous).push(action@));
        }
        k += 1;
    }
    assert(requests.take(k as int) =~= requests);
    actions
}

impl SubscriptionPlan {
    /// The subscriptions for the instrument `id`.
    fn subscribe(&self, id: &InstrumentId) -> (actions: Vec<ActorAction>)
        ensures
            action_views(actions@) == subscribe_actions(self@, id@),
    {
        let mut actions: Vec<ActorAction> = Vec::new();
        if self.subscribe_book_deltas {
            actions.push(
                ActorAction::SubscribeBookDeltas {
                    instrument_id: id.copy(),
                    book_type: BookType::L2Mbp,
                    client_id: self.client_id.copy(),
                    managed: true,
                },
            );
        }
        if self.subscribe_quotes {
            actions.push(
                ActorAction::SubscribeQuotes {
                    instrument_id: id.copy(),
                    client_id: self.client_id.copy(),
                },
            );
        }
        if self.subscribe_trades {
            actions.push(
                ActorAction::SubscribeTrades {
                    instrument_id: id.copy(),
                    client_id: self.client_id.copy(),
                },
            );
        }
        assert(action_views(actions@) =~= subscribe_actions(self@, id@));
        actions
    }

    /// The ends of the subscriptions for the instrument `id`.
    fn unsubscribe(&self, id: &InstrumentId) -> (actions: Vec<ActorAction>)
        ensures
            action_views(actions@) == unsubscribe_actions(self@, id@),
    {
        let mut actions: Vec<ActorAction> = Vec::new();
        if self.subscribe_book_deltas {
            actions.push(
                ActorAction::UnsubscribeBookDeltas {
                    instrument_id: id.copy(),
                    client_id: self.client_id.copy(),
                },
            );
        }
        if self.subscribe_quotes {
            actions.push(
                ActorAction::UnsubscribeQuotes {
                    instrument_id: id.copy(),
                    client_id: self.client_id.copy(),
                },
            );
        }
        if self.subscribe_trades {
            actions.push(
                ActorAction::UnsubscribeTrades {
                    instrument_id: id.copy(),
                    client_id: self.client_id.copy(),
                },
            );
        }
        assert(action_views(actions@) =~= unsubscribe_actions(self@, id@));
        actions
    }

    /// What the plan does at the start.
    fn start(&self) -> (actions: Vec<ActorAction>)
        ensures
            action_views(actions@) == plan_start(self@),
    {
        let mut actions = request_instruments_for_subscription(self, Some(&self.client_id));
        let ghost requests = action_views(actions@);
        let ghost ids = id_views(self.instrument_ids@);
        let ghost of_id = |id: InstrumentIdView| subscribe_actions(self@, id);
        let mut i: usize = 0;
        assert(ids.take(0).flat_map(of_id) =~= Seq::empty());
        assert(requests + Seq::empty() =~= requests);
        while i < self.instrument_ids.len()
            invariant
                i <= self.instrument_ids@.len(),
                ids == id_views(self.instrument_ids@),
                of_id == (|id: InstrumentIdView| subscribe_actions(self@, id)),
                action_views(actions@) == requests + ids.take(i as int).flat_map(of_id),
            decreases self.instrument_ids@.len() - i,
        {
            proof {
                ids.lemma_flat_map_take_append(of_id, i as int);
            }
            let ghost previous = actions@;
            let mut more = self.subscribe(&self.instrument_ids[i]);
            let ghost added = more@;
            actions.append(&mut more);
            assert(action_views(actions@) =~= action_views(previous) + action_views(added));
            assert(action_views(actions@) =~= requests + ids.take(i + 1).flat_map(of_id));
            i += 1;
        }
        assert(ids.take(i as int) =~= ids);
        actions
    }

    /// What the plan does at the stop.
    fn stop(&self) -> (actions: Vec<ActorAction>)
        ensures
            action_views(actions@) == plan_stop(self@),
    {
        let mut actions: Vec<ActorAction> = Vec::new();
        let ghost ids = id_views(self.instrument_ids@);
        let ghost of_id = |id: InstrumentIdView| unsubscribe_actions(self@, id);
        let mut i: usize = 0;
        assert(action_views(actions@) =~= ids.take(0).flat_map(of_id));
        while i < self.instrument_ids.len()
            invariant
                i <= self.instrument_ids@.len(),
                ids == id_views(self.instrument_ids@),
                of_id == (|id: InstrumentIdView| unsubscribe_actions(self@, id)),
                action_views(actions@) == ids.take(i as int).flat_map(of_id),
            decreases self.instrument_ids@.len() - i,
        {
            proof {
                ids.lemma_flat_map_take_append(of_id, i as int);
            }
            let ghost previous = actions@;
            let mut more = self.unsubscribe(&self.instrument_ids[i]);
            let ghost added = more@;
            actions.append(&mut more);
            assert(action_views(actions@) =~= action_views(previous) + action_views(added));
            i += 1;
        }
        assert(ids.take(i as int) =~= ids);
        actions
    }
}

impl CollectorActor {
    /// The actor for the plans of the exchanges. The first instrument that is
    /// not valid is the error.
    pub fn from_exchange_plans(plans: &ExchangePlans) -> (result: Result<
        CollectorActor,
        PlanError,
    >)
        ensures
            match result {
                Ok(actor) => planned_subscriptions(plans@) == Ok::<_, Seq<char>>(
                    plan_views(actor.subscriptions@),
                ),
                Err(error) => {
                    &&& planned_subscriptions(plans@) == Err::<Seq<SubscriptionPlanView>, _>(
                        error.instrument(),
                    )
                    &&& error.is_about(error.instrument())
                },
            },
    {
        match subscription_plans(plans) {
            Ok(subscriptions) => Ok(CollectorActor::new(subscriptions)),
            Err(error) => Err(error),
        }
    }

    /// The actor for some subscriptions.
    pub fn new(subscriptions: Vec<SubscriptionPlan>) -> (actor: Self)
        ensures
            actor.subscriptions == subscriptions,
    {
        CollectorActor { subscriptions }
    }

    /// What the actor asks of the data clients when it starts.
    pub fn on_start(&self) -> (actions: Vec<ActorAction>)
        ensures
            action_views(actions@) == start_actions(plan_views(self.subscriptions@)),
    {
        let mut actions: Vec<ActorAction> = Vec::new();
        let ghost plans = plan_views(self.subscriptions@);
        let ghost of_plan = |plan: SubscriptionPlanView| plan_start(plan);
        let mut i: usize = 0;
        assert(action_views(actions@) =~= plans.take(0).flat_map(of_plan));
        while i < self.subscriptions.len()
            invariant
                i <= self.subscriptions@.len(),
                plans == plan_views(self.subscriptions@),
                of_plan == (|plan: SubscriptionPlanView| plan_start(plan)),
                action_views(actions@) == plans.take(i as int).flat_map(of_plan),
            decreases self.subscriptions@.len() - i,
        {
            proof {
                plans.lemma_flat_map_take_append(of_plan, i as int);
            }
            let ghost previous = actions@;
            let mut more = self.subscriptions[i].start();
            let ghost added = more@;
            actions.append(&mut more);
            assert(action_views(actions@) =~= action_views(previous) + action_views(added));
            i += 1;
        }
        assert(plans.take(i as int) =~= plans);
        actions
    }

    /// What the actor asks of the data clients when it stops.
    pub fn on_stop(&self) -> (actions: Vec<ActorAction>)
        ensures
            action_views(actions@) == stop_actions(plan_views(self.subscriptions@)),
    {
        let mut actions: Vec<ActorAction> = Vec::new();
        let ghost plans = plan_views(self.subscriptions@);
        let ghost of_plan = |plan: SubscriptionPlanView| plan_stop(plan);
        let mut i: usize = 0;
        assert(action_views(actions@) =~= plans.take(0).flat_map(of_plan));
        while i < self.subscriptions.len()
            invariant
                i <= self.subscriptions@.len(),
                plans == plan_views(self.subscriptions@),
                of_plan == (|plan: SubscriptionPlanView| plan_stop(plan)),
                action_views(actions@) == plans.take(i as int).flat_map(of_plan),
            decreases self.subscriptions@.len() - i,
        {
            proof {
                plans.lemma_flat_map_take_append(of_plan, i as int);
            }
            let ghost previous = actions@;
            let mut more = self.subscriptions[i].stop();
            let ghost added = more@;
            actions.append(&mut more);
            assert(action_views(actions@) =~= action_views(previous) + action_views(added));
            i += 1;
        }
        assert(plans.take(i as int) =~= plans);
        actions
    }
}

} // verus!
