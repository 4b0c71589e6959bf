//! What holds of the collecting actor as a whole.
use vstd::prelude::*;

use crate::actor::client_name;
use crate::actor::instrument_requests;
use crate::actor::instrument_result;
use crate::actor::instrument_results;
use crate::actor::plan_result;
use crate::actor::plan_results;
use crate::actor::plan_start;
use crate::actor::plan_stop;
use crate::actor::plan_subscriptions;
use crate::actor::planned_subscriptions;
use crate::actor::start_actions;
use crate::actor::stop_actions;
use crate::actor::subscribe_actions;
use crate::actor::unsubscribe_actions;
use crate::actor::venues;
use crate::actor::ActorActionView;
use crate::actor::BookType;
use crate::actor::SubscriptionPlanView;
use crate::config::Exchange;
use crate::identifiers::instrument_text;
use crate::identifiers::law_parsed_id_has_its_text;
use crate::identifiers::parsed_instrument_id;
use crate::identifiers::InstrumentIdView;
use crate::names::in_order;
use crate::names::law_finite_sets_have_an_order;
use crate::plans::all_exchanges;
use crate::plans::have_finite_instruments;
use crate::plans::planned_exchanges;
use crate::plans::ExchangePlanView;
use crate::results::all_or_first_error;
use crate::results::lemma_all_values;
use crate::results::lemma_values_are_results;

verus! {

/// Whether an action is a subscription.
pub open spec fn is_subscription(action: ActorActionView) -> bool {
    ||| action is SubscribeBookDeltas
    ||| action is SubscribeQuotes
    ||| action is SubscribeTrades
}

/// The action that ends a subscription.
pub open spec fn end_of(action: ActorActionView) -> ActorActionView {
    match action {
        ActorActionView::SubscribeBookDeltas { instrument_id, client_id, .. } =>
            ActorActionView::UnsubscribeBookDeltas { instrument_id, client_id },
        ActorActionView::SubscribeQuotes { instrument_id, client_id } =>
            ActorActionView::UnsubscribeQuotes { instrument_id, client_id },
        ActorActionView::SubscribeTrades { instrument_id, client_id } =>
            ActorActionView::UnsubscribeTrades { instrument_id, client_id },
        other => other,
    }
}

/// The ends of the subscriptions among `actions`, in their order.
pub open spec fn ends_of(actions: Seq<ActorActionView>) -> Seq<ActorActionView> {
    actions.filter(|action: ActorActionView| is_subscription(action)).map_values(
        |action: ActorActionView| end_of(action),
    )
}

/// The stop ends exactly the subscriptions that the start made, in the same
/// order and at the same clients.
pub proof fn law_stop_ends_what_start_began(plans: Seq<SubscriptionPlanView>)
    ensures
        stop_actions(plans) == ends_of(start_actions(plans)),
{
    lemma_stop_of_first_plans(plans, plans.len() as int);
    assert(plans.take(plans.len() as int) =~= plans);
}

proof fn lemma_stop_of_first_plans(plans: Seq<SubscriptionPlanView>, k: int)
    requires
        0 <= k <= plans.len(),
    ensures
        stop_actions(plans.take(k)) == ends_of(start_actions(plans.take(k))),
    decreases k,
{
    let start = |plan: SubscriptionPlanView| plan_start(plan);
    let stop = |plan: SubscriptionPlanView| plan_stop(plan);
    if k == 0 {
        assert(start_actions(plans.take(0)) =~= Seq::empty());
        assert(stop_actions(plans.take(0)) =~= Seq::empty());
        assert(ends_of(Seq::empty()) =~= Seq::empty());
    } else {
        lemma_stop_of_first_plans(plans, k - 1);
        plans.lemma_flat_map_take_append(start, k - 1);
        plans.lemma_flat_map_take_append(stop, k - 1);
        lemma_ends_of_both(start_actions(plans.take(k - 1)), plan_start(plans[k - 1]));
        lemma_stop_of_plan(plans[k - 1]);
    }
}

proof fn lemma_ends_of_both(a: Seq<ActorActionView>, b: Seq<ActorActionView>)
    ensures
        ends_of(a + b) == ends_of(a) + ends_of(b),
{
    let kept = |action: ActorActionView| is_subscription(action);
    Seq::filter_distributes_over_add(a, b, kept);
    assert(ends_of(a + b) =~= ends_of(a) + ends_of(b));
}

proof fn lemma_stop_of_plan(plan: SubscriptionPlanView)
    ensures
        plan_stop(plan) == ends_of(plan_start(plan)),
{
    let ids = plan.instrument_ids;
    let requests = instrument_requests(plan, Some(plan.client_id));
    let kept = |action: ActorActionView| is_subscription(action);
    lemma_ends_of_both(requests, plan_subscriptions(plan));
    assert(ends_of(requests) =~= Seq::empty()) by {
        assert forall|i: int| 0 <= i < requests.len() implies !kept(#[trigger] requests[i]) by {}
        assert(requests.all(|action: ActorActionView| !kept(action)));
        requests.lemma_all_neg_filter_empty(kept);
    }
    lemma_stop_of_first_ids(plan, ids.len() as int);
    assert(ids.take(ids.len() as int) =~= ids);
    assert(Seq::<ActorActionView>::empty() + plan_stop(plan) =~= plan_stop(plan));
}

proof fn lemma_stop_of_first_ids(plan: SubscriptionPlanView, k: int)
    requires
        0 <= k <= plan.instrument_ids.len(),
    ensures
        plan.instrument_ids.take(k).flat_map(
            |id: InstrumentIdView| unsubscribe_actions(plan, id),
        ) == ends_of(
            plan.instrument_ids.take(k).flat_map(
                |id: InstrumentIdView| subscribe_actions(plan, id),
            ),
        ),
    decreases k,
{
    let ids = plan.instrument_ids;
    let begin = |id: InstrumentIdView| subscribe_actions(plan, id);
    let end = |id: InstrumentIdView| unsubscribe_actions(plan, id);
    if k == 0 {
        assert(ids.take(0).flat_map(begin) =~= Seq::empty());
        assert(ids.take(0).flat_map(end) =~= Seq::empty());
        assert(ends_of(Seq::empty()) =~= Seq::empty());
    } else {
        lemma_stop_of_first_ids(plan, k - 1);
        ids.lemma_flat_map_take_append(begin, k - 1);
        ids.lemma_flat_map_take_append(end, k - 1);
        lemma_ends_of_both(ids.take(k - 1).flat_map(begin), begin(ids[k - 1]));
        lemma_ends_of_instrument(plan, ids[k - 1]);
    }
}

proof fn lemma_ends_of_instrument(plan: SubscriptionPlanView, id: InstrumentIdView)
    ensures
        unsubscribe_actions(plan, id) == ends_of(subscribe_actions(plan, id)),
{
    let client_id = plan.client_id;
    let instrument_id = id;
    let begin_book_deltas = ActorActionView::SubscribeBookDeltas {
        instrument_id,
        book_type: BookType::L2Mbp,
        client_id,
        managed: true,
    };
    let begin_quotes = ActorActionView::SubscribeQuotes { instrument_id, client_id };
    let begin_trades = ActorActionView::SubscribeTrades { instrument_id, client_id };
    let book_deltas = if_asked(plan.subscribe_book_deltas, begin_book_deltas);
    let quotes = if_asked(plan.subscribe_quotes, begin_quotes);
    let trades = if_asked(plan.subscribe_trades, begin_trades);
    assert(subscribe_actions(plan, id) == book_deltas + quotes + trades);
    lemma_ends_of_both(book_deltas + quotes, trades);
    lemma_ends_of_both(book_deltas, quotes);
    lemma_end_if_asked(plan.subscribe_book_deltas, begin_book_deltas);
    lemma_end_if_asked(plan.subscribe_quotes, begin_quotes);
    lemma_end_if_asked(plan.subscribe_trades, begin_trades);
}

/// An action, if it is asked for.
spec fn if_asked(asked: bool, action: ActorActionView) -> Seq<ActorActionView> {
    if asked {
        seq![action]
    } else {
        Seq::empty()
    }
}

proof fn lemma_end_if_asked(asked: bool, action: ActorActionView)
    requires
        is_subscription(action),
    ensures
        ends_of(if_asked(asked, action)) == if_asked(asked, end_of(action)),
{
    lemma_all_kept(if_asked(asked, action));
    assert(ends_of(if_asked(asked, action)) =~= if_asked(asked, end_of(action)));
}

proof fn lemma_subscribe_actions(plan: SubscriptionPlanView, id: InstrumentIdView)
    ensures
        forall|i: int|
            0 <= i < subscribe_actions(plan, id).len() ==> {
                let action = #[trigger] subscribe_actions(plan, id)[i];
                is_subscription(action) && request_for(action)
                    == ActorActionView::RequestInstruments {
                    venue: id.venue,
                    client_id: Some(plan.client_id),
                }
            },
{
}

proof fn lemma_all_kept(actions: Seq<ActorActionView>)
    requires
        forall|i: int| 0 <= i < actions.len() ==> is_subscription(#[trigger] actions[i]),
    ensures
        actions.filter(|action: ActorActionView| is_subscription(action)) == actions,
    decreases actions.len(),
{
    reveal_with_fuel(Seq::filter, 1);
    if actions.len() > 0 {
        lemma_all_kept(actions.drop_last());
        assert(is_subscription(actions.last()));
        assert(actions.drop_last().push(actions.last()) =~= actions);
    } else {
        assert(actions.filter(|action: ActorActionView| is_subscription(action)) =~= actions);
    }
}

/// The request for the instruments of the venue of a subscription, at the
/// client of the subscription.
pub open spec fn request_for(action: ActorActionView) -> ActorActionView {
    match action {
        ActorActionView::SubscribeBookDeltas { instrument_id, client_id, .. } =>
            ActorActionView::RequestInstruments {
                venue: instrument_id.venue,
                client_id: Some(client_id),
            },
        ActorActionView::SubscribeQuotes { instrument_id, client_id } =>
            ActorActionView::RequestInstruments {
                venue: instrument_id.venue,
                client_id: Some(client_id),
            },
        ActorActionView::SubscribeTrades { instrument_id, client_id } =>
            ActorActionView::RequestInstruments {
                venue: instrument_id.venue,
                client_id: Some(client_id),
            },
        other => other,
    }
}

/// Whether the request for the action `i` stands before it.
pub open spec fn is_requested_before(actions: Seq<ActorActionView>, i: int) -> bool {
    exists|j: int| 0 <= j < i && #[trigger] actions[j] == request_for(actions[i])
}

/// Before it subscribes to an instrument, the actor has requested the
/// instruments of its venue from the same client.
pub proof fn law_venues_are_requested_first(plans: Seq<SubscriptionPlanView>)
    ensures
        forall|i: int|
            0 <= i < start_actions(plans).len() && is_subscription(
                #[trigger] start_actions(plans)[i],
            ) ==> is_requested_before(start_actions(plans), i),
{
    lemma_requested_in_first_plans(plans, plans.len() as int);
    assert(plans.take(plans.len() as int) =~= plans);
}

spec fn all_requested_before(actions: Seq<ActorActionView>) -> bool {
    forall|i: int|
        0 <= i < actions.len() && is_subscription(#[trigger] actions[i]) ==> is_requested_before(
            actions,
            i,
        )
}

proof fn lemma_requested_in_first_plans(plans: Seq<SubscriptionPlanView>, k: int)
    requires
        0 <= k <= plans.len(),
    ensures
        all_requested_before(start_actions(plans.take(k))),
    decreases k,
{
    let start = |plan: SubscriptionPlanView| plan_start(plan);
    if k == 0 {
        assert(start_actions(plans.take(0)) =~= Seq::empty());
    } else {
        lemma_requested_in_first_plans(plans, k - 1);
        plans.lemma_flat_map_take_append(start, k - 1);
        let before = start_actions(plans.take(k - 1));
        let more = plan_start(plans[k - 1]);
        lemma_requested_in_plan(plans[k - 1]);
        let all = before + more;
        assert forall|i: int|
            0 <= i < all.len() && is_subscription(#[trigger] all[i]) implies is_requested_before(
            all,
            i,
        ) by {
            if i < before.len() {
                assert(is_requested_before(before, i));
                let j = choose|j: int|
                    0 <= j < i && #[trigger] before[j] == request_for(before[i]);
                assert(all[j] == request_for(all[i]));
            } else {
                let at = i - before.len();
                assert(more[at] == all[i]);
                assert(is_requested_before(more, at));
                let j = choose|j: int| 0 <= j < at && #[trigger] more[j] == request_for(more[at]);
                assert(all[before.len() + j] == request_for(all[i]));
            }
        }
    }
}

proof fn lemma_requested_in_plan(plan: SubscriptionPlanView)
    ensures
        all_requested_before(plan_start(plan)),
{
    let requests = instrument_requests(plan, Some(plan.client_id));
    let subscriptions = plan_subscriptions(plan);
    let ids = plan.instrument_ids;
    lemma_requests_of_first_ids(plan, ids.len() as int);
    assert(ids.take(ids.len() as int) =~= ids);
    let all = plan_start(plan);
    assert forall|i: int|
        0 <= i < all.len() && is_subscription(#[trigger] all[i]) implies is_requested_before(
        all,
        i,
    ) by {
        if i < requests.len() {
            assert(all[i] == requests[i]);
        } else {
            let action = subscriptions[i - requests.len()];
            assert(all[i] == action);
            assert(requests.contains(request_for(action)));
            let j = choose|j: int| 0 <= j < requests.len() && requests[j] == request_for(action);
            assert(all[j] == requests[j]);
        }
    }
}

proof fn lemma_requests_of_first_ids(plan: SubscriptionPlanView, k: int)
    requires
        0 <= k <= plan.instrument_ids.len(),
    ensures
        ({
            let actions = plan.instrument_ids.take(k).flat_map(
                |id: InstrumentIdView| subscribe_actions(plan, id),
            );
            forall|i: int|
                0 <= i < actions.len() ==> instrument_requests(plan, Some(plan.client_id)).contains(
                    request_for(#[trigger] actions[i]),
                )
        }),
    decreases k,
{
    let ids = plan.instrument_ids;
    let begin = |id: InstrumentIdView| subscribe_actions(plan, id);
    if k == 0 {
        assert(ids.take(0).flat_map(begin) =~= Seq::empty());
    } else {
        lemma_requests_of_first_ids(plan, k - 1);
        ids.lemma_flat_map_take_append(begin, k - 1);
        let id = ids[k - 1];
        lemma_subscribe_actions(plan, id);
        lemma_venue_is_requested(plan, k - 1);
        let before = ids.take(k - 1).flat_map(begin);
        let actions = ids.take(k).flat_map(begin);
        assert forall|i: int| 0 <= i < actions.len() implies instrument_requests(
            plan,
            Some(plan.client_id),
        ).contains(request_for(#[trigger] actions[i])) by {
            if i < before.len() {
                assert(actions[i] == before[i]);
            } else {
                assert(actions[i] == subscribe_actions(plan, id)[i - before.len()]);
            }
        }
    }
}

proof fn lemma_venue_is_requested(plan: SubscriptionPlanView, k: int)
    requires
        0 <= k < plan.instrument_ids.len(),
    ensures
        instrument_requests(plan, Some(plan.client_id)).contains(
            ActorActionView::RequestInstruments {
                venue: plan.instrument_ids[k].venue,
                client_id: Some(plan.client_id),
            },
        ),
{
    let names = plan.instrument_ids.map_values(|id: InstrumentIdView| id.venue);
    let venue = plan.instrument_ids[k].venue;
    vstd::seq_lib::seq_to_set_is_finite(names);
    law_finite_sets_have_an_order(venues(plan));
    let ordered = in_order(venues(plan));
    assert(names[k] == venue);
    assert(venues(plan).contains(venue));
    assert(ordered.to_set().contains(venue));
    let at = choose|at: int| 0 <= at < ordered.len() && ordered[at] == venue;
    let requests = instrument_requests(plan, Some(plan.client_id));
    assert(requests[at] == ActorActionView::RequestInstruments {
        venue,
        client_id: Some(plan.client_id),
    });
}

/// Whether every instrument of every plan is valid.
pub open spec fn all_valid(plans: Map<Exchange, ExchangePlanView>) -> bool {
    forall|exchange: Exchange, instrument: Seq<char>|
        plans.dom().contains(exchange) && #[trigger] plans[exchange].instruments.contains(
            instrument,
        ) ==> parsed_instrument_id(instrument) is Some
}

/// The subscriptions are planned exactly if every configured instrument is
/// valid.
pub proof fn law_plans_need_valid_instruments(plans: Map<Exchange, ExchangePlanView>)
    requires
        have_finite_instruments(plans),
    ensures
        planned_subscriptions(plans) is Ok <==> all_valid(plans),
{
    let exchanges = planned_exchanges(plans);
    let results = plan_results(plans, exchanges);
    let has_plan = |exchange: Exchange| plans.dom().contains(exchange);
    if planned_subscriptions(plans) is Ok {
        lemma_values_are_results(results);
        assert forall|exchange: Exchange, instrument: Seq<char>|
            plans.dom().contains(exchange) && #[trigger] plans[exchange].instruments.contains(
                instrument,
            ) implies parsed_instrument_id(instrument) is Some by {
            lemma_is_planned(plans, exchange);
            let i = choose|i: int| 0 <= i < exchanges.len() && exchanges[i] == exchange;
            assert(results[i] is Ok);
            let names = in_order(plans[exchange].instruments);
            law_finite_sets_have_an_order(plans[exchange].instruments);
            assert(names.to_set().contains(instrument));
            let k = choose|k: int| 0 <= k < names.len() && names[k] == instrument;
            lemma_values_are_results(instrument_results(names));
            assert(instrument_results(names)[k] == instrument_result(instrument));
        }
    } else if all_valid(plans) {
        assert forall|i: int| 0 <= i < results.len() implies (#[trigger] results[i]) is Ok by {
            all_exchanges().lemma_filter_pred(has_plan, i);
            let exchange = exchanges[i];
            let names = in_order(plans[exchange].instruments);
            law_finite_sets_have_an_order(plans[exchange].instruments);
            let ids = instrument_results(names);
            assert forall|k: int| 0 <= k < ids.len() implies (#[trigger] ids[k]) is Ok by {
                assert(names.to_set().contains(names[k]));
                assert(plans[exchange].instruments.contains(names[k]));
            }
            lemma_all_values(ids);
        }
        lemma_all_values(results);
    }
}

proof fn lemma_is_planned(plans: Map<Exchange, ExchangePlanView>, exchange: Exchange)
    requires
        plans.dom().contains(exchange),
    ensures
        planned_exchanges(plans).contains(exchange),
{
    let all = all_exchanges();
    let has_plan = |exchange: Exchange| plans.dom().contains(exchange);
    let i: int = match exchange {
        Exchange::Binance => 0,
        Exchange::Hyperliquid => 1,
        Exchange::Lighter => 2,
    };
    assert(all[i] == exchange);
    all.lemma_filter_contains(has_plan, i);
}

/// Each exchange with a plan gets one subscription plan, in the order of the
/// exchanges: with its client, its data types, and its instruments in
/// ascending order of their texts.
pub proof fn law_each_exchange_keeps_its_plan(
    plans: Map<Exchange, ExchangePlanView>,
    planned: Seq<SubscriptionPlanView>,
    i: int,
)
    requires
        planned_subscriptions(plans) == Ok::<_, Seq<char>>(planned),
        0 <= i < planned_exchanges(plans).len(),
    ensures
        planned.len() == planned_exchanges(plans).len(),
        ({
            let exchange = planned_exchanges(plans)[i];
            &&& planned[i].client_id == client_name(exchange)
            &&& planned[i].subscribe_book_deltas == plans[exchange].subscribe_book_deltas
            &&& planned[i].subscribe_quotes == plans[exchange].subscribe_quotes
            &&& planned[i].subscribe_trades == plans[exchange].subscribe_trades
            &&& planned[i].instrument_ids.map_values(|id: InstrumentIdView| instrument_text(id))
                == in_order(plans[exchange].instruments)
        }),
{
    let exchanges = planned_exchanges(plans);
    let exchange = exchanges[i];
    let results = plan_results(plans, exchanges);
    lemma_values_are_results(results);
    assert(results[i] == plan_result(exchange, plans[exchange]));
    let names = in_order(plans[exchange].instruments);
    let ids = planned[i].instrument_ids;
    let found = instrument_results(names);
    lemma_values_are_results(found);
    assert(all_or_first_error(found) == Ok::<_, Seq<char>>(ids));
    let back = ids.map_values(|id: InstrumentIdView| instrument_text(id));
    assert forall|k: int| 0 <= k < names.len() implies back[k] == names[k] by {
        assert(found[k] == Ok::<InstrumentIdView, Seq<char>>(ids[k]));
        law_parsed_id_has_its_text(names[k]);
    }
    assert(back =~= names);
}

} // verus!
