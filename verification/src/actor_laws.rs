//! What the collecting actor asks for, told from its plans alone.
use vstd::prelude::*;
use vstd::utf8::encode_utf8;
use vstd::utf8::is_ascii_chars;

use crate::actor::ActorAction;
use crate::actor::ActorActionView;
use crate::actor::BookType;
use crate::actor::PlanError;
use crate::actor::SubscriptionPlan;
use crate::actor::SubscriptionPlanView;
use crate::actor::action_views;
use crate::actor::client_name;
use crate::actor::debug_text;
use crate::actor::instrument_requests;
use crate::actor::instrument_result;
use crate::actor::instrument_results;
use crate::actor::is_plain_char;
use crate::actor::plan_result;
use crate::actor::plan_results;
use crate::actor::plan_start;
use crate::actor::plan_stop;
use crate::actor::plan_subscriptions;
use crate::actor::plan_views;
use crate::actor::planned_subscriptions;
use crate::actor::quoted_text;
use crate::actor::start_actions;
use crate::actor::stop_actions;
use crate::actor::subscribe_actions;
use crate::actor::unsubscribe_actions;
use crate::actor::venues;
use crate::config::Exchange;
use crate::config_laws::law_planned_exchanges_are_in_order;
use crate::identifiers::InstrumentIdView;
use crate::identifiers::has_content;
use crate::identifiers::instrument_error;
use crate::identifiers::is_last_dot;
use crate::identifiers::law_parsed_id_has_its_text;
use crate::identifiers::law_text_names_its_id;
use crate::identifiers::parsed_instrument_id;
use crate::names::in_order;
use crate::names::law_names_are_in_byte_order;
use crate::ordering::bytes_less;
use crate::ordering::law_bytes_less_is_irreflexive;
use crate::ordering::law_bytes_less_is_transitive;
use crate::plans::ExchangePlanView;
use crate::plans::have_finite_instruments;
use crate::plans::planned_exchanges;
use crate::results::all_or_first_error;
use crate::results::law_the_first_error_comes_through;
use crate::results::lemma_no_error;
use crate::results::lemma_values_are_results;
use crate::sequences::lemma_flat_map_concat;
use crate::sequences::lemma_flat_map_holds;
use crate::sequences::lemma_flat_map_one;

verus! {

/// What a plan asks for at the start: a subscription of an instrument exactly if
/// the instrument is one of the plan and the plan asks for that type of data,
/// and a request for each of the venues.
proof fn lemma_plan_start_holds(plan: SubscriptionPlanView, action: ActorActionView)
    ensures
        plan_start(plan).contains(action) <==> exists|k: int|
            0 <= k < plan.instrument_ids.len() && match action {
                ActorActionView::RequestInstruments { venue, client_id } => {
                    &&& venue == (#[trigger] plan.instrument_ids[k]).venue
                    &&& client_id == Some(plan.client_id)
                },
                ActorActionView::SubscribeBookDeltas {
                    instrument_id,
                    book_type,
                    client_id,
                    managed,
                } => {
                    &&& plan.subscribe_book_deltas
                    &&& instrument_id == plan.instrument_ids[k]
                    &&& client_id == plan.client_id
                    &&& book_type == BookType::L2Mbp
                    &&& managed
                },
                ActorActionView::SubscribeQuotes { instrument_id, client_id } => {
                    &&& plan.subscribe_quotes
                    &&& instrument_id == plan.instrument_ids[k]
                    &&& client_id == plan.client_id
                },
                ActorActionView::SubscribeTrades { instrument_id, client_id } => {
                    &&& plan.subscribe_trades
                    &&& instrument_id == plan.instrument_ids[k]
                    &&& client_id == plan.client_id
                },
                _ => false,
            },
{
    let requests = instrument_requests(plan, Some(plan.client_id));
    let of_id = |id: InstrumentIdView| subscribe_actions(plan, id);
    let subscriptions = plan_subscriptions(plan);
    let ids = plan.instrument_ids;
    lemma_flat_map_holds(ids, of_id, action);
    law_requests_are_for_the_venues(plan, Some(plan.client_id));
    lemma_either_holds(requests, subscriptions, action);
    if requests.contains(action) {
        let m = choose|m: int| 0 <= m < requests.len() && requests[m] == action;
        assert(requests[m] is RequestInstruments);
        assert(exists|k: int| 0 <= k < ids.len() && (#[trigger] ids[k]).venue == requests[m]->venue);
    }
    if let ActorActionView::RequestInstruments { venue, client_id } = action {
        if exists|k: int| 0 <= k < ids.len() && (#[trigger] ids[k]).venue == venue {
            if client_id == Some(plan.client_id) {
                assert(requests.contains(action));
            }
        }
    }
    if subscriptions.contains(action) {
        let k = choose|k: int| 0 <= k < ids.len() && of_id(#[trigger] ids[k]).contains(action);
        lemma_subscribe_actions_hold(plan, ids[k], action);
    }
    assert forall|k: int| 0 <= k < ids.len() implies (of_id(#[trigger] ids[k]).contains(action)
        ==> subscriptions.contains(action)) by {}
    assert forall|k: int| 0 <= k < ids.len() implies (subscribe_actions(
        plan,
        #[trigger] ids[k],
    ).contains(action) <==> is_subscribed(plan, ids[k], action)) by {
        lemma_subscribe_actions_hold(plan, ids[k], action);
    }
}

proof fn lemma_either_holds<A>(a: Seq<A>, b: Seq<A>, x: A)
    ensures
        (a + b).contains(x) <==> a.contains(x) || b.contains(x),
{
    let all = a + b;
    if a.contains(x) {
        let i = choose|i: int| 0 <= i < a.len() && a[i] == x;
        assert(all[i] == x);
    }
    if b.contains(x) {
        let i = choose|i: int| 0 <= i < b.len() && b[i] == x;
        assert(all[a.len() + i] == x);
    }
    if all.contains(x) {
        let i = choose|i: int| 0 <= i < all.len() && all[i] == x;
        if i < a.len() {
            assert(a[i] == x);
        } else {
            assert(b[i - a.len()] == x);
        }
    }
}

spec fn is_subscribed(
    plan: SubscriptionPlanView,
    id: InstrumentIdView,
    action: ActorActionView,
) -> bool {
    match action {
        ActorActionView::SubscribeBookDeltas { instrument_id, book_type, client_id, managed } => {
            &&& plan.subscribe_book_deltas
            &&& instrument_id == id
            &&& client_id == plan.client_id
            &&& book_type == BookType::L2Mbp
            &&& managed
        },
        ActorActionView::SubscribeQuotes { instrument_id, client_id } => {
            plan.subscribe_quotes && instrument_id == id && client_id == plan.client_id
        },
        ActorActionView::SubscribeTrades { instrument_id, client_id } => {
            plan.subscribe_trades && instrument_id == id && client_id == plan.client_id
        },
        _ => false,
    }
}

proof fn lemma_subscribe_actions_hold(
    plan: SubscriptionPlanView,
    id: InstrumentIdView,
    action: ActorActionView,
)
    ensures
        subscribe_actions(plan, id).contains(action) <==> is_subscribed(plan, id, action),
{
    let actions = subscribe_actions(plan, id);
    let books = if plan.subscribe_book_deltas {
        1int
    } else {
        0
    };
    let quotes = if plan.subscribe_quotes {
        1int
    } else {
        0
    };
    if is_subscribed(plan, id, action) {
        match action {
            ActorActionView::SubscribeBookDeltas { .. } => {
                assert(actions[0] == action);
            },
            ActorActionView::SubscribeQuotes { .. } => {
                assert(actions[books] == action);
            },
            _ => {
                assert(actions[books + quotes] == action);
            },
        }
    }
}

/// The requests for the instruments of a plan are one for each venue among the
/// instruments, at the given client, in the order of the venues' bytes.
pub proof fn law_requests_are_for_the_venues(
    plan: SubscriptionPlanView,
    client_id: Option<Seq<char>>,
)
    ensures
        forall|m: int|
            0 <= m < instrument_requests(plan, client_id).len() ==> match #[trigger] instrument_requests(
                plan,
                client_id,
            )[m] {
                ActorActionView::RequestInstruments { venue, client_id: at } => {
                    &&& at == client_id
                    &&& exists|k: int|
                        0 <= k < plan.instrument_ids.len() && (
                        #[trigger] plan.instrument_ids[k]).venue == venue
                },
                _ => false,
            },
        forall|k: int|
            0 <= k < plan.instrument_ids.len() ==> instrument_requests(plan, client_id).contains(
                ActorActionView::RequestInstruments {
                    venue: (#[trigger] plan.instrument_ids[k]).venue,
                    client_id,
                },
            ),
        forall|m: int, n: int|
            0 <= m < n < instrument_requests(plan, client_id).len() ==> bytes_less(
                encode_utf8((#[trigger] instrument_requests(plan, client_id)[m])->venue),
                encode_utf8((#[trigger] instrument_requests(plan, client_id)[n])->venue),
            ),
{
    let requests = instrument_requests(plan, client_id);
    let names = plan.instrument_ids.map_values(|id: InstrumentIdView| id.venue);
    let ordered = in_order(venues(plan));
    vstd::seq_lib::seq_to_set_is_finite(names);
    law_names_are_in_byte_order(venues(plan));
    assert forall|m: int| 0 <= m < requests.len() implies match #[trigger] requests[m] {
        ActorActionView::RequestInstruments { venue, client_id: at } => {
            &&& at == client_id
            &&& exists|k: int|
                0 <= k < plan.instrument_ids.len() && (#[trigger] plan.instrument_ids[k]).venue
                    == venue
        },
        _ => false,
    } by {
        assert(ordered.contains(ordered[m]));
        assert(venues(plan).contains(ordered[m]));
        let k = choose|k: int| 0 <= k < names.len() && names[k] == ordered[m];
        assert(plan.instrument_ids[k].venue == ordered[m]);
    }
    assert forall|k: int| 0 <= k < plan.instrument_ids.len() implies requests.contains(
        ActorActionView::RequestInstruments {
            venue: (#[trigger] plan.instrument_ids[k]).venue,
            client_id,
        },
    ) by {
        let venue = plan.instrument_ids[k].venue;
        assert(names[k] == venue);
        assert(venues(plan).contains(venue));
        assert(ordered.contains(venue));
        let m = choose|m: int| 0 <= m < ordered.len() && ordered[m] == venue;
        assert(requests[m] == ActorActionView::RequestInstruments { venue, client_id });
    }
    assert forall|m: int, n: int| 0 <= m < n < requests.len() implies bytes_less(
        encode_utf8((#[trigger] requests[m])->venue),
        encode_utf8((#[trigger] requests[n])->venue),
    ) by {
        assert(bytes_less(encode_utf8(ordered[m]), encode_utf8(ordered[n])));
    }
}

/// At the start, the actor subscribes to a type of data of an instrument at a
/// client exactly if a plan of that client has the instrument and asks for that
/// type of data, to book deltas with a managed book of level two. It requests
/// the instruments of a venue from a client exactly if a plan of that client
/// has an instrument of the venue. It does nothing else.
pub proof fn law_the_start_asks_for_what_is_planned(
    plans: Seq<SubscriptionPlanView>,
    id: InstrumentIdView,
    book_type: BookType,
    managed: bool,
    venue: Seq<char>,
    client_id: Seq<char>,
    at: Option<Seq<char>>,
)
    ensures
        start_actions(plans).contains(
            ActorActionView::SubscribeBookDeltas {
                instrument_id: id,
                book_type,
                client_id,
                managed,
            },
        ) <==> {
            &&& book_type == BookType::L2Mbp
            &&& managed
            &&& exists|p: int|
                {
                    &&& 0 <= p < plans.len()
                    &&& (#[trigger] plans[p]).subscribe_book_deltas
                    &&& plans[p].client_id == client_id
                    &&& plans[p].instrument_ids.contains(id)
                }
        },
        start_actions(plans).contains(
            ActorActionView::SubscribeQuotes { instrument_id: id, client_id },
        ) <==> exists|p: int|
            {
                &&& 0 <= p < plans.len()
                &&& (#[trigger] plans[p]).subscribe_quotes
                &&& plans[p].client_id == client_id
                &&& plans[p].instrument_ids.contains(id)
            },
        start_actions(plans).contains(
            ActorActionView::SubscribeTrades { instrument_id: id, client_id },
        ) <==> exists|p: int|
            {
                &&& 0 <= p < plans.len()
                &&& (#[trigger] plans[p]).subscribe_trades
                &&& plans[p].client_id == client_id
                &&& plans[p].instrument_ids.contains(id)
            },
        start_actions(plans).contains(
            ActorActionView::RequestInstruments { venue, client_id: at },
        ) <==> exists|p: int, k: int|
            {
                &&& 0 <= p < plans.len()
                &&& at == Some(plans[p].client_id)
                &&& 0 <= k < plans[p].instrument_ids.len()
                &&& (#[trigger] plans[p].instrument_ids[k]).venue == venue
            },
        forall|m: int|
            0 <= m < start_actions(plans).len() ==> match #[trigger] start_actions(plans)[m] {
                ActorActionView::RequestInstruments { .. } => true,
                ActorActionView::SubscribeBookDeltas { .. } => true,
                ActorActionView::SubscribeQuotes { .. } => true,
                ActorActionView::SubscribeTrades { .. } => true,
                _ => false,
            },
{
    let book = ActorActionView::SubscribeBookDeltas {
        instrument_id: id,
        book_type,
        client_id,
        managed,
    };
    let quotes = ActorActionView::SubscribeQuotes { instrument_id: id, client_id };
    let trades = ActorActionView::SubscribeTrades { instrument_id: id, client_id };
    let request = ActorActionView::RequestInstruments { venue, client_id: at };
    let of_plan = |plan: SubscriptionPlanView| plan_start(plan);
    lemma_flat_map_holds(plans, of_plan, book);
    lemma_flat_map_holds(plans, of_plan, quotes);
    lemma_flat_map_holds(plans, of_plan, trades);
    lemma_flat_map_holds(plans, of_plan, request);
    assert forall|p: int| 0 <= p < plans.len() implies {
        let plan = #[trigger] plans[p];
        let has = plan.instrument_ids.contains(id) && plan.client_id == client_id;
        &&& of_plan(plan).contains(book) <==> has && plan.subscribe_book_deltas && book_type
            == BookType::L2Mbp && managed
        &&& of_plan(plan).contains(quotes) <==> has && plan.subscribe_quotes
        &&& of_plan(plan).contains(trades) <==> has && plan.subscribe_trades
        &&& of_plan(plan).contains(request) <==> at == Some(plan.client_id) && exists|k: int|
            0 <= k < plan.instrument_ids.len() && (#[trigger] plan.instrument_ids[k]).venue == venue
    } by {
        let plan = plans[p];
        lemma_plan_start_holds(plan, book);
        lemma_plan_start_holds(plan, quotes);
        lemma_plan_start_holds(plan, trades);
        lemma_plan_start_holds(plan, request);
        if plan.instrument_ids.contains(id) {
            let k = choose|k: int|
                0 <= k < plan.instrument_ids.len() && plan.instrument_ids[k] == id;
            assert(plan.instrument_ids[k] == id);
        }
    }
    if exists|p: int, k: int|
        {
            &&& 0 <= p < plans.len()
            &&& at == Some(plans[p].client_id)
            &&& 0 <= k < plans[p].instrument_ids.len()
            &&& (#[trigger] plans[p].instrument_ids[k]).venue == venue
        } {
        let (p, k) = choose|p: int, k: int|
            {
                &&& 0 <= p < plans.len()
                &&& at == Some(plans[p].client_id)
                &&& 0 <= k < plans[p].instrument_ids.len()
                &&& (#[trigger] plans[p].instrument_ids[k]).venue == venue
            };
        assert(of_plan(plans[p]).contains(request));
    }
    assert forall|m: int| 0 <= m < start_actions(plans).len() implies match #[trigger] start_actions(
        plans,
    )[m] {
        ActorActionView::RequestInstruments { .. } => true,
        ActorActionView::SubscribeBookDeltas { .. } => true,
        ActorActionView::SubscribeQuotes { .. } => true,
        ActorActionView::SubscribeTrades { .. } => true,
        _ => false,
    } by {
        let action = start_actions(plans)[m];
        assert(start_actions(plans).contains(action));
        lemma_flat_map_holds(plans, of_plan, action);
        let p = choose|p: int| 0 <= p < plans.len() && of_plan(#[trigger] plans[p]).contains(action);
        lemma_plan_start_holds(plans[p], action);
    }
}

/// The plans are started one after the other. A plan first requests the
/// instruments of its venues, and then subscribes instrument by instrument: to
/// book deltas, to quotes and to trades, each once, as far as it asks for them.
pub proof fn law_the_start_goes_plan_by_plan(
    a: Seq<SubscriptionPlanView>,
    b: Seq<SubscriptionPlanView>,
    plan: SubscriptionPlanView,
    id: InstrumentIdView,
)
    ensures
        start_actions(a + b) == start_actions(a) + start_actions(b),
        start_actions(Seq::empty()) == Seq::<ActorActionView>::empty(),
        ({
            let subscriptions = |plan: SubscriptionPlanView|
                start_actions(seq![plan]).skip(
                    instrument_requests(plan, Some(plan.client_id)).len() as int,
                );
            let none = SubscriptionPlanView { instrument_ids: Seq::empty(), ..plan };
            let longer = SubscriptionPlanView {
                instrument_ids: plan.instrument_ids.push(id),
                ..plan
            };
            let book_deltas = ActorActionView::SubscribeBookDeltas {
                instrument_id: id,
                book_type: BookType::L2Mbp,
                client_id: plan.client_id,
                managed: true,
            };
            let quotes = ActorActionView::SubscribeQuotes {
                instrument_id: id,
                client_id: plan.client_id,
            };
            let trades = ActorActionView::SubscribeTrades {
                instrument_id: id,
                client_id: plan.client_id,
            };
            let one = |asked: bool, action: ActorActionView|
                if asked {
                    seq![action]
                } else {
                    Seq::<ActorActionView>::empty()
                };
            &&& instrument_requests(plan, Some(plan.client_id)).is_prefix_of(
                start_actions(seq![plan]),
            )
            &&& start_actions(seq![none]) == Seq::<ActorActionView>::empty()
            &&& subscriptions(longer) == subscriptions(plan) + one(
                plan.subscribe_book_deltas,
                book_deltas,
            ) + one(plan.subscribe_quotes, quotes) + one(plan.subscribe_trades, trades)
        }),
{
    let of_plan = |plan: SubscriptionPlanView| plan_start(plan);
    lemma_flat_map_concat(a, b, of_plan);
    let none = SubscriptionPlanView { instrument_ids: Seq::empty(), ..plan };
    let longer = SubscriptionPlanView { instrument_ids: plan.instrument_ids.push(id), ..plan };
    lemma_flat_map_one(none, of_plan);
    lemma_flat_map_one(plan, of_plan);
    lemma_flat_map_one(longer, of_plan);
    lemma_start_of_plan(plan);
    lemma_start_of_plan(longer);
    let of_id = |id: InstrumentIdView| subscribe_actions(plan, id);
    let of_longer = |id: InstrumentIdView| subscribe_actions(longer, id);
    assert(of_id =~= of_longer);
    lemma_flat_map_concat(plan.instrument_ids, seq![id], of_id);
    lemma_flat_map_one(id, of_id);
    assert(plan.instrument_ids.push(id) =~= plan.instrument_ids + seq![id]);
    assert(plan_subscriptions(longer) =~= plan_subscriptions(plan) + subscribe_actions(plan, id));
    law_requests_are_for_the_venues(none, Some(none.client_id));
    let requests = instrument_requests(none, Some(none.client_id));
    if requests.len() > 0 {
        assert(requests[0] is RequestInstruments);
    }
    assert(requests =~= Seq::empty());
    lemma_flat_map_one(id, |id: InstrumentIdView| subscribe_actions(none, id));
    assert(plan_start(none) =~= Seq::empty());
    let books = if plan.subscribe_book_deltas {
        seq![
            ActorActionView::SubscribeBookDeltas {
                instrument_id: id,
                book_type: BookType::L2Mbp,
                client_id: plan.client_id,
                managed: true,
            },
        ]
    } else {
        Seq::empty()
    };
    let quotes = if plan.subscribe_quotes {
        seq![ActorActionView::SubscribeQuotes { instrument_id: id, client_id: plan.client_id }]
    } else {
        Seq::empty()
    };
    let trades = if plan.subscribe_trades {
        seq![ActorActionView::SubscribeTrades { instrument_id: id, client_id: plan.client_id }]
    } else {
        Seq::empty()
    };
    assert(subscribe_actions(plan, id) =~= books + quotes + trades);
    assert(plan_subscriptions(plan) + (books + quotes + trades) =~= plan_subscriptions(plan) + books
        + quotes + trades);
}

proof fn lemma_start_of_plan(plan: SubscriptionPlanView)
    ensures
        ({
            let requests = instrument_requests(plan, Some(plan.client_id));
            &&& requests.is_prefix_of(plan_start(plan))
            &&& plan_start(plan).skip(requests.len() as int) == plan_subscriptions(plan)
        }),
{
    let requests = instrument_requests(plan, Some(plan.client_id));
    let all = plan_start(plan);
    assert(all =~= requests + plan_subscriptions(plan));
    assert(requests =~= all.subrange(0, requests.len() as int));
    assert(all.skip(requests.len() as int) =~= plan_subscriptions(plan));
}

/// At the stop, the actor ends a subscription of an instrument at a client
/// exactly if a plan of that client has the instrument and asks for that type of
/// data. It does nothing else.
pub proof fn law_the_stop_ends_what_is_planned(
    plans: Seq<SubscriptionPlanView>,
    id: InstrumentIdView,
    client_id: Seq<char>,
)
    ensures
        stop_actions(plans).contains(
            ActorActionView::UnsubscribeBookDeltas { instrument_id: id, client_id },
        ) <==> exists|p: int|
            {
                &&& 0 <= p < plans.len()
                &&& (#[trigger] plans[p]).subscribe_book_deltas
                &&& plans[p].client_id == client_id
                &&& plans[p].instrument_ids.contains(id)
            },
        stop_actions(plans).contains(
            ActorActionView::UnsubscribeQuotes { instrument_id: id, client_id },
        ) <==> exists|p: int|
            {
                &&& 0 <= p < plans.len()
                &&& (#[trigger] plans[p]).subscribe_quotes
                &&& plans[p].client_id == client_id
                &&& plans[p].instrument_ids.contains(id)
            },
        stop_actions(plans).contains(
            ActorActionView::UnsubscribeTrades { instrument_id: id, client_id },
        ) <==> exists|p: int|
            {
                &&& 0 <= p < plans.len()
                &&& (#[trigger] plans[p]).subscribe_trades
                &&& plans[p].client_id == client_id
                &&& plans[p].instrument_ids.contains(id)
            },
        forall|m: int|
            0 <= m < stop_actions(plans).len() ==> match #[trigger] stop_actions(plans)[m] {
                ActorActionView::UnsubscribeBookDeltas { .. } => true,
                ActorActionView::UnsubscribeQuotes { .. } => true,
                ActorActionView::UnsubscribeTrades { .. } => true,
                _ => false,
            },
{
    let book = ActorActionView::UnsubscribeBookDeltas { instrument_id: id, client_id };
    let quotes = ActorActionView::UnsubscribeQuotes { instrument_id: id, client_id };
    let trades = ActorActionView::UnsubscribeTrades { instrument_id: id, client_id };
    let of_plan = |plan: SubscriptionPlanView| plan_stop(plan);
    lemma_flat_map_holds(plans, of_plan, book);
    lemma_flat_map_holds(plans, of_plan, quotes);
    lemma_flat_map_holds(plans, of_plan, trades);
    assert forall|p: int| 0 <= p < plans.len() implies {
        let plan = #[trigger] plans[p];
        let has = plan.instrument_ids.contains(id) && plan.client_id == client_id;
        &&& of_plan(plan).contains(book) <==> has && plan.subscribe_book_deltas
        &&& of_plan(plan).contains(quotes) <==> has && plan.subscribe_quotes
        &&& of_plan(plan).contains(trades) <==> has && plan.subscribe_trades
    } by {
        lemma_plan_stop_holds(plans[p], book);
        lemma_plan_stop_holds(plans[p], quotes);
        lemma_plan_stop_holds(plans[p], trades);
    }
    assert forall|m: int| 0 <= m < stop_actions(plans).len() implies match #[trigger] stop_actions(
        plans,
    )[m] {
        ActorActionView::UnsubscribeBookDeltas { .. } => true,
        ActorActionView::UnsubscribeQuotes { .. } => true,
        ActorActionView::UnsubscribeTrades { .. } => true,
        _ => false,
    } by {
        let action = stop_actions(plans)[m];
        assert(stop_actions(plans).contains(action));
        lemma_flat_map_holds(plans, of_plan, action);
        let p = choose|p: int| 0 <= p < plans.len() && of_plan(#[trigger] plans[p]).contains(action);
        lemma_plan_stop_holds(plans[p], action);
    }
}

/// Whether a plan ends a subscription with `action`.
spec fn is_ended(plan: SubscriptionPlanView, action: ActorActionView) -> bool {
    match action {
        ActorActionView::UnsubscribeBookDeltas { instrument_id, client_id } => {
            &&& plan.subscribe_book_deltas
            &&& plan.instrument_ids.contains(instrument_id)
            &&& client_id == plan.client_id
        },
        ActorActionView::UnsubscribeQuotes { instrument_id, client_id } => {
            &&& plan.subscribe_quotes
            &&& plan.instrument_ids.contains(instrument_id)
            &&& client_id == plan.client_id
        },
        ActorActionView::UnsubscribeTrades { instrument_id, client_id } => {
            &&& plan.subscribe_trades
            &&& plan.instrument_ids.contains(instrument_id)
            &&& client_id == plan.client_id
        },
        _ => false,
    }
}

proof fn lemma_plan_stop_holds(plan: SubscriptionPlanView, action: ActorActionView)
    ensures
        plan_stop(plan).contains(action) <==> is_ended(plan, action),
{
    let ids = plan.instrument_ids;
    let of_id = |id: InstrumentIdView| unsubscribe_actions(plan, id);
    lemma_flat_map_holds(ids, of_id, action);
    if plan_stop(plan).contains(action) {
        let k = choose|k: int| 0 <= k < ids.len() && of_id(#[trigger] ids[k]).contains(action);
        assert(ids.contains(ids[k]));
    }
    if is_ended(plan, action) {
        let id = match action {
            ActorActionView::UnsubscribeBookDeltas { instrument_id, .. } => instrument_id,
            ActorActionView::UnsubscribeQuotes { instrument_id, .. } => instrument_id,
            ActorActionView::UnsubscribeTrades { instrument_id, .. } => instrument_id,
            _ => arbitrary(),
        };
        let k = choose|k: int| 0 <= k < ids.len() && ids[k] == id;
        let actions = unsubscribe_actions(plan, id);
        let books = if plan.subscribe_book_deltas {
            1int
        } else {
            0
        };
        let quotes = if plan.subscribe_quotes {
            1int
        } else {
            0
        };
        match action {
            ActorActionView::UnsubscribeBookDeltas { .. } => {
                assert(actions[0] == action);
            },
            ActorActionView::UnsubscribeQuotes { .. } => {
                assert(actions[books] == action);
            },
            _ => {
                assert(actions[books + quotes] == action);
            },
        }
        assert(of_id(ids[k]).contains(action));
    }
}

/// The plans are stopped one after the other, each instrument by instrument:
/// book deltas, quotes and trades are ended, each once, as far as the plan asks
/// for them.
pub proof fn law_the_stop_goes_plan_by_plan(
    a: Seq<SubscriptionPlanView>,
    b: Seq<SubscriptionPlanView>,
    plan: SubscriptionPlanView,
    id: InstrumentIdView,
)
    ensures
        stop_actions(a + b) == stop_actions(a) + stop_actions(b),
        stop_actions(Seq::empty()) == Seq::<ActorActionView>::empty(),
        ({
            let none = SubscriptionPlanView { instrument_ids: Seq::empty(), ..plan };
            let longer = SubscriptionPlanView {
                instrument_ids: plan.instrument_ids.push(id),
                ..plan
            };
            let client_id = plan.client_id;
            let book_deltas = ActorActionView::UnsubscribeBookDeltas {
                instrument_id: id,
                client_id,
            };
            let quotes = ActorActionView::UnsubscribeQuotes { instrument_id: id, client_id };
            let trades = ActorActionView::UnsubscribeTrades { instrument_id: id, client_id };
            let one = |asked: bool, action: ActorActionView|
                if asked {
                    seq![action]
                } else {
                    Seq::<ActorActionView>::empty()
                };
            &&& stop_actions(seq![none]) == Seq::<ActorActionView>::empty()
            &&& stop_actions(seq![longer]) == stop_actions(seq![plan]) + one(
                plan.subscribe_book_deltas,
                book_deltas,
            ) + one(plan.subscribe_quotes, quotes) + one(plan.subscribe_trades, trades)
        }),
{
    let of_plan = |plan: SubscriptionPlanView| plan_stop(plan);
    lemma_flat_map_concat(a, b, of_plan);
    let none = SubscriptionPlanView { instrument_ids: Seq::empty(), ..plan };
    let longer = SubscriptionPlanView { instrument_ids: plan.instrument_ids.push(id), ..plan };
    lemma_flat_map_one(none, of_plan);
    lemma_flat_map_one(plan, of_plan);
    lemma_flat_map_one(longer, of_plan);
    let of_id = |id: InstrumentIdView| unsubscribe_actions(plan, id);
    let of_longer = |id: InstrumentIdView| unsubscribe_actions(longer, id);
    assert(of_id =~= of_longer);
    lemma_flat_map_concat(plan.instrument_ids, seq![id], of_id);
    lemma_flat_map_one(id, of_id);
    assert(plan.instrument_ids.push(id) =~= plan.instrument_ids + seq![id]);
    lemma_flat_map_one(id, |id: InstrumentIdView| unsubscribe_actions(none, id));
    let client_id = plan.client_id;
    let books = if plan.subscribe_book_deltas {
        seq![ActorActionView::UnsubscribeBookDeltas { instrument_id: id, client_id }]
    } else {
        Seq::empty()
    };
    let quotes = if plan.subscribe_quotes {
        seq![ActorActionView::UnsubscribeQuotes { instrument_id: id, client_id }]
    } else {
        Seq::empty()
    };
    let trades = if plan.subscribe_trades {
        seq![ActorActionView::UnsubscribeTrades { instrument_id: id, client_id }]
    } else {
        Seq::empty()
    };
    assert(unsubscribe_actions(plan, id) =~= books + quotes + trades);
    assert(plan_stop(plan) + (books + quotes + trades) =~= plan_stop(plan) + books + quotes
        + trades);
}

/// The names of the clients.
pub proof fn law_the_names_of_the_clients()
    ensures
        client_name(Exchange::Binance) == "BINANCE"@,
        client_name(Exchange::Hyperliquid) == "HYPERLIQUID"@,
        client_name(Exchange::Lighter) == "LIGHTER"@,
{
}

/// A text names an instrument exactly if it is the symbol, a `.` and the venue,
/// with no `.` in the venue, only ASCII in it, and more than white space in both.
pub proof fn law_what_texts_name_instruments(text: Seq<char>, id: InstrumentIdView)
    ensures
        parsed_instrument_id(text) == Some(id) <==> {
            &&& text == id.symbol + seq!['.'] + id.venue
            &&& !id.venue.contains('.')
            &&& is_ascii_chars(id.venue)
            &&& has_content(id.symbol)
            &&& has_content(id.venue)
        },
{
    if parsed_instrument_id(text) == Some(id) {
        law_parsed_id_has_its_text(text);
        let i = choose|i: int| is_last_dot(text, i);
        if id.venue.contains('.') {
            let j = choose|j: int| 0 <= j < id.venue.len() && id.venue[j] == '.';
            assert(text[i + 1 + j] == '.');
        }
        assert(text =~= id.symbol + seq!['.'] + id.venue);
    }
    if text == id.symbol + seq!['.'] + id.venue && !id.venue.contains('.') && is_ascii_chars(
        id.venue,
    ) && has_content(id.symbol) && has_content(id.venue) {
        law_text_names_its_id(id);
        assert(text =~= id.symbol.push('.') + id.venue);
    }
}

/// What is planned for the plan of an exchange: a plan at its client, with its
/// data types, and with its instruments in the order of the bytes of their
/// texts, each once.
spec fn is_plan_of(
    planned: SubscriptionPlanView,
    client: Seq<char>,
    plan: ExchangePlanView,
) -> bool {
    let text = |k: int|
        planned.instrument_ids[k].symbol + seq!['.'] + planned.instrument_ids[k].venue;
    &&& planned.client_id == client
    &&& planned.subscribe_book_deltas == plan.subscribe_book_deltas
    &&& planned.subscribe_quotes == plan.subscribe_quotes
    &&& planned.subscribe_trades == plan.subscribe_trades
    &&& planned.instrument_ids.len() == plan.instruments.len()
    &&& forall|k: int|
        0 <= k < planned.instrument_ids.len() ==> plan.instruments.contains(#[trigger] text(k))
            && parsed_instrument_id(text(k)) == Some(planned.instrument_ids[k])
    &&& forall|k: int, m: int|
        0 <= k < m < planned.instrument_ids.len() ==> bytes_less(
            encode_utf8(#[trigger] text(k)),
            encode_utf8(#[trigger] text(m)),
        )
}

proof fn lemma_plan_result(exchange: Exchange, plan: ExchangePlanView)
    requires
        plan.instruments.finite(),
    ensures
        match plan_result(exchange, plan) {
            Ok(planned) => is_plan_of(planned, client_name(exchange), plan),
            Err(name) => {
                &&& plan.instruments.contains(name)
                &&& parsed_instrument_id(name) is None
                &&& forall|other: Seq<char>| #[trigger]
                    plan.instruments.contains(other) && bytes_less(
                        encode_utf8(other),
                        encode_utf8(name),
                    ) ==> parsed_instrument_id(other) is Some
            },
        },
{
    let names = in_order(plan.instruments);
    let found = instrument_results(names);
    law_names_are_in_byte_order(plan.instruments);
    lemma_no_error(found);
    lemma_values_are_results(found);
    if all_or_first_error(found) is Ok {
        let planned = plan_result(exchange, plan)->Ok_0;
        let ids = planned.instrument_ids;
        let text = |k: int| ids[k].symbol + seq!['.'] + ids[k].venue;
        assert forall|k: int| 0 <= k < ids.len() implies #[trigger] text(k) == names[k]
            && parsed_instrument_id(names[k]) == Some(ids[k]) && plan.instruments.contains(
            names[k],
        ) by {
            assert(found[k] == Ok::<InstrumentIdView, Seq<char>>(ids[k]));
            assert(found[k] == instrument_result(names[k]));
            law_what_texts_name_instruments(names[k], ids[k]);
            assert(names.contains(names[k]));
        }
        assert(is_plan_of(planned, client_name(exchange), plan)) by {
            assert forall|k: int, m: int| 0 <= k < m < ids.len() implies bytes_less(
                encode_utf8(#[trigger] text(k)),
                encode_utf8(#[trigger] text(m)),
            ) by {
                assert(bytes_less(encode_utf8(names[k]), encode_utf8(names[m])));
            }
        }
    } else {
        let k = lemma_first_error(found, 0);
        law_the_first_error_comes_through(found, k);
        let name = names[k];
        assert(found[k] == instrument_result(name));
        assert(names.contains(name));
        assert(plan.instruments.contains(name));
        assert forall|other: Seq<char>| #[trigger]
            plan.instruments.contains(other) && bytes_less(
                encode_utf8(other),
                encode_utf8(name),
            ) implies parsed_instrument_id(other) is Some by {
            assert(names.contains(other));
            let j = choose|j: int| 0 <= j < names.len() && names[j] == other;
            law_bytes_less_is_irreflexive(encode_utf8(name));
            if j > k {
                assert(bytes_less(encode_utf8(names[k]), encode_utf8(names[j])));
                law_bytes_less_is_transitive(
                    encode_utf8(name),
                    encode_utf8(other),
                    encode_utf8(name),
                );
            }
            assert(j < k);
            assert(found[j] is Ok);
            assert(found[j] == instrument_result(other));
        }
    }
}

/// Finds the first error from `from` on.
proof fn lemma_first_error<T, E>(results: Seq<Result<T, E>>, from: int) -> (k: int)
    requires
        0 <= from <= results.len(),
        forall|i: int| 0 <= i < from ==> (#[trigger] results[i]) is Ok,
        exists|i: int| 0 <= i < results.len() && (#[trigger] results[i]) is Err,
    ensures
        0 <= k < results.len(),
        results[k] is Err,
        forall|i: int| 0 <= i < k ==> (#[trigger] results[i]) is Ok,
    decreases results.len() - from,
{
    if from < results.len() && results[from] is Err {
        from
    } else {
        let i = choose|i: int| 0 <= i < results.len() && (#[trigger] results[i]) is Err;
        assert(from < results.len());
        lemma_first_error(results, from + 1)
    }
}

/// What is subscribed to are the plans of the exchanges, one for each, Binance
/// before Hyperliquid before Lighter: at the client of the exchange, with its
/// data types, and with all of its instruments, each once, in the order of the
/// bytes of their texts.
pub proof fn law_each_plan_is_subscribed_to(
    plans: Map<Exchange, ExchangePlanView>,
    planned: Seq<SubscriptionPlanView>,
)
    requires
        have_finite_instruments(plans),
        planned_subscriptions(plans) == Ok::<_, Seq<char>>(planned),
    ensures
        ({
            let client = |exchange: Exchange|
                match exchange {
                    Exchange::Binance => "BINANCE"@,
                    Exchange::Hyperliquid => "HYPERLIQUID"@,
                    Exchange::Lighter => "LIGHTER"@,
                };
            &&& planned.len() == planned_exchanges(plans).len()
            &&& forall|i: int|
                0 <= i < planned.len() ==> {
                    let of = #[trigger] planned_exchanges(plans)[i];
                    let text = |k: int|
                        planned[i].instrument_ids[k].symbol + seq!['.']
                            + planned[i].instrument_ids[k].venue;
                    &&& plans.dom().contains(of)
                    &&& planned[i].client_id == client(of)
                    &&& planned[i].subscribe_book_deltas == plans[of].subscribe_book_deltas
                    &&& planned[i].subscribe_quotes == plans[of].subscribe_quotes
                    &&& planned[i].subscribe_trades == plans[of].subscribe_trades
                    &&& planned[i].instrument_ids.len() == plans[of].instruments.len()
                    &&& forall|k: int|
                        0 <= k < planned[i].instrument_ids.len() ==> plans[of].instruments.contains(
                            #[trigger] text(k),
                        )
                    &&& forall|k: int, m: int|
                        0 <= k < m < planned[i].instrument_ids.len() ==> bytes_less(
                            encode_utf8(#[trigger] text(k)),
                            encode_utf8(#[trigger] text(m)),
                        )
                }
        }),
{
    let exchanges = planned_exchanges(plans);
    let found = plan_results(plans, exchanges);
    lemma_values_are_results(found);
    law_planned_exchanges_are_in_order(plans);
    assert forall|i: int| 0 <= i < planned.len() implies plans.dom().contains(
        #[trigger] exchanges[i],
    ) && is_plan_of(planned[i], client_name(exchanges[i]), plans[exchanges[i]]) by {
        assert(exchanges.contains(exchanges[i]));
        assert(plans.dom().contains(exchanges[i]));
        assert(found[i] == Ok::<SubscriptionPlanView, Seq<char>>(planned[i]));
        assert(found[i] == plan_result(exchanges[i], plans[exchanges[i]]));
        lemma_plan_result(exchanges[i], plans[exchanges[i]]);
    }
}

/// Subscriptions are refused exactly if an instrument names none, and then for
/// the first such: of the first exchange that has one, the one whose bytes come
/// first.
pub proof fn law_why_nothing_is_subscribed_to(
    plans: Map<Exchange, ExchangePlanView>,
    name: Seq<char>,
)
    requires
        have_finite_instruments(plans),
    ensures
        planned_subscriptions(plans) is Err <==> exists|exchange: Exchange, other: Seq<char>|
            {
                &&& plans.dom().contains(exchange)
                &&& #[trigger] plans[exchange].instruments.contains(other)
                &&& parsed_instrument_id(other) is None
            },
        planned_subscriptions(plans) == Err::<Seq<SubscriptionPlanView>, _>(name) ==> exists|
            i: int,
        |
            {
                &&& 0 <= i < planned_exchanges(plans).len()
                &&& plans[#[trigger] planned_exchanges(plans)[i]].instruments.contains(name)
                &&& parsed_instrument_id(name) is None
                &&& forall|other: Seq<char>| #[trigger]
                    plans[planned_exchanges(plans)[i]].instruments.contains(other) && bytes_less(
                        encode_utf8(other),
                        encode_utf8(name),
                    ) ==> parsed_instrument_id(other) is Some
                &&& forall|j: int, other: Seq<char>|
                    0 <= j < i && #[trigger] plans[planned_exchanges(plans)[j]].instruments.contains(
                        other,
                    ) ==> parsed_instrument_id(other) is Some
            },
{
    let exchanges = planned_exchanges(plans);
    let found = plan_results(plans, exchanges);
    law_planned_exchanges_are_in_order(plans);
    lemma_no_error(found);
    crate::subscription_laws::law_plans_need_valid_instruments(plans);
    if planned_subscriptions(plans) is Err {
        let i = lemma_first_error(found, 0);
        law_the_first_error_comes_through(found, i);
        assert(exchanges.contains(exchanges[i]));
        assert(plans.dom().contains(exchanges[i]));
        assert(found[i] == plan_result(exchanges[i], plans[exchanges[i]]));
        lemma_plan_result(exchanges[i], plans[exchanges[i]]);
        let first = found[i]->Err_0;
        assert(plans[exchanges[i]].instruments.contains(first));
        assert forall|j: int, other: Seq<char>|
            0 <= j < i && #[trigger] plans[exchanges[j]].instruments.contains(
                other,
            ) implies parsed_instrument_id(other) is Some by {
            assert(exchanges.contains(exchanges[j]));
            assert(plans.dom().contains(exchanges[j]));
            assert(found[j] is Ok);
            assert(found[j] == plan_result(exchanges[j], plans[exchanges[j]]));
            let names = in_order(plans[exchanges[j]].instruments);
            law_names_are_in_byte_order(plans[exchanges[j]].instruments);
            assert(names.contains(other));
            let k = choose|k: int| 0 <= k < names.len() && names[k] == other;
            lemma_no_error(instrument_results(names));
            assert(instrument_results(names)[k] is Ok);
            assert(instrument_results(names)[k] == instrument_result(other));
        }
    }
}

/// A text of printing ASCII characters without quotes, apostrophes and
/// backslashes stands between quotes as it is. Any other is written with its
/// escapes.
pub proof fn law_plain_texts_are_quoted_as_they_are(text: Seq<char>)
    ensures
        quoted_text(text) == if forall|i: int|
            0 <= i < text.len() ==> ' ' <= (#[trigger] text[i]) <= '~' && text[i] != '"' && text[i]
                != '\'' && text[i] != '\\' {
            seq!['"'] + text + seq!['"']
        } else {
            debug_text(text)
        },
{
    if forall|i: int| 0 <= i < text.len() ==> is_plain_char(#[trigger] text[i]) {
        assert forall|i: int| 0 <= i < text.len() implies ' ' <= (#[trigger] text[i]) <= '~'
            && text[i] != '"' && text[i] != '\'' && text[i] != '\\' by {
            assert(is_plain_char(text[i]));
        }
    }
}

/// The views of plans and actions hold what these hold, one for one.
pub proof fn law_views_of_plans_and_actions(
    plans: Seq<SubscriptionPlan>,
    actions: Seq<ActorAction>,
    i: int,
    k: int,
)
    ensures
        plan_views(plans).len() == plans.len(),
        0 <= i < plans.len() ==> {
            let plan = plan_views(plans)[i];
            &&& plan.client_id == plans[i].client_id.value@
            &&& plan.subscribe_book_deltas == plans[i].subscribe_book_deltas
            &&& plan.subscribe_quotes == plans[i].subscribe_quotes
            &&& plan.subscribe_trades == plans[i].subscribe_trades
            &&& plan.instrument_ids.len() == plans[i].instrument_ids@.len()
            &&& 0 <= k < plan.instrument_ids.len() ==> {
                &&& plan.instrument_ids[k].symbol == plans[i].instrument_ids@[k].symbol@
                &&& plan.instrument_ids[k].venue == plans[i].instrument_ids@[k].venue@
            }
        },
        action_views(actions).len() == actions.len(),
        0 <= i < actions.len() ==> match (action_views(actions)[i], actions[i]) {
            (
                ActorActionView::RequestInstruments { venue, client_id },
                ActorAction::RequestInstruments { venue: at, client_id: client },
            ) => venue == at@ && match client {
                Some(client) => client_id == Some(client.value@),
                None => client_id is None,
            },
            (
                ActorActionView::SubscribeBookDeltas {
                    instrument_id,
                    book_type,
                    client_id,
                    managed,
                },
                ActorAction::SubscribeBookDeltas {
                    instrument_id: id,
                    book_type: kind,
                    client_id: client,
                    managed: kept,
                },
            ) => {
                &&& instrument_id.symbol == id.symbol@ && instrument_id.venue == id.venue@
                &&& client_id == client.value@
                &&& book_type == kind && managed == kept
            },
            (
                ActorActionView::SubscribeQuotes { instrument_id, client_id },
                ActorAction::SubscribeQuotes { instrument_id: id, client_id: client },
            ) => {
                &&& instrument_id.symbol == id.symbol@ && instrument_id.venue == id.venue@
                &&& client_id == client.value@
            },
            (
                ActorActionView::SubscribeTrades { instrument_id, client_id },
                ActorAction::SubscribeTrades { instrument_id: id, client_id: client },
            ) => {
                &&& instrument_id.symbol == id.symbol@ && instrument_id.venue == id.venue@
                &&& client_id == client.value@
            },
            (
                ActorActionView::UnsubscribeBookDeltas { instrument_id, client_id },
                ActorAction::UnsubscribeBookDeltas { instrument_id: id, client_id: client },
            ) => {
                &&& instrument_id.symbol == id.symbol@ && instrument_id.venue == id.venue@
                &&& client_id == client.value@
            },
            (
                ActorActionView::UnsubscribeQuotes { instrument_id, client_id },
                ActorAction::UnsubscribeQuotes { instrument_id: id, client_id: client },
            ) => {
                &&& instrument_id.symbol == id.symbol@ && instrument_id.venue == id.venue@
                &&& client_id == client.value@
            },
            (
                ActorActionView::UnsubscribeTrades { instrument_id, client_id },
                ActorAction::UnsubscribeTrades { instrument_id: id, client_id: client },
            ) => {
                &&& instrument_id.symbol == id.symbol@ && instrument_id.venue == id.venue@
                &&& client_id == client.value@
            },
            _ => false,
        },
{
}

/// An error about an instrument holds the text of the instrument, and the reason
/// that is given for that text.
pub proof fn law_what_plan_errors_hold(error: PlanError, instrument: Seq<char>)
    ensures
        error.is_about(instrument) <==> match error {
            PlanError::InvalidInstrumentId { instrument: text, source } => text@ == instrument
                && source@ == instrument_error(instrument),
        },
{
}

} // verus!
