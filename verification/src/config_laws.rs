//! What a configuration asks for, and which plans come of it.
use vstd::prelude::*;

use crate::config::ConfigErrorView;
use crate::config::DataType;
use crate::config::Exchange;
use crate::config::ExchangeSectionView;
use crate::config::Section;
use crate::config::SectionView;
use crate::config::SubscriptionRequest;
use crate::config::SubscriptionRequestView;
use crate::config::all_requests;
use crate::config::config_message;
use crate::config::data_type_of_key;
use crate::config::exchange_of_key;
use crate::config::exchange_request;
use crate::config::request_views;
use crate::config::section_requests;
use crate::config::section_views;
use crate::plans::ExchangePlanView;
use crate::plans::all_exchanges;
use crate::plans::asks;
use crate::plans::asks_for_instrument;
use crate::plans::asks_for_type;
use crate::plans::empty_plan;
use crate::plans::first_without_instruments;
use crate::plans::grouped;
use crate::plans::law_grouping_is_exact;
use crate::plans::planned;
use crate::plans::planned_exchanges;
use crate::plans::with_request;
use crate::results::all_or_first_error;
use crate::results::law_the_first_error_comes_through;
use crate::results::lemma_concat_results;
use crate::results::lemma_push_result;
use crate::results::lemma_values_are_results;
use crate::sequences::lemma_flat_map_concat;
use crate::sequences::lemma_flat_map_holds;
use crate::sequences::lemma_flat_map_one;

verus! {

/// The keys of a configuration, and nothing else, name data types and exchanges.
pub proof fn law_what_keys_name(key: Seq<char>)
    ensures
        exchange_of_key(key) == Some(Exchange::Binance) <==> key == "binance"@,
        exchange_of_key(key) == Some(Exchange::Hyperliquid) <==> key == "hyperliquid"@,
        exchange_of_key(key) == Some(Exchange::Lighter) <==> key == "lighter"@,
        data_type_of_key(key) == Some(DataType::BookDeltas) <==> key == "book_deltas"@,
        data_type_of_key(key) == Some(DataType::Quotes) <==> key == "quotes"@,
        data_type_of_key(key) == Some(DataType::Trades) <==> key == "trades"@,
{
    reveal_strlit("binance");
    reveal_strlit("hyperliquid");
    reveal_strlit("lighter");
    reveal_strlit("book_deltas");
    reveal_strlit("quotes");
    reveal_strlit("trades");
    assert("binance"@[0] == 'b' && "hyperliquid"@[0] == 'h' && "lighter"@[0] == 'l');
    assert("book_deltas"@[0] == 'b' && "quotes"@[0] == 'q' && "trades"@[0] == 't');
}

/// The requests of a configuration are the data types, exchanges and lists of
/// instruments that stand together in its sections, and no others.
pub proof fn law_requests_are_what_the_sections_hold(
    sections: Seq<SectionView>,
    requests: Seq<SubscriptionRequestView>,
    data_type: DataType,
    exchange: Exchange,
    instruments: Seq<Seq<char>>,
)
    requires
        all_or_first_error(all_requests(sections)) == Ok::<_, ConfigErrorView>(requests),
    ensures
        requests.contains(SubscriptionRequestView { data_type, exchange, instruments })
            <==> exists|i: int, j: int|
            {
                &&& 0 <= i < sections.len()
                &&& 0 <= j < sections[i].exchanges.len()
                &&& sections[i].data_type == match data_type {
                    DataType::BookDeltas => "book_deltas"@,
                    DataType::Quotes => "quotes"@,
                    DataType::Trades => "trades"@,
                }
                &&& (#[trigger] sections[i].exchanges[j]).exchange == match exchange {
                    Exchange::Binance => "binance"@,
                    Exchange::Hyperliquid => "hyperliquid"@,
                    Exchange::Lighter => "lighter"@,
                }
                &&& sections[i].exchanges[j].instruments == instruments
            },
{
    let request = SubscriptionRequestView { data_type, exchange, instruments };
    let found = all_requests(sections);
    let of_section = |section: SectionView| section_requests(section);
    let count = sections.len() as int;
    lemma_values_are_results(found);
    let x = Ok::<SubscriptionRequestView, ConfigErrorView>(request);
    lemma_flat_map_holds(sections, of_section, x);
    if requests.contains(request) {
        let m = choose|m: int| 0 <= m < requests.len() && requests[m] == request;
        assert(found[m] == x);
        let i = choose|i: int| 0 <= i < count && of_section(#[trigger] sections[i]).contains(x);
        let inner = section_requests(sections[i]);
        let j = choose|j: int| 0 <= j < inner.len() && inner[j] == x;
        law_what_keys_name(sections[i].data_type);
        law_what_keys_name(sections[i].exchanges[j].exchange);
        assert(data_type_of_key(sections[i].data_type) is Some);
        assert(inner[j] == exchange_request(
            data_type_of_key(sections[i].data_type)->0,
            sections[i].exchanges[j],
        ));
        assert(sections[i].exchanges[j].instruments == instruments);
    }
    if exists|i: int, j: int|
        {
            &&& 0 <= i < sections.len()
            &&& 0 <= j < sections[i].exchanges.len()
            &&& sections[i].data_type == match data_type {
                DataType::BookDeltas => "book_deltas"@,
                DataType::Quotes => "quotes"@,
                DataType::Trades => "trades"@,
            }
            &&& (#[trigger] sections[i].exchanges[j]).exchange == match exchange {
                Exchange::Binance => "binance"@,
                Exchange::Hyperliquid => "hyperliquid"@,
                Exchange::Lighter => "lighter"@,
            }
            &&& sections[i].exchanges[j].instruments == instruments
        } {
        let (i, j) = choose|i: int, j: int|
            {
                &&& 0 <= i < sections.len()
                &&& 0 <= j < sections[i].exchanges.len()
                &&& sections[i].data_type == match data_type {
                    DataType::BookDeltas => "book_deltas"@,
                    DataType::Quotes => "quotes"@,
                    DataType::Trades => "trades"@,
                }
                &&& (#[trigger] sections[i].exchanges[j]).exchange == match exchange {
                    Exchange::Binance => "binance"@,
                    Exchange::Hyperliquid => "hyperliquid"@,
                    Exchange::Lighter => "lighter"@,
                }
                &&& sections[i].exchanges[j].instruments == instruments
            };
        law_what_keys_name(sections[i].data_type);
        law_what_keys_name(sections[i].exchanges[j].exchange);
        let inner = section_requests(sections[i]);
        assert(inner[j] == x);
        assert(of_section(sections[i]).contains(x));
        let m = choose|m: int| 0 <= m < found.len() && found[m] == x;
        assert(requests[m] == request);
    }
}

/// Sections are read one after the other: what they ask for together is what
/// the first of them ask for and then what the others do, and an error in the
/// first of them is the error of all.
pub proof fn law_sections_are_read_in_their_order(a: Seq<SectionView>, b: Seq<SectionView>)
    ensures
        all_or_first_error(all_requests(a + b)) == match all_or_first_error(all_requests(a)) {
            Err(error) => Err(error),
            Ok(requests) => match all_or_first_error(all_requests(b)) {
                Err(error) => Err(error),
                Ok(more) => Ok(requests + more),
            },
        },
        all_or_first_error(all_requests(Seq::empty())) == Ok::<_, ConfigErrorView>(
            Seq::<SubscriptionRequestView>::empty(),
        ),
{
    let of_section = |section: SectionView| section_requests(section);
    lemma_flat_map_concat(a, b, of_section);
    lemma_concat_results(all_requests(a), all_requests(b));
    lemma_flat_map_one(arbitrary::<SectionView>(), of_section);
}

/// A section asks for one thing for each of its exchanges, in their order: the
/// data type of its key, the exchange of that key, and the instruments under
/// it. The first key that is not known is the error.
pub proof fn law_a_section_asks_for_each_of_its_exchanges(
    key: Seq<char>,
    exchanges: Seq<ExchangeSectionView>,
    last: ExchangeSectionView,
)
    ensures
        ({
            let known = key == "book_deltas"@ || key == "quotes"@ || key == "trades"@;
            let asked = |exchanges: Seq<ExchangeSectionView>|
                all_or_first_error(all_requests(seq![SectionView { data_type: key, exchanges }]));
            let data_type = if key == "book_deltas"@ {
                DataType::BookDeltas
            } else if key == "quotes"@ {
                DataType::Quotes
            } else {
                DataType::Trades
            };
            &&& !known ==> asked(exchanges) == Err::<Seq<SubscriptionRequestView>, _>(
                ConfigErrorView::UnknownDataType { key },
            )
            &&& known ==> asked(Seq::empty()) == Ok::<_, ConfigErrorView>(
                Seq::<SubscriptionRequestView>::empty(),
            )
            &&& known ==> asked(exchanges.push(last)) == match asked(exchanges) {
                Err(error) => Err(error),
                Ok(requests) => if last.exchange == "binance"@ {
                    Ok(
                        requests.push(
                            SubscriptionRequestView {
                                data_type,
                                exchange: Exchange::Binance,
                                instruments: last.instruments,
                            },
                        ),
                    )
                } else if last.exchange == "hyperliquid"@ {
                    Ok(
                        requests.push(
                            SubscriptionRequestView {
                                data_type,
                                exchange: Exchange::Hyperliquid,
                                instruments: last.instruments,
                            },
                        ),
                    )
                } else if last.exchange == "lighter"@ {
                    Ok(
                        requests.push(
                            SubscriptionRequestView {
                                data_type,
                                exchange: Exchange::Lighter,
                                instruments: last.instruments,
                            },
                        ),
                    )
                } else {
                    Err(ConfigErrorView::UnknownExchange { key: last.exchange })
                },
            }
        }),
{
    law_what_keys_name(key);
    law_what_keys_name(last.exchange);
    let none = Seq::<ExchangeSectionView>::empty();
    lemma_requests_of_one(SectionView { data_type: key, exchanges });
    lemma_requests_of_one(SectionView { data_type: key, exchanges: none });
    lemma_requests_of_one(SectionView { data_type: key, exchanges: exchanges.push(last) });
    match data_type_of_key(key) {
        None => {
            let error = Err::<SubscriptionRequestView, _>(ConfigErrorView::UnknownDataType { key });
            law_the_first_error_comes_through(seq![error], 0);
        },
        Some(data_type) => {
            let before = section_requests(SectionView { data_type: key, exchanges });
            let after = section_requests(
                SectionView { data_type: key, exchanges: exchanges.push(last) },
            );
            assert(after =~= before.push(exchange_request(data_type, last)));
            lemma_push_result(before, exchange_request(data_type, last));
            assert(section_requests(SectionView { data_type: key, exchanges: none })
                =~= Seq::empty());
        },
    }
}

proof fn lemma_requests_of_one(section: SectionView)
    ensures
        all_requests(seq![section]) == section_requests(section),
{
    lemma_flat_map_one(section, |section: SectionView| section_requests(section));
}

/// The plans of a configuration are exactly those that are asked for: an
/// exchange has one exactly if a request names it, with the instruments of all
/// requests that name it, and with the data types of these.
pub proof fn law_plans_are_what_is_asked(
    requests: Seq<SubscriptionRequestView>,
    plans: Map<Exchange, ExchangePlanView>,
    exchange: Exchange,
)
    requires
        planned(requests) == Ok::<_, ConfigErrorView>(plans),
    ensures
        plans.dom().contains(exchange) <==> exists|i: int|
            0 <= i < requests.len() && (#[trigger] requests[i]).exchange == exchange,
        plans.dom().contains(exchange) ==> {
            &&& forall|instrument: Seq<char>| #[trigger]
                plans[exchange].instruments.contains(instrument) <==> exists|i: int|
                    0 <= i < requests.len() && (#[trigger] requests[i]).exchange == exchange
                        && requests[i].instruments.contains(instrument)
            &&& plans[exchange].subscribe_book_deltas <==> exists|i: int|
                0 <= i < requests.len() && (#[trigger] requests[i]).exchange == exchange
                    && requests[i].data_type == DataType::BookDeltas
            &&& plans[exchange].subscribe_quotes <==> exists|i: int|
                0 <= i < requests.len() && (#[trigger] requests[i]).exchange == exchange
                    && requests[i].data_type == DataType::Quotes
            &&& plans[exchange].subscribe_trades <==> exists|i: int|
                0 <= i < requests.len() && (#[trigger] requests[i]).exchange == exchange
                    && requests[i].data_type == DataType::Trades
        },
{
    law_grouping_is_exact(requests, exchange);
    assert(plans == grouped(requests));
    if asks(requests, exchange) {
        assert forall|instrument: Seq<char>| #[trigger]
            plans[exchange].instruments.contains(instrument) <==> exists|i: int|
            0 <= i < requests.len() && (#[trigger] requests[i]).exchange == exchange
                && requests[i].instruments.contains(instrument) by {
            assert(plans[exchange].instruments.contains(instrument) == asks_for_instrument(
                requests,
                exchange,
                instrument,
            ));
        }
        assert(plans[exchange].subscribe_book_deltas == asks_for_type(
            requests,
            exchange,
            DataType::BookDeltas,
        ));
        assert(plans[exchange].subscribe_quotes == asks_for_type(
            requests,
            exchange,
            DataType::Quotes,
        ));
        assert(plans[exchange].subscribe_trades == asks_for_type(
            requests,
            exchange,
            DataType::Trades,
        ));
    }
}

/// A configuration has no plans exactly if it asks for nothing, or names an
/// exchange without an instrument under it. The first such exchange, Binance
/// before Hyperliquid before Lighter, is the error.
pub proof fn law_why_there_are_no_plans(
    requests: Seq<SubscriptionRequestView>,
    exchange: Exchange,
)
    ensures
        planned(requests) == Err::<Map<Exchange, ExchangePlanView>, _>(
            ConfigErrorView::NoSubscriptions,
        ) <==> requests.len() == 0,
        ({
            let is_empty = |exchange: Exchange|
                {
                    &&& exists|i: int|
                        0 <= i < requests.len() && (#[trigger] requests[i]).exchange == exchange
                    &&& forall|i: int|
                        0 <= i < requests.len() && (#[trigger] requests[i]).exchange == exchange
                            ==> requests[i].instruments.len() == 0
                };
            planned(requests) == Err::<Map<Exchange, ExchangePlanView>, _>(
                ConfigErrorView::NoInstruments { exchange },
            ) <==> is_empty(exchange) && match exchange {
                Exchange::Binance => true,
                Exchange::Hyperliquid => !is_empty(Exchange::Binance),
                Exchange::Lighter => !is_empty(Exchange::Binance) && !is_empty(
                    Exchange::Hyperliquid,
                ),
            }
        }),
        planned(requests) matches Err(error) ==> error is NoSubscriptions || error is NoInstruments,
{
    let plans = grouped(requests);
    let is_empty = |exchange: Exchange|
        {
            &&& exists|i: int|
                0 <= i < requests.len() && (#[trigger] requests[i]).exchange == exchange
            &&& forall|i: int|
                0 <= i < requests.len() && (#[trigger] requests[i]).exchange == exchange
                    ==> requests[i].instruments.len() == 0
        };
    let lacks = |exchange: Exchange|
        plans.dom().contains(exchange) && plans[exchange].instruments == Set::<Seq<char>>::empty();
    assert forall|exchange: Exchange| #[trigger] is_empty(exchange) == lacks(exchange) by {
        lemma_plan_without_instruments(requests, exchange);
    }
    lemma_first_of_three(plans);
    assert(is_empty(Exchange::Binance) == lacks(Exchange::Binance));
    assert(is_empty(Exchange::Hyperliquid) == lacks(Exchange::Hyperliquid));
    assert(is_empty(Exchange::Lighter) == lacks(Exchange::Lighter));
    if requests.len() == 0 {
        assert(!is_empty(exchange));
    }
}

proof fn lemma_plan_without_instruments(
    requests: Seq<SubscriptionRequestView>,
    exchange: Exchange,
)
    ensures
        ({
            let plans = grouped(requests);
            (plans.dom().contains(exchange) && plans[exchange].instruments == Set::<
                Seq<char>,
            >::empty()) <==> {
                &&& exists|i: int|
                    0 <= i < requests.len() && (#[trigger] requests[i]).exchange == exchange
                &&& forall|i: int|
                    0 <= i < requests.len() && (#[trigger] requests[i]).exchange == exchange
                        ==> requests[i].instruments.len() == 0
            }
        }),
{
    law_grouping_is_exact(requests, exchange);
    if asks(requests, exchange) {
        let instruments = grouped(requests)[exchange].instruments;
        if instruments == Set::<Seq<char>>::empty() {
            assert forall|i: int|
                0 <= i < requests.len() && (#[trigger] requests[i]).exchange
                    == exchange implies requests[i].instruments.len() == 0 by {
                if requests[i].instruments.len() > 0 {
                    let instrument = requests[i].instruments[0];
                    assert(requests[i].instruments.contains(instrument));
                    assert(asks_for_instrument(requests, exchange, instrument));
                    assert(instruments.contains(instrument));
                }
            }
        } else if forall|i: int|
            0 <= i < requests.len() && (#[trigger] requests[i]).exchange == exchange
                ==> requests[i].instruments.len() == 0 {
            assert forall|instrument: Seq<char>| !instruments.contains(instrument) by {
                if instruments.contains(instrument) {
                    assert(asks_for_instrument(requests, exchange, instrument));
                }
            }
            assert(instruments =~= Set::empty());
        }
    }
}

/// The first of the planned exchanges without instruments.
proof fn lemma_first_of_three(plans: Map<Exchange, ExchangePlanView>)
    ensures
        ({
            let lacks = |exchange: Exchange|
                plans.dom().contains(exchange) && plans[exchange].instruments == Set::<
                    Seq<char>,
                >::empty();
            first_without_instruments(plans, planned_exchanges(plans)) == if lacks(
                Exchange::Binance,
            ) {
                Some(Exchange::Binance)
            } else if lacks(Exchange::Hyperliquid) {
                Some(Exchange::Hyperliquid)
            } else if lacks(Exchange::Lighter) {
                Some(Exchange::Lighter)
            } else {
                None
            }
        }),
{
    let planned = |exchange: Exchange| plans.dom().contains(exchange);
    let one = seq![Exchange::Binance];
    let two = seq![Exchange::Binance, Exchange::Hyperliquid];
    reveal_with_fuel(Seq::filter, 4);
    assert(one.drop_last() =~= Seq::empty());
    assert(two.drop_last() =~= one);
    assert(all_exchanges().drop_last() =~= two);
    let none = Seq::<Exchange>::empty();
    let a = if planned(Exchange::Binance) {
        none.push(Exchange::Binance)
    } else {
        none
    };
    let b = if planned(Exchange::Hyperliquid) {
        a.push(Exchange::Hyperliquid)
    } else {
        a
    };
    let c = if planned(Exchange::Lighter) {
        b.push(Exchange::Lighter)
    } else {
        b
    };
    assert(one.filter(planned) =~= a);
    assert(two.filter(planned) =~= b);
    assert(planned_exchanges(plans) =~= c);
    assert(none.push(Exchange::Binance).drop_last() =~= none);
    assert(a.push(Exchange::Hyperliquid).drop_last() =~= a);
    assert(b.push(Exchange::Lighter).drop_last() =~= b);
    reveal_with_fuel(first_without_instruments, 2);
    assert(first_without_instruments(plans, none) is None);
    assert(first_without_instruments(plans, a) == if plans.dom().contains(Exchange::Binance)
        && plans[Exchange::Binance].instruments == Set::<Seq<char>>::empty() {
        Some(Exchange::Binance)
    } else {
        None
    });
    assert(first_without_instruments(plans, b) == match first_without_instruments(plans, a) {
        Some(exchange) => Some(exchange),
        None => if plans.dom().contains(Exchange::Hyperliquid)
            && plans[Exchange::Hyperliquid].instruments == Set::<Seq<char>>::empty() {
            Some(Exchange::Hyperliquid)
        } else {
            None
        },
    });
}

/// The exchanges with a plan are gone through each once, Binance before
/// Hyperliquid before Lighter.
pub proof fn law_planned_exchanges_are_in_order(plans: Map<Exchange, ExchangePlanView>)
    ensures
        forall|exchange: Exchange|
            planned_exchanges(plans).contains(exchange) <==> #[trigger] plans.dom().contains(
                exchange,
            ),
        forall|i: int, j: int|
            0 <= i < j < planned_exchanges(plans).len() ==> match (
                #[trigger] planned_exchanges(plans)[i],
                #[trigger] planned_exchanges(plans)[j],
            ) {
                (Exchange::Binance, Exchange::Hyperliquid) => true,
                (Exchange::Binance, Exchange::Lighter) => true,
                (Exchange::Hyperliquid, Exchange::Lighter) => true,
                _ => false,
            },
{
    let planned = |exchange: Exchange| plans.dom().contains(exchange);
    let one = seq![Exchange::Binance];
    let two = seq![Exchange::Binance, Exchange::Hyperliquid];
    let all = planned_exchanges(plans);
    reveal_with_fuel(Seq::filter, 4);
    assert(one.drop_last() =~= Seq::empty());
    assert(two.drop_last() =~= one);
    assert(all_exchanges().drop_last() =~= two);
    let none = Seq::<Exchange>::empty();
    let a = if planned(Exchange::Binance) {
        none.push(Exchange::Binance)
    } else {
        none
    };
    let b = if planned(Exchange::Hyperliquid) {
        a.push(Exchange::Hyperliquid)
    } else {
        a
    };
    let c = if planned(Exchange::Lighter) {
        b.push(Exchange::Lighter)
    } else {
        b
    };
    assert(one.filter(planned) =~= a);
    assert(two.filter(planned) =~= b);
    assert(all =~= c);
    assert forall|exchange: Exchange| all.contains(exchange) <==> #[trigger] plans.dom().contains(
        exchange,
    ) by {
        if plans.dom().contains(exchange) {
            match exchange {
                Exchange::Binance => {
                    assert(all[0] == exchange);
                },
                Exchange::Hyperliquid => {
                    assert(all[a.len() as int] == exchange);
                },
                Exchange::Lighter => {
                    assert(all[b.len() as int] == exchange);
                },
            }
        }
    }
}

/// What the errors of a configuration say.
pub proof fn law_what_configuration_errors_say(key: Seq<char>)
    ensures
        config_message(ConfigErrorView::UnknownDataType { key }) == "unknown data type "@ + key,
        config_message(ConfigErrorView::UnknownExchange { key }) == "unknown exchange "@ + key,
        config_message(ConfigErrorView::NoInstruments { exchange: Exchange::Binance })
            == "no instruments configured for exchange "@ + "binance"@,
        config_message(ConfigErrorView::NoInstruments { exchange: Exchange::Hyperliquid })
            == "no instruments configured for exchange "@ + "hyperliquid"@,
        config_message(ConfigErrorView::NoInstruments { exchange: Exchange::Lighter })
            == "no instruments configured for exchange "@ + "lighter"@,
        config_message(ConfigErrorView::NoSubscriptions) == "no subscriptions configured"@,
{
}

/// The views of sections and requests hold what these hold, one for one.
pub proof fn law_views_of_sections_and_requests(
    sections: Seq<Section>,
    requests: Seq<SubscriptionRequest>,
    i: int,
    j: int,
    k: int,
)
    ensures
        section_views(sections).len() == sections.len(),
        0 <= i < sections.len() ==> {
            let section = section_views(sections)[i];
            &&& section.data_type == sections[i].data_type@
            &&& section.exchanges.len() == sections[i].exchanges@.len()
            &&& 0 <= j < section.exchanges.len() ==> {
                let under = sections[i].exchanges@[j];
                &&& section.exchanges[j].exchange == under.exchange@
                &&& section.exchanges[j].instruments.len() == under.instruments@.len()
                &&& 0 <= k < under.instruments@.len() ==> section.exchanges[j].instruments[k]
                    == under.instruments@[k]@
            }
        },
        request_views(requests).len() == requests.len(),
        0 <= i < requests.len() ==> {
            let request = request_views(requests)[i];
            &&& request.data_type == requests[i].data_type
            &&& request.exchange == requests[i].exchange
            &&& request.instruments.len() == requests[i].instruments@.len()
            &&& 0 <= k < request.instruments.len() ==> request.instruments[k]
                == requests[i].instruments@[k]@
        },
{
}

/// A request adds its instruments and its data type to a plan, and takes nothing
/// away. A new plan has none.
pub proof fn law_a_request_adds_to_a_plan(
    plan: ExchangePlanView,
    request: SubscriptionRequestView,
    instrument: Seq<char>,
)
    ensures
        with_request(plan, request).instruments.contains(instrument)
            <==> plan.instruments.contains(instrument) || request.instruments.contains(instrument),
        with_request(plan, request).subscribe_book_deltas <==> plan.subscribe_book_deltas
            || request.data_type == DataType::BookDeltas,
        with_request(plan, request).subscribe_quotes <==> plan.subscribe_quotes
            || request.data_type == DataType::Quotes,
        with_request(plan, request).subscribe_trades <==> plan.subscribe_trades
            || request.data_type == DataType::Trades,
        !empty_plan().instruments.contains(instrument),
        !empty_plan().subscribe_book_deltas,
        !empty_plan().subscribe_quotes,
        !empty_plan().subscribe_trades,
{
}

} // verus!
