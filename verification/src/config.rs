//! What is collected from which exchange.
//!
//! The configuration names data types, for each of them exchanges, and for
//! each exchange the instruments. Data types and exchanges that are not known
//! are errors. What is asked of one exchange under several data types is
//! grouped into one plan for that exchange.
use std::collections::BTreeMap;

use vstd::prelude::*;
use vstd::string::StringExecFns;

use crate::names::texts;
use crate::ordering::same_text;
use crate::results::all_or_first_error;
use crate::results::lemma_concat_results;
use crate::results::lemma_early_error;
use crate::results::lemma_early_error_among;
use crate::results::lemma_no_error;
use crate::results::lemma_no_error_among;
use crate::results::lemma_push_result;

verus! {

/// An exchange that data is collected from.
#[derive(Debug, Clone, Copy, PartialEq, Eq, PartialOrd, Ord, Structural)]
pub enum Exchange {
    Binance,
    Hyperliquid,
    Lighter,
}

/// A type of market data.
#[derive(Debug, Clone, Copy, PartialEq, Eq, PartialOrd, Ord, Structural)]
pub enum DataType {
    BookDeltas,
    Quotes,
    Trades,
}

/// The exchange that a configuration key names.
pub open spec fn exchange_of_key(key: Seq<char>) -> Option<Exchange> {
    if key == "binance"@ {
        Some(Exchange::Binance)
    } else if key == "hyperliquid"@ {
        Some(Exchange::Hyperliquid)
    } else if key == "lighter"@ {
        Some(Exchange::Lighter)
    } else {
        None
    }
}

/// The data type that a configuration key names.
pub open spec fn data_type_of_key(key: Seq<char>) -> Option<DataType> {
    if key == "book_deltas"@ {
        Some(DataType::BookDeltas)
    } else if key == "quotes"@ {
        Some(DataType::Quotes)
    } else if key == "trades"@ {
        Some(DataType::Trades)
    } else {
        None
    }
}

impl Exchange {
    /// The exchange that `key` names.
    pub fn from_key(key: &str) -> (exchange: Option<Exchange>)
        ensures
            exchange == exchange_of_key(key@),
    {
        if same_text(key, "binance") {
            Some(Exchange::Binance)
        } else if same_text(key, "hyperliquid") {
            Some(Exchange::Hyperliquid)
        } else if same_text(key, "lighter") {
            Some(Exchange::Lighter)
        } else {
            None
        }
    }
}

impl DataType {
    /// The data type that `key` names.
    pub fn from_key(key: &str) -> (data_type: Option<DataType>)
        ensures
            data_type == data_type_of_key(key@),
    {
        if same_text(key, "book_deltas") {
            Some(DataType::BookDeltas)
        } else if same_text(key, "quotes") {
            Some(DataType::Quotes)
        } else if same_text(key, "trades") {
            Some(DataType::Trades)
        } else {
            None
        }
    }
}

/// The instruments under an exchange's key.
#[derive(Debug)]
pub struct ExchangeSection {
    pub exchange: String,
    pub instruments: Vec<String>,
}

/// The exchanges under a data type's key.
#[derive(Debug)]
pub struct Section {
    pub data_type: String,
    pub exchanges: Vec<ExchangeSection>,
}

pub struct ExchangeSectionView {
    pub exchange: Seq<char>,
    pub instruments: Seq<Seq<char>>,
}

pub struct SectionView {
    pub data_type: Seq<char>,
    pub exchanges: Seq<ExchangeSectionView>,
}

impl View for ExchangeSection {
    type V = ExchangeSectionView;

    open spec fn view(&self) -> ExchangeSectionView {
        ExchangeSectionView { exchange: self.exchange@, instruments: texts(self.instruments@) }
    }
}

impl View for Section {
    type V = SectionView;

    open spec fn view(&self) -> SectionView {
        SectionView {
            data_type: self.data_type@,
            exchanges: self.exchanges@.map_values(|exchange: ExchangeSection| exchange@),
        }
    }
}

/// The views of a vector of sections.
pub open spec fn section_views(sections: Seq<Section>) -> Seq<SectionView> {
    sections.map_values(|section: Section| section@)
}

/// A request for one type of data of some instruments of an exchange.
#[derive(Debug, PartialEq, Eq)]
pub struct SubscriptionRequest {
    pub data_type: DataType,
    pub exchange: Exchange,
    pub instruments: Vec<String>,
}

pub struct SubscriptionRequestView {
    pub data_type: DataType,
    pub exchange: Exchange,
    pub instruments: Seq<Seq<char>>,
}

impl View for SubscriptionRequest {
    type V = SubscriptionRequestView;

    open spec fn view(&self) -> SubscriptionRequestView {
        SubscriptionRequestView {
            data_type: self.data_type,
            exchange: self.exchange,
            instruments: texts(self.instruments@),
        }
    }
}

/// The views of a vector of requests.
pub open spec fn request_views(requests: Seq<SubscriptionRequest>) -> Seq<SubscriptionRequestView> {
    requests.map_values(|request: SubscriptionRequest| request@)
}

/// What is wrong with a configuration.
#[derive(Debug, Clone, PartialEq, Eq)]
pub enum ConfigError {
    /// The key of a data type is not known.
    UnknownDataType { key: String },
    /// The key of an exchange is not known.
    UnknownExchange { key: String },
    /// An exchange is configured, but none of its instruments.
    NoInstruments { exchange: Exchange },
    /// Nothing is configured.
    NoSubscriptions,
}

pub enum ConfigErrorView {
    UnknownDataType { key: Seq<char> },
    UnknownExchange { key: Seq<char> },
    NoInstruments { exchange: Exchange },
    NoSubscriptions,
}

impl View for ConfigError {
    type V = ConfigErrorView;

    open spec fn view(&self) -> ConfigErrorView {
        match self {
            ConfigError::UnknownDataType { key } => ConfigErrorView::UnknownDataType { key: key@ },
            ConfigError::UnknownExchange { key } => ConfigErrorView::UnknownExchange { key: key@ },
            ConfigError::NoInstruments { exchange } => ConfigErrorView::NoInstruments {
                exchange: *exchange,
            },
            ConfigError::NoSubscriptions => ConfigErrorView::NoSubscriptions,
        }
    }
}

/// The configuration key of an exchange.
pub open spec fn key_of_exchange(exchange: Exchange) -> Seq<char> {
    match exchange {
        Exchange::Binance => "binance"@,
        Exchange::Hyperliquid => "hyperliquid"@,
        Exchange::Lighter => "lighter"@,
    }
}

/// What an error says.
pub open spec fn config_message(error: ConfigErrorView) -> Seq<char> {
    match error {
        ConfigErrorView::UnknownDataType { key } => "unknown data type "@ + key,
        ConfigErrorView::UnknownExchange { key } => "unknown exchange "@ + key,
        ConfigErrorView::NoInstruments { exchange } => "no instruments configured for exchange "@
            + key_of_exchange(exchange),
        ConfigErrorView::NoSubscriptions => "no subscriptions configured"@,
    }
}

impl ConfigError {
    /// What the error says.
    pub fn message(&self) -> (message: String)
        ensures
            message@ == config_message(self@),
    {
        match self {
            ConfigError::UnknownDataType { key } => "unknown data type ".to_owned().concat(
                key.as_str(),
            ),
            ConfigError::UnknownExchange { key } => "unknown exchange ".to_owned().concat(
                key.as_str(),
            ),
            ConfigError::NoInstruments { exchange } => {
                let key = match exchange {
                    Exchange::Binance => "binance",
                    Exchange::Hyperliquid => "hyperliquid",
                    Exchange::Lighter => "lighter",
                };
                "no instruments configured for exchange ".to_owned().concat(key)
            },
            ConfigError::NoSubscriptions => "no subscriptions configured".to_owned(),
        }
    }
}

/// What an exchange's section asks for.
pub open spec fn exchange_request(data_type: DataType, section: ExchangeSectionView) -> Result<
    SubscriptionRequestView,
    ConfigErrorView,
> {
    match exchange_of_key(section.exchange) {
        Some(exchange) => Ok(
            SubscriptionRequestView { data_type, exchange, instruments: section.instruments },
        ),
        None => Err(ConfigErrorView::UnknownExchange { key: section.exchange }),
    }
}

/// What a data type's section asks for.
pub open spec fn section_requests(section: SectionView) -> Seq<
    Result<SubscriptionRequestView, ConfigErrorView>,
> {
    match data_type_of_key(section.data_type) {
        Some(data_type) => section.exchanges.map_values(
            |exchange: ExchangeSectionView| exchange_request(data_type, exchange),
        ),
        None => seq![Err(ConfigErrorView::UnknownDataType { key: section.data_type })],
    }
}

/// What all sections ask for, in their order.
pub open spec fn all_requests(sections: Seq<SectionView>) -> Seq<
    Result<SubscriptionRequestView, ConfigErrorView>,
> {
    sections.flat_map(|section: SectionView| section_requests(section))
}

/// A copy of a vector of strings.
pub fn copy_texts(names: &Vec<String>) -> (copied: Vec<String>)
    ensures
        texts(copied@) == texts(names@),
{
    let mut copied: Vec<String> = Vec::new();
    let mut i: usize = 0;
    assert(texts(copied@) =~= texts(names@).take(0));
    while i < names.len()
        invariant
            i <= names@.len(),
            texts(copied@) == texts(names@).take(i as int),
        decreases names@.len() - i,
    {
        let ghost previous = copied@;
        copied.push(names[i].clone());
        assert(texts(copied@) =~= texts(previous).push(names@[i as int]@));
        assert(texts(names@).take(i + 1) =~= texts(names@).take(i as int).push(
            names@[i as int]@,
        ));
        i += 1;
    }
    assert(texts(names@).take(i as int) =~= texts(names@));
    copied
}

/// The configuration: what is requested, in the order of the sections.
#[derive(Debug)]
pub struct CollectorConfig {
    pub requests: Vec<SubscriptionRequest>,
}

/// Whether `result` is what `expected` says.
spec fn are_requests(
    result: Result<Vec<SubscriptionRequest>, ConfigError>,
    expected: Result<Seq<SubscriptionRequestView>, ConfigErrorView>,
) -> bool {
    match result {
        Ok(requests) => expected == Ok::<_, ConfigErrorView>(request_views(requests@)),
        Err(error) => expected == Err::<Seq<SubscriptionRequestView>, _>(error@),
    }
}

/// The requests of a data type's section.
fn requests_of_section(section: &Section) -> (result: Result<Vec<SubscriptionRequest>, ConfigError>)
    ensures
        are_requests(result, all_or_first_error(section_requests(section@))),
{
    let ghost found = section_requests(section@);
    let data_type = match DataType::from_key(section.data_type.as_str()) {
        Some(data_type) => data_type,
        None => {
            proof {
                assert(found.drop_last() =~= Seq::empty());
                assert(all_or_first_error(found.drop_last()) is Ok);
            }
            return Err(ConfigError::UnknownDataType { key: section.data_type.clone() });
        },
    };
    let mut requests: Vec<SubscriptionRequest> = Vec::new();
    assert(request_views(requests@) =~= Seq::empty());
    assert(found.take(0) =~= Seq::empty());
    let mut i: usize = 0;
    while i < section.exchanges.len()
        invariant
            i <= section.exchanges@.len(),
            found == section_requests(section@),
            found == section@.exchanges.map_values(
                |exchange: ExchangeSectionView| exchange_request(data_type, exchange),
            ),
            all_or_first_error(found.take(i as int)) == Ok::<_, ConfigErrorView>(
                request_views(requests@),
            ),
        decreases section.exchanges@.len() - i,
    {
        proof {
            assert(found.take(i + 1) =~= found.take(i as int).push(found[i as int]));
            lemma_push_result(found.take(i as int), found[i as int]);
            assert(section@.exchanges[i as int] == section.exchanges@[i as int]@);
        }
        let under = &section.exchanges[i];
        match Exchange::from_key(under.exchange.as_str()) {
            Some(exchange) => {
                let ghost previous = requests@;
                let request = SubscriptionRequest {
                    data_type,
                    exchange,
                    instruments: copy_texts(&under.instruments),
                };
                requests.push(request);
                assert(request_views(requests@) =~= request_views(previous).push(request@));
            },
            None => {
                proof {
                    lemma_early_error(found, i + 1);
                }
                return Err(ConfigError::UnknownExchange { key: under.exchange.clone() });
            },
        }
        i += 1;
    }
    assert(found.take(i as int) =~= found);
    Ok(requests)
}

impl CollectorConfig {
    /// The configuration that sections give. The first key that is not known is
    /// the error.
    pub fn from_sections(sections: &Vec<Section>) -> (result: Result<CollectorConfig, ConfigError>)
        ensures
            match result {
                Ok(config) => all_or_first_error(all_requests(section_views(sections@))) == Ok::<
                    _,
                    ConfigErrorView,
                >(request_views(config.requests@)),
                Err(error) => all_or_first_error(all_requests(section_views(sections@))) == Err::<
                    Seq<SubscriptionRequestView>,
                    _,
                >(error@),
            },
    {
        let mut requests: Vec<SubscriptionRequest> = Vec::new();
        assert(request_views(requests@) =~= Seq::empty());
        let ghost views = section_views(sections@);
        let ghost of_section = |section: SectionView| section_requests(section);
        let mut i: usize = 0;
        assert(views.take(0).flat_map(of_section) =~= Seq::empty());
        while i < sections.len()
            invariant
                i <= sections@.len(),
                views == section_views(sections@),
                of_section == (|section: SectionView| section_requests(section)),
                all_or_first_error(views.take(i as int).flat_map(of_section)) == Ok::<
                    _,
                    ConfigErrorView,
                >(request_views(requests@)),
            decreases sections@.len() - i,
        {
            proof {
                assert(views[i as int] == sections@[i as int]@);
                views.lemma_flat_map_take_append(of_section, i as int);
                lemma_concat_results(
                    views.take(i as int).flat_map(of_section),
                    of_section(views[i as int]),
                );
            }
            match requests_of_section(&sections[i]) {
                Ok(mut more) => {
                    let ghost previous = requests@;
                    let ghost added = more@;
                    requests.append(&mut more);
                    assert(request_views(requests@) =~= request_views(previous) + request_views(
                        added,
                    ));
                },
                Err(error) => {
                    proof {
                        lemma_early_error_among(views, of_section, i + 1);
                    }
                    return Err(error);
                },
            }
            i += 1;
        }
        assert(views.take(i as int) =~= views);
        Ok(CollectorConfig { requests })
    }
}

/// The sections that a YAML text holds, with the keys in ascending order, or
/// what is said of a text that holds none. Sections are a mapping whose values
/// are mappings whose values are lists of texts. Where the text is empty or a
/// value is null, that stands for a mapping or a list without entries.
pub uninterp spec fn yaml_sections(text: Seq<char>) -> Result<Seq<SectionView>, Seq<char>>;

/// Calls `serde_yaml::from_str` for the value of the text, which fails where a
/// key occurs twice, and `serde_yaml::from_value` for its sections. An error is
/// taken as its text. What comes of it depends on the text alone; which texts
/// hold which sections is left to the name `yaml_sections`.
#[verifier::external_body]
fn parse_yaml(text: &str) -> (result: Result<Vec<Section>, String>)
    ensures
        match result {
            Ok(sections) => yaml_sections(text@) == Ok::<_, Seq<char>>(section_views(sections@)),
            Err(error) => yaml_sections(text@) == Err::<Seq<SectionView>, _>(error@),
        },
{
    let root: BTreeMap<String, BTreeMap<String, Vec<String>>> = serde_yaml::from_str(text).and_then(
        |value: serde_yaml::Value| serde_yaml::from_value(value),
    ).map_err(|error| error.to_string())?;
    let under = |exchanges: BTreeMap<String, Vec<String>>| {
        exchanges.into_iter().map(
            |(exchange, instruments)| ExchangeSection { exchange, instruments },
        )
    };
    Ok(
        root.into_iter().map(
            |(data_type, exchanges)| Section { data_type, exchanges: under(exchanges).collect() },
        ).collect(),
    )
}

/// Why a configuration could not be read.
#[derive(Debug, PartialEq, Eq)]
pub enum ReadConfigError {
    /// The text does not hold sections, for this reason.
    Yaml { source: String },
    /// The sections are no configuration.
    Config { error: ConfigError },
}

impl CollectorConfig {
    /// The configuration in a YAML text: data types, under them exchanges, and
    /// under those lists of instruments.
    pub fn from_yaml_str(text: &str) -> (result: Result<CollectorConfig, ReadConfigError>)
        ensures
            match yaml_sections(text@) {
                Err(why) => match result {
                    Err(ReadConfigError::Yaml { source }) => source@ == why,
                    _ => false,
                },
                Ok(sections) => match result {
                    Ok(config) => all_or_first_error(all_requests(sections)) == Ok::<
                        _,
                        ConfigErrorView,
                    >(request_views(config.requests@)),
                    Err(ReadConfigError::Config { error }) => all_or_first_error(
                        all_requests(sections),
                    ) == Err::<Seq<SubscriptionRequestView>, _>(error@),
                    Err(ReadConfigError::Yaml { .. }) => false,
                },
            },
    {
        match parse_yaml(text) {
            Ok(sections) => match CollectorConfig::from_sections(&sections) {
                Ok(config) => Ok(config),
                Err(error) => Err(ReadConfigError::Config { error }),
            },
            Err(source) => Err(ReadConfigError::Yaml { source }),
        }
    }
}

/// Whether all keys of a section are known.
pub open spec fn has_known_keys(section: SectionView) -> bool {
    &&& data_type_of_key(section.data_type) is Some
    &&& forall|i: int|
        0 <= i < section.exchanges.len() ==> exchange_of_key(
            (#[trigger] section.exchanges[i]).exchange,
        ) is Some
}

/// A configuration is read exactly if all of its keys are known.
pub proof fn law_only_known_keys_are_accepted(sections: Seq<SectionView>)
    ensures
        all_or_first_error(all_requests(sections)) is Ok <==> forall|i: int|
            0 <= i < sections.len() ==> has_known_keys(#[trigger] sections[i]),
{
    let of_section = |section: SectionView| section_requests(section);
    lemma_no_error_among(sections, of_section);
    assert forall|i: int| 0 <= i < sections.len() implies (all_or_first_error(
        of_section(#[trigger] sections[i]),
    ) is Ok <==> has_known_keys(sections[i])) by {
        let section = sections[i];
        let requests = section_requests(section);
        lemma_no_error(requests);
        match data_type_of_key(section.data_type) {
            Some(data_type) => {
                assert forall|k: int| 0 <= k < requests.len() implies ((#[trigger] requests[k])
                    is Ok <==> exchange_of_key(section.exchanges[k].exchange) is Some) by {}
                if forall|k: int| 0 <= k < requests.len() ==> (#[trigger] requests[k]) is Ok {
                    assert forall|k: int| 0 <= k < section.exchanges.len() implies exchange_of_key(
                        (#[trigger] section.exchanges[k]).exchange,
                    ) is Some by {
                        assert(requests[k] is Ok);
                    }
                }
            },
            None => {
                assert(requests[0] is Err);
            },
        }
    }
}

} // verus!
