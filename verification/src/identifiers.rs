//! Identifiers of instruments and data clients.
use vstd::prelude::*;
use vstd::utf8::is_ascii_chars;

verus! {

/// An instrument: its ticker symbol and its trading venue.
#[derive(Debug, Clone, PartialEq, Eq)]
pub struct InstrumentId {
    pub symbol: String,
    pub venue: String,
}

pub struct InstrumentIdView {
    pub symbol: Seq<char>,
    pub venue: Seq<char>,
}

impl View for InstrumentId {
    type V = InstrumentIdView;

    open spec fn view(&self) -> InstrumentIdView {
        InstrumentIdView { symbol: self.symbol@, venue: self.venue@ }
    }
}

impl InstrumentId {
    /// A copy of the identifier.
    pub fn copy(&self) -> (id: Self)
        ensures
            id@ == self@,
    {
        InstrumentId { symbol: self.symbol.clone(), venue: self.venue.clone() }
    }
}

/// The client that data is requested from.
#[derive(Debug, Clone, PartialEq, Eq)]
pub struct ClientId {
    pub value: String,
}

impl View for ClientId {
    type V = Seq<char>;

    open spec fn view(&self) -> Seq<char> {
        self.value@
    }
}

impl ClientId {
    /// A copy of the identifier.
    pub fn copy(&self) -> (id: Self)
        ensures
            id@ == self@,
    {
        ClientId { value: self.value.clone() }
    }
}

/// Whether `c` is white space in the sense of Unicode.
pub open spec fn is_white_space(c: char) -> bool {
    let code = c as u32;
    ||| 0x9 <= code <= 0xd
    ||| code == 0x20
    ||| code == 0x85
    ||| code == 0xa0
    ||| code == 0x1680
    ||| 0x2000 <= code <= 0x200a
    ||| code == 0x2028
    ||| code == 0x2029
    ||| code == 0x202f
    ||| code == 0x205f
    ||| code == 0x3000
}

/// Whether a text holds anything but white space.
pub open spec fn has_content(text: Seq<char>) -> bool {
    exists|i: int| 0 <= i < text.len() && !is_white_space(#[trigger] text[i])
}

/// Whether the last `.` of `text` stands at `i`.
pub open spec fn is_last_dot(text: Seq<char>, i: int) -> bool {
    &&& 0 <= i < text.len()
    &&& text[i] == '.'
    &&& forall|j: int| i < j < text.len() ==> text[j] != '.'
}

/// The instrument that `text` names: the symbol before its last `.`, and the
/// venue behind it. Both must hold something, and the venue only ASCII.
pub open spec fn parsed_instrument_id(text: Seq<char>) -> Option<InstrumentIdView> {
    if exists|i: int| is_last_dot(text, i) {
        let i = choose|i: int| is_last_dot(text, i);
        let symbol = text.take(i);
        let venue = text.skip(i + 1);
        if has_content(symbol) && has_content(venue) && is_ascii_chars(venue) {
            Some(InstrumentIdView { symbol, venue })
        } else {
            None
        }
    } else {
        None
    }
}

/// The text of an instrument's identifier.
pub open spec fn instrument_text(id: InstrumentIdView) -> Seq<char> {
    id.symbol.push('.') + id.venue
}

/// The identifier that a text names has that text.
pub proof fn law_parsed_id_has_its_text(text: Seq<char>)
    ensures
        parsed_instrument_id(text) matches Some(id) ==> instrument_text(id) == text,
{
    if let Some(id) = parsed_instrument_id(text) {
        let i = choose|i: int| is_last_dot(text, i);
        assert(instrument_text(id) =~= text);
    }
}

/// Different texts name different instruments.
pub proof fn law_parsing_is_injective(a: Seq<char>, b: Seq<char>)
    requires
        parsed_instrument_id(a) is Some,
        parsed_instrument_id(a) == parsed_instrument_id(b),
    ensures
        a == b,
{
    law_parsed_id_has_its_text(a);
    law_parsed_id_has_its_text(b);
}

/// The text of an identifier whose parts are valid names that identifier.
pub proof fn law_text_names_its_id(id: InstrumentIdView)
    requires
        has_content(id.symbol),
        has_content(id.venue),
        is_ascii_chars(id.venue),
        !id.venue.contains('.'),
    ensures
        parsed_instrument_id(instrument_text(id)) == Some(id),
{
    let text = instrument_text(id);
    let at = id.symbol.len() as int;
    assert(is_last_dot(text, at)) by {
        assert forall|j: int| at < j < text.len() implies text[j] != '.' by {
            assert(id.venue.contains(id.venue[j - at - 1]));
        }
    }
    let i = choose|i: int| is_last_dot(text, i);
    assert(i == at);
    assert(text.take(i) =~= id.symbol);
    assert(text.skip(i + 1) =~= id.venue);
}

/// What is said of a text that names no instrument.
pub uninterp spec fn instrument_error(text: Seq<char>) -> Seq<char>;

/// Calls `InstrumentId::from_str` of `nautilus_model`, through `str::parse`.
/// It splits the text at its last `.` and fails where there is none, where the
/// symbol before it or the venue behind it is empty or all white space, or
/// where the venue is not ASCII. It does not panic. The crate is built without
/// its feature `defi`, which would ask more of a venue with a `:`. An error is
/// taken as its text, which depends on the parsed text alone; what it says is
/// left to the name `instrument_error`.
#[verifier::external_body]
pub(crate) fn parse_instrument_id(text: &str) -> (result: Result<InstrumentId, String>)
    ensures
        match result {
            Ok(id) => parsed_instrument_id(text@) == Some(id@),
            Err(error) => {
                &&& parsed_instrument_id(text@) is None
                &&& error@ == instrument_error(text@)
            },
        },
{
    match text.parse::<nautilus_model::identifiers::InstrumentId>() {
        Ok(id) => Ok(
            InstrumentId {
                symbol: id.symbol.as_str().to_string(),
                venue: id.venue.as_str().to_string(),
            },
        ),
        Err(error) => Err(error.to_string()),
    }
}

/// Calls `ClientId::new` of `nautilus_model` and reads the identifier's text,
/// which is the text that it was made from. It panics on a text that is not
/// ASCII or holds nothing but white space.
#[verifier::external_body]
fn client_id_text(value: &str) -> (text: String)
    requires
        has_content(value@),
        is_ascii_chars(value@),
    ensures
        text@ == value@,
{
    nautilus_model::identifiers::ClientId::new(value).as_str().to_string()
}

/// Reads the text of `BINANCE_CLIENT_ID` of `nautilus_binance`, which was made
/// from the constant `BINANCE`.
#[verifier::external_body]
fn binance_client_id_text() -> (text: String)
    ensures
        text@ == "BINANCE"@,
{
    nautilus_binance::common::consts::BINANCE_CLIENT_ID.as_str().to_string()
}

/// The client identifier of Binance.
pub fn binance_client_id() -> (id: ClientId)
    ensures
        id@ == "BINANCE"@,
{
    ClientId { value: binance_client_id_text() }
}

/// The client identifier `value`.
pub fn new_client_id(value: &str) -> (id: ClientId)
    requires
        has_content(value@),
        is_ascii_chars(value@),
    ensures
        id@ == value@,
{
    ClientId { value: client_id_text(value) }
}

} // verus!
