//! The boundary to the `vte` crate, which cuts the bytes that a terminal
//! program writes into the operations that they ask for.
use vstd::prelude::*;
use vte::{Params, Parser, Perform};

verus! {

/// `vte::Parser`, the state machine that reads the bytes.
#[verifier::external_type_specification]
#[verifier::external_body]
pub struct ExParser<const OSC_RAW_BUF_SIZE: usize>(vte::Parser<OSC_RAW_BUF_SIZE>);

/// `vte::Params`, the parameters of a control sequence.
#[verifier::external_type_specification]
#[verifier::external_body]
pub struct ExParams(vte::Params);

/// An operation that the parser asks for.
pub enum TermEvent {
    /// Show a character.
    Print(char),
    /// Obey a control character.
    Execute(u8),
    /// Obey a control sequence: its parameters, each with its subparameters,
    /// and its final character.
    Csi { params: Vec<Vec<u16>>, action: char },
}

/// The contents of a `TermEvent`.
pub enum TermOp {
    Print(char),
    Execute(u8),
    Csi { params: Seq<Seq<u16>>, action: char },
}

/// The contents of each of a list of parameters.
pub open spec fn param_views(params: Seq<Vec<u16>>) -> Seq<Seq<u16>> {
    params.map_values(|p: Vec<u16>| p@)
}

/// The contents of each of a list of events.
pub open spec fn event_views(events: Seq<TermEvent>) -> Seq<TermOp> {
    events.map_values(|e: TermEvent| e@)
}

impl View for TermEvent {
    type V = TermOp;

    open spec fn view(&self) -> TermOp {
        match self {
            TermEvent::Print(c) => TermOp::Print(*c),
            TermEvent::Execute(b) => TermOp::Execute(*b),
            TermEvent::Csi { params, action } => TermOp::Csi { params: param_views(params@), action: *action },
        }
    }
}

/// The bytes that a parser has been given since it was made. What it asks for
/// next depends on them and on the next byte alone.
pub uninterp spec fn consumed(parser: Parser) -> Seq<u8>;

/// The parameters that a `vte::Params` holds, each with its subparameters.
pub uninterp spec fn params_held(params: Params) -> Seq<Seq<u16>>;

/// The operations that a parser asks for on `byte` after it has been given
/// `seen`: what `vte::Parser::advance` hands to `print`, `execute` and
/// `csi_dispatch` of its performer, in that order of time.
pub uninterp spec fn dispatched(seen: Seq<u8>, byte: u8) -> Seq<TermOp>;

/// ASCII bytes without the escape character, which no control sequence can
/// begin without.
pub open spec fn text_only(bytes: Seq<u8>) -> bool {
    forall|i: int| 0 <= i < bytes.len() ==> #[trigger] bytes[i] < 0x80 && bytes[i] != 0x1b
}

/// What a byte of plain text asks for: a control character to be obeyed, any
/// other to be shown.
pub open spec fn text_op(byte: u8) -> TermOp {
    if byte < 0x20 {
        TermOp::Execute(byte)
    } else {
        TermOp::Print(byte as char)
    }
}

/// A performer that keeps a record of what it is asked for.
pub struct EventSink {
    pub events: Vec<TermEvent>,
}

impl Perform for EventSink {
    fn print(&mut self, c: char)
        ensures
            event_views(final(self).events@) == event_views(old(self).events@).push(TermOp::Print(c)),
    {
        self.events.push(TermEvent::Print(c));
        assert(event_views(self.events@) =~= event_views(old(self).events@).push(TermOp::Print(c)));
    }

    fn execute(&mut self, byte: u8)
        ensures
            event_views(final(self).events@) == event_views(old(self).events@).push(TermOp::Execute(byte)),
    {
        self.events.push(TermEvent::Execute(byte));
        assert(event_views(self.events@) =~= event_views(old(self).events@).push(TermOp::Execute(byte)));
    }

    fn csi_dispatch(&mut self, params: &Params, _intermediates: &[u8], _ignore: bool, action: char)
        ensures
            event_views(final(self).events@) == event_views(old(self).events@).push(
                TermOp::Csi { params: params_held(*params), action: action },
            ),
    {
        self.events.push(TermEvent::Csi { params: params_to_vec(params), action: action });
        assert(event_views(self.events@) =~= event_views(old(self).events@).push(
            TermOp::Csi { params: params_held(*params), action: action },
        ));
    }
}

/// Copies out what `vte::Params::iter` yields: for each parameter in turn the
/// slice of the parameter and its subparameters.
#[verifier::external_body]
fn params_to_vec(params: &Params) -> (r: Vec<Vec<u16>>)
    ensures
        param_views(r@) == params_held(*params),
{
    params.iter().map(|p| p.to_vec()).collect()
}

/// `vte::Parser::new`: a parser that has been given nothing.
#[verifier::external_body]
pub(crate) fn new_parser() -> (parser: Parser)
    ensures
        consumed(parser) == Seq::<u8>::empty(),
{
    Parser::new()
}

/// `vte::Parser::advance`: the parser takes one more byte, and the performer
/// records what it asks for on that byte. As long as a parser has been given
/// nothing but ASCII bytes other than the escape character, it stays in the
/// state it began in, where it asks for each such byte to be obeyed, below the
/// space, or shown, from the space on. What it asks for after any other bytes
/// is named by `dispatched` and not described further.
#[verifier::external_body]
pub(crate) fn advance(parser: &mut Parser, sink: &mut EventSink, byte: u8)
    ensures
        consumed(*final(parser)) == consumed(*old(parser)).push(byte),
        event_views(final(sink).events@) == event_views(old(sink).events@) + dispatched(consumed(*old(parser)), byte),
        text_only(consumed(*final(parser))) ==> event_views(final(sink).events@) == event_views(
            old(sink).events@,
        ).push(text_op(byte)),
{
    parser.advance(sink, byte);
}

} // verus!
