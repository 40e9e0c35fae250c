//! Parsing one YAML document into a marked tree: carriage returns are
//! stripped, the tokenizer is pumped one event at a time, and every event
//! is fed through the verified builder state machine.

use vstd::prelude::*;

verus! {

use vstd::string::StrSliceExecFns;
use vstd::string::StringExecFns;
use crate::model::Mark;
use crate::builder::{BuilderView, YamlEvent, EventView, MarkedYaml, initial_builder, spec_step};
use yaml_rust::Event;

/// A failure to turn source text into a configuration document.
#[derive(Debug)]
pub enum ConfigurationError {
    /// The source text is not valid YAML; `error` carries the tokenizer's
    /// own diagnostic.
    InvalidConfiguration { message: String, error: String },
    /// The event source misbehaved (an end event without a matching
    /// start): a defect of the tokenizer, not of the document.
    ImbalancedEvents,
}

/// The source text with every carriage return removed, kept in order.
pub open spec fn stripped(s: Seq<char>) -> Seq<char>
    decreases s.len(),
{
    if s.len() == 0 {
        Seq::empty()
    } else if s.last() == '\r' {
        stripped(s.drop_last())
    } else {
        stripped(s.drop_last()).push(s.last())
    }
}

/// Remove carriage returns before tokenizing: the event source does not
/// accept them, and positions refer to the stripped text.
fn strip_carriage_returns(s: &str) -> (r: Vec<char>)
    ensures
        r@ == stripped(s@),
{
    let n = s.unicode_len();
    let mut out: Vec<char> = Vec::new();
    proof {
        assert(s@.take(0) =~= Seq::<char>::empty());
    }
    let mut i: usize = 0;
    while i < n
        invariant
            0 <= i <= n,
            n == s@.len(),
            out@ == stripped(s@.take(i as int)),
        decreases n - i,
    {
        let c = s.get_char(i);
        if c != '\r' {
            out.push(c);
        }
        proof {
            let t1 = s@.take(i as int + 1);
            assert(t1.drop_last() =~= s@.take(i as int));
            assert(t1.last() == s@[i as int]);
        }
        i += 1;
    }
    proof {
        assert(s@.take(n as int) =~= s@);
    }
    out
}

/// The state reached by feeding a sequence of events, first to last,
/// through the builder's transition function.
pub open spec fn run_events(b: BuilderView, evs: Seq<(EventView, Mark)>) -> BuilderView
    decreases evs.len(),
{
    if evs.len() == 0 {
        b
    } else {
        run_events(spec_step(b, evs.first().0, evs.first().1), evs.drop_first())
    }
}

#[verifier::external_type_specification]
#[verifier::external_body]
#[verifier::reject_recursive_types(T)]
pub struct ExParser<T>(yaml_rust::parser::Parser<T>);

/// What the tokenizer makes of the given characters: the structural
/// events it emits, in order, each with its position, up to but not
/// including the terminal. Tokenizing is deterministic, so this is a
/// function of the characters alone.
pub uninterp spec fn events_of(s: Seq<char>) -> Seq<(EventView, Mark)>;

/// How tokenizing the given characters ends, after the events: nothing
/// for a complete stream, or the scanner's diagnostic text for one the
/// tokenizer refuses.
pub uninterp spec fn scan_error_of(s: Seq<char>) -> Option<Seq<char>>;

/// The events a parser mid-stream will still emit before its terminal.
pub uninterp spec fn parser_events(p: yaml_rust::parser::Parser<std::vec::IntoIter<char>>) -> Seq<
    (EventView, Mark),
>;

/// How a parser's remaining stream will end: nothing for a complete
/// stream, or the scanner's diagnostic text.
pub uninterp spec fn parser_outcome(p: yaml_rust::parser::Parser<std::vec::IntoIter<char>>) -> Option<
    Seq<char>,
>;

/// Relies on yaml_rust::parser::Parser::new: a streaming parser over
/// exactly the given characters. What it will emit and how its stream
/// ends are functions of the characters alone, and the stream-end event
/// stands only at the terminal, never among the events: the parser
/// reaches its end state when it emits it and thereafter repeats it.
#[verifier::external_body]
fn new_parser(chars: Vec<char>) -> (p: yaml_rust::parser::Parser<std::vec::IntoIter<char>>)
    ensures
        parser_events(p) == events_of(chars@),
        parser_outcome(p) == scan_error_of(chars@),
        forall|i: int|
            0 <= i < parser_events(p).len() ==> !((#[trigger] parser_events(p)[i]).0 is StreamEnd),
{
    yaml_rust::parser::Parser::new(chars.into_iter())
}

/// Relies on yaml_rust::parser::Parser::next: the next event of the
/// stream with its position — each variant repackaged field for field,
/// a scalar's style and tag dropped, the position read through
/// yaml_rust::scanner::Marker's accessors — then, once the events are
/// exhausted, the stream-end event of a complete stream or the
/// scanner's diagnostic text for a malformed one.
#[verifier::external_body]
fn next_event(p: &mut yaml_rust::parser::Parser<std::vec::IntoIter<char>>) -> (r: Result<
    (YamlEvent, Mark),
    String,
>)
    ensures
        parser_events(*old(p)).len() > 0 ==> (r matches Ok(em) && em.0@ == parser_events(
            *old(p),
        ).first().0 && em.1 == parser_events(*old(p)).first().1 && parser_events(*final(p))
            == parser_events(*old(p)).drop_first() && parser_outcome(*final(p)) == parser_outcome(
            *old(p),
        )),
        parser_events(*old(p)).len() == 0 && parser_outcome(*old(p)) is None ==> (r matches Ok(em)
            && em.0@ == EventView::StreamEnd),
        parser_outcome(*old(p)) matches Some(diag) ==> (parser_events(*old(p)).len() == 0 ==> (
        r matches Err(text) && text@ == diag)),
{
    let (ev, mk) = match p.next() { Ok(pair) => pair, Err(e) => return Err(e.to_string()) };
    let m = Mark { line: mk.line(), col: mk.col(), index: mk.index() };
    Ok((match ev {
        Event::Nothing => YamlEvent::Nothing,
        Event::StreamStart => YamlEvent::StreamStart,
        Event::StreamEnd => YamlEvent::StreamEnd,
        Event::DocumentStart => YamlEvent::DocumentStart,
        Event::DocumentEnd => YamlEvent::DocumentEnd,
        Event::Alias(id) => YamlEvent::Alias(id),
        Event::Scalar(text, _style, id, _tag) => YamlEvent::Scalar(text, id),
        Event::SequenceStart(id) => YamlEvent::SequenceStart(id),
        Event::SequenceEnd => YamlEvent::SequenceEnd,
        Event::MappingStart(id) => YamlEvent::MappingStart(id),
        Event::MappingEnd => YamlEvent::MappingEnd,
    }, m))
}

/// Whether feeding the events in order ever closes a container with none
/// open: the defect path of a broken event source, which no events the
/// tokenizer emits for a document should take.
pub open spec fn has_imbalance(b: BuilderView, evs: Seq<(EventView, Mark)>) -> bool
    decreases evs.len(),
{
    if evs.len() == 0 {
        false
    } else if (evs.first().0 is SequenceEnd || evs.first().0 is MappingEnd) && b.stack.len() == 0 {
        true
    } else {
        has_imbalance(spec_step(b, evs.first().0, evs.first().1), evs.drop_first())
    }
}

/// Parse one YAML document, keeping source positions. The result is a
/// function of the source with its carriage returns removed: when the
/// tokenizer accepts it and its events balance, the document is exactly
/// the run of those events through the builder; when the tokenizer
/// refuses it, the one structured error carries the fixed message and
/// the tokenizer's own diagnostic, and no tree is exposed; an imbalance
/// among the events is reported as the event source's own defect.
pub fn parse(source: &str) -> (r: Result<MarkedYaml, ConfigurationError>)
    ensures
        ({
            let evs = events_of(stripped(source@));
            let fail = scan_error_of(stripped(source@));
            let imbalance = has_imbalance(initial_builder(), evs);
            &&& (r is Ok <==> fail is None && !imbalance)
            &&& (r matches Ok(doc) ==> doc@ == run_events(initial_builder(), evs))
            &&& (r matches Err(e) ==> (e is ImbalancedEvents <==> imbalance))
            &&& (r matches Err(e) ==> (e is InvalidConfiguration ==> fail is Some
                && e->InvalidConfiguration_message@ == "could not parse yaml"@
                && e->InvalidConfiguration_error@ == fail->0))
        }),
{
    let chars = strip_carriage_returns(source);
    let mut parser = new_parser(chars);
    let ghost full: Seq<(EventView, Mark)> = parser_events(parser);
    let ghost fail: Option<Seq<char>> = parser_outcome(parser);
    let mut loader = MarkedYaml::new();
    let ghost mut k: int = 0;
    proof {
        assert(full.skip(0) =~= full);
    }
    loop
        invariant
            0 <= k <= full.len(),
            full == events_of(stripped(source@)),
            fail == scan_error_of(stripped(source@)),
            forall|i: int| 0 <= i < full.len() ==> !((#[trigger] full[i]).0 is StreamEnd),
            parser_events(parser) == full.skip(k),
            parser_outcome(parser) == fail,
            run_events(initial_builder(), full) == run_events(loader@, full.skip(k)),
            has_imbalance(initial_builder(), full) == has_imbalance(loader@, full.skip(k)),
        decreases full.len() - k,
    {
        let ghost rest = full.skip(k);
        match next_event(&mut parser) {
            Err(text) => {
                proof {
                    assert(rest.len() == 0);
                    assert(run_events(loader@, rest) == loader@);
                    assert(!has_imbalance(loader@, rest));
                }
                return Err(
                    ConfigurationError::InvalidConfiguration {
                        message: String::from_str("could not parse yaml"),
                        error: text,
                    },
                );
            },
            Ok((ev, mark)) => {
                let ghost ev_v = ev@;
                match ev {
                    YamlEvent::StreamEnd => {
                        proof {
                            if rest.len() > 0 {
                                assert(rest.first() == full[k]);
                                assert(!(full[k].0 is StreamEnd));
                            }
                            assert(rest.len() == 0);
                            assert(fail is None);
                            assert(run_events(loader@, rest) == loader@);
                            assert(!has_imbalance(loader@, rest));
                        }
                        return Ok(loader);
                    },
                    _ => {
                        proof {
                            assert(rest.len() > 0);
                            assert(ev_v == rest.first().0 && mark == rest.first().1);
                            assert(rest.drop_first() =~= full.skip(k + 1));
                        }
                        match loader.on_event(ev, mark) {
                            Ok(()) => {
                                proof {
                                    k = k + 1;
                                }
                            },
                            Err(_) => {
                                proof {
                                    assert(has_imbalance(loader@, rest));
                                }
                                return Err(ConfigurationError::ImbalancedEvents);
                            },
                        }
                    },
                }
            },
        }
    }
}

} // verus!
