//! tree-sitter's highlighting, as the highlighter uses it: grammars,
//! configurations built from a grammar and its queries, and the events the
//! highlighter gives for a source.
//!
//! Every configuration here travels with a description of what it was built
//! from, so that what tree-sitter does with it can be stated over plain
//! values.

use vstd::prelude::*;
use vstd::string::StringSliceAdditionalSpecFns;
use tree_sitter_highlight::HighlightConfiguration;
use tree_sitter_highlight::Highlighter as TsEngine;

verus! {

broadcast use vstd::string::group_string_axioms;

/// One event of tree-sitter's highlighter: a run of source bytes, or the
/// start (with its capture index) or end of a highlight.
#[derive(Debug, Clone, Copy, PartialEq, Eq, Structural)]
pub enum HlEvent {
    Source { start: usize, end: usize },
    Start(usize),
    End,
}

/// A grammar with its compiled highlight queries
/// (`tree_sitter_highlight::HighlightConfiguration`), carried through opaque.
#[verifier::external_type_specification]
#[verifier::external_body]
pub struct ExHighlightConfiguration(tree_sitter_highlight::HighlightConfiguration);

/// tree-sitter's highlighting engine (`tree_sitter_highlight::Highlighter`),
/// carried through opaque.
#[verifier::external_type_specification]
#[verifier::external_body]
pub struct ExTsHighlighter(TsEngine);

/// The grammars a highlighter knows.
#[derive(Debug, Clone, Copy, PartialEq, Eq, Structural)]
pub enum Grammar {
    Rust,
    TypeScript,
    Tsx,
    JavaScript,
    Ruby,
    Python,
    Json,
}

/// Whether tree-sitter builds a highlight configuration for grammar `g`
/// under `name` from these highlight, injection and locals queries
/// (`HighlightConfiguration::new` succeeds): whether the queries compile
/// against the grammar.
pub uninterp spec fn config_builds(
    g: Grammar,
    name: Seq<char>,
    highlights: Seq<char>,
    injections: Seq<char>,
    locals: Seq<char>,
) -> bool;

/// What a highlight configuration is built from: a grammar, a language
/// name and the highlight, injection and locals queries.
pub struct ConfigKey {
    pub grammar: Grammar,
    pub name: String,
    pub highlights: String,
    pub injections: String,
    pub locals: String,
}

/// The text of a [`ConfigKey`].
pub struct ConfigKeyView {
    pub grammar: Grammar,
    pub name: Seq<char>,
    pub highlights: Seq<char>,
    pub injections: Seq<char>,
    pub locals: Seq<char>,
}

impl View for ConfigKey {
    type V = ConfigKeyView;

    open spec fn view(&self) -> ConfigKeyView {
        ConfigKeyView {
            grammar: self.grammar,
            name: self.name@,
            highlights: self.highlights@,
            injections: self.injections@,
            locals: self.locals@,
        }
    }
}

/// A tree-sitter highlight configuration together with what it was built
/// from and the capture names it was configured for. Only the functions of
/// this module make or change one, each keeping the configuration and its
/// description together.
pub struct Config {
    key: ConfigKey,
    names: Vec<&'static str>,
    cfg: tree_sitter_highlight::HighlightConfiguration,
}

/// What a [`Config`] was built from, and the names it recognises.
pub struct ConfigView {
    pub key: ConfigKeyView,
    pub names: Seq<Seq<char>>,
}

impl View for Config {
    type V = ConfigView;

    closed spec fn view(&self) -> ConfigView {
        ConfigView { key: self.key@, names: self.names@.map_values(|n: &str| n@) }
    }
}

/// `HighlightConfiguration::new(language, name, highlights, injections,
/// locals)` with the fields of `key`, the language being the `LANGUAGE`
/// constant of the key's grammar crate; `None` when it fails. Claimed: it
/// succeeds exactly when [`config_builds`] holds of the key, whose outcome
/// depends on the grammar and the texts alone, as the query compiler does;
/// the configuration it gives is described by the key, with no names yet.
/// Which queries compile is not stated.
#[verifier::external_body]
pub fn new_config(key: ConfigKey) -> (res: Option<Config>)
    ensures
        res is Some == config_builds(
            key@.grammar,
            key@.name,
            key@.highlights,
            key@.injections,
            key@.locals,
        ),
        res matches Some(c) ==> c@ == (ConfigView { key: key@, names: Seq::empty() }),
{
    let language: tree_sitter::Language = match key.grammar {
        Grammar::Rust => tree_sitter_rust::LANGUAGE.into(),
        Grammar::TypeScript => tree_sitter_typescript::LANGUAGE_TYPESCRIPT.into(),
        Grammar::Tsx => tree_sitter_typescript::LANGUAGE_TSX.into(),
        Grammar::JavaScript => tree_sitter_javascript::LANGUAGE.into(),
        Grammar::Ruby => tree_sitter_ruby::LANGUAGE.into(),
        Grammar::Python => tree_sitter_python::LANGUAGE.into(),
        Grammar::Json => tree_sitter_json::LANGUAGE.into(),
    };
    let cfg = HighlightConfiguration::new(language, &key.name, &key.highlights, &key.injections, &key.locals).ok()?;
    Some(Config { key, names: Vec::new(), cfg })
}

/// `HighlightConfiguration::configure(names)`: maps the grammar's captures
/// onto the recognised names. Claimed: the configuration is now described
/// by these names; how captures map onto them is not stated.
#[verifier::external_body]
pub fn configure(config: &mut Config, names: &[&'static str])
    ensures
        final(config)@ == (ConfigView {
            key: old(config)@.key,
            names: names@.map_values(|n: &str| n@),
        }),
{
    config.cfg.configure(names);
    config.names = names.to_vec();
}

/// `tree_sitter_highlight::Highlighter::new()`.
#[verifier::external_body]
pub fn new_ts_highlighter() -> tree_sitter_highlight::Highlighter {
    tree_sitter_highlight::Highlighter::new()
}

/// The grammar to use for an injected language: none.
fn no_injection<'a>(_name: &str) -> (res: Option<&'a tree_sitter_highlight::HighlightConfiguration>)
    ensures
        res is None,
{
    None
}

/// The byte ranges of the `Source` events, in order.
pub open spec fn source_ranges(events: Seq<HlEvent>) -> Seq<(usize, usize)>
    decreases events.len(),
{
    if events.len() == 0 {
        Seq::empty()
    } else {
        let prev = source_ranges(events.drop_last());
        match events.last() {
            HlEvent::Source { start, end } => prev.push((start, end)),
            _ => prev,
        }
    }
}

/// Whether byte ranges follow one another from 0 to `n`, none empty.
pub open spec fn contiguous(rs: Seq<(usize, usize)>, n: int) -> bool
    decreases rs.len(),
{
    if rs.len() == 0 {
        n == 0
    } else {
        &&& rs.last().1 == n
        &&& rs.last().0 < rs.last().1
        &&& contiguous(rs.drop_last(), rs.last().0 as int)
    }
}

/// The events of an optional list.
pub open spec fn events_view(o: Option<Vec<HlEvent>>) -> Option<Seq<HlEvent>> {
    match o {
        Some(v) => Some(v@),
        None => None,
    }
}

/// The events tree-sitter's highlighter gives for `source` under a
/// configuration (`Highlighter::highlight` with no encoding override, no
/// cancellation and no injections, every event collected), or `None` when
/// it fails.
pub uninterp spec fn hl_events(config: ConfigView, source: Seq<u8>) -> Option<Seq<HlEvent>>;

/// Runs `Highlighter::highlight` on `source` with `config` (no encoding
/// override, no cancellation, no injections) and collects its events, each
/// converted to an [`HlEvent`]; `None` when highlighting fails or any event is
/// an error.
///
/// Claimed: the result is [`hl_events`] of the configuration and the
/// source's bytes; with no timeout and no cancellation flag, tree-sitter's
/// parse and query run depend on the grammar, the queries, the configured
/// names and the source alone. Also claimed: the `Source` events cover the
/// source, one after the other from byte 0 to its end, none empty.
/// tree-sitter-highlight's iterator shows this: it emits a `Source` event
/// only from its current offset to a later one (`emit_event`) and, before
/// it stops, one for whatever is left of the source. Not stated: where the
/// ranges end and which highlights open and close around them; they come
/// from tree-sitter's parse of the source.
#[verifier::external_body]
pub fn highlight_events(
    ts: &mut tree_sitter_highlight::Highlighter,
    config: &Config,
    source: &str,
) -> (res: Option<Vec<HlEvent>>)
    ensures
        events_view(res) == hl_events(config@, source.spec_bytes()),
        res matches Some(evs) ==> contiguous(source_ranges(evs@), source.spec_bytes().len() as int),
{
    let events = ts.highlight(&config.cfg, source.as_bytes(), None, None, no_injection).ok()?;
    let mut out = Vec::new();
    for event in events {
        out.push(match event.ok()? {
            tree_sitter_highlight::HighlightEvent::Source { start, end } => HlEvent::Source { start, end },
            tree_sitter_highlight::HighlightEvent::HighlightStart(h) => HlEvent::Start(h.0),
            tree_sitter_highlight::HighlightEvent::HighlightEnd => HlEvent::End,
        });
    }
    Some(out)
}

} // verus!
