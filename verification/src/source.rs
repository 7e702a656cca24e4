//! Configuration sources and their resolution.
//!
//! A source describes where a piece of configuration comes from without yet
//! resolving it: a string of JSON text, or an already-parsed document.  A
//! host program that reads configuration files hands the file's text over as
//! a `StringContent` source; the library itself performs no file access.

use vstd::prelude::*;

use crate::codec;
use crate::document::Document;
use crate::document::DocView;
use crate::error::ErrorKind;
use crate::error::JsonConfigError;

verus! {

/// A description of where configuration data comes from.
#[derive(Debug)]
pub enum ConfigurationSource {
    /// A string of JSON text, parsed at resolution.
    StringContent(String),
    /// An already-parsed document, used verbatim.
    JsonContent(Document),
}

/// The mathematical value of a source.
#[verifier::ext_equal]
pub enum SourceView {
    Text(Seq<char>),
    Parsed(DocView),
}

impl SourceView {
    /// Whether resolving the source succeeds: text must parse as JSON, an
    /// already-parsed document always resolves.
    pub open spec fn resolves(self) -> bool {
        match self {
            SourceView::Text(t) => codec::parsed_json(t) is Some,
            SourceView::Parsed(_) => true,
        }
    }

    /// The document the source resolves to.
    pub open spec fn resolution(self) -> DocView {
        match self {
            SourceView::Text(t) => codec::parsed_json(t)->Some_0,
            SourceView::Parsed(d) => d,
        }
    }

    /// Well-formedness: an embedded document must be well-formed.
    pub open spec fn wf(self) -> bool {
        match self {
            SourceView::Text(_) => true,
            SourceView::Parsed(d) => d.wf(),
        }
    }

    /// Whether the source resolves to a round-trippable document (canonical
    /// number texts, nesting within the parser's recursion limit): parsing
    /// always yields one, an embedded document must already qualify.
    pub open spec fn round_trippable(self) -> bool {
        match self {
            SourceView::Text(_) => true,
            SourceView::Parsed(d) => d.round_trippable(),
        }
    }
}

impl ConfigurationSource {
    pub open spec fn spec_view(self) -> SourceView {
        match self {
            ConfigurationSource::StringContent(s) => SourceView::Text(s@),
            ConfigurationSource::JsonContent(d) => SourceView::Parsed(d@),
        }
    }

    /// A structurally equal copy of this source.
    pub fn deep_copy(&self) -> (r: ConfigurationSource)
        ensures
            r@ == self@,
    {
        match self {
            ConfigurationSource::StringContent(s) => ConfigurationSource::StringContent(s.clone()),
            ConfigurationSource::JsonContent(d) => ConfigurationSource::JsonContent(d.deep_copy()),
        }
    }
}

impl View for ConfigurationSource {
    type V = SourceView;

    open spec fn view(&self) -> SourceView {
        self.spec_view()
    }
}

/// The mathematical values of a list of sources, in order.
pub open spec fn sources_view(sources: Seq<ConfigurationSource>) -> Seq<SourceView>
    decreases sources,
{
    if sources.len() == 0 {
        Seq::empty()
    } else {
        sources_view(sources.drop_last()).push(sources.last()@)
    }
}

/// `sources_view` is the pointwise view of its list.
pub broadcast proof fn lemma_sources_view(sources: Seq<ConfigurationSource>)
    ensures
        (#[trigger] sources_view(sources)).len() == sources.len(),
        forall|i: int| 0 <= i < sources.len() ==> sources_view(sources)[i] == sources[i]@,
    decreases sources,
{
    if sources.len() > 0 {
        lemma_sources_view(sources.drop_last());
    }
}

/// Whether every source of a list is well-formed.
pub open spec fn all_wf(sources: Seq<SourceView>) -> bool {
    forall|i: int| 0 <= i < sources.len() ==> (#[trigger] sources[i]).wf()
}

/// Whether every source of a list resolves.
pub open spec fn all_resolve(sources: Seq<SourceView>) -> bool {
    forall|i: int| 0 <= i < sources.len() ==> (#[trigger] sources[i]).resolves()
}

/// Whether every source of a list resolves to a round-trippable document.
pub open spec fn all_round_trippable(sources: Seq<SourceView>) -> bool {
    forall|i: int| 0 <= i < sources.len() ==> (#[trigger] sources[i]).round_trippable()
}

/// The document after merging the resolutions of `sources`, in order, onto `base`.
pub open spec fn merge_all(base: DocView, sources: Seq<SourceView>) -> DocView
    decreases sources,
{
    if sources.len() == 0 {
        base
    } else {
        crate::merge::spec_merge(merge_all(base, sources.drop_last()), sources.last().resolution())
    }
}

/// How many sources resolve before the first that does not (the whole length
/// when all resolve).
pub open spec fn resolved_prefix_len(sources: Seq<SourceView>) -> int
    decreases sources,
{
    if sources.len() == 0 || !sources[0].resolves() {
        0
    } else {
        1 + resolved_prefix_len(sources.drop_first())
    }
}

/// `resolved_prefix_len` marks the first source that fails to resolve: all
/// sources before it resolve, and the one at it (if any) does not.
pub broadcast proof fn lemma_resolved_prefix(sources: Seq<SourceView>)
    ensures
        0 <= #[trigger] resolved_prefix_len(sources) <= sources.len(),
        forall|t: int| 0 <= t < resolved_prefix_len(sources) ==> (#[trigger] sources[t]).resolves(),
        resolved_prefix_len(sources) < sources.len() ==> !sources[resolved_prefix_len(
            sources,
        )].resolves(),
    decreases sources,
{
    if sources.len() > 0 && sources[0].resolves() {
        let rest = sources.drop_first();
        lemma_resolved_prefix(rest);
        assert(forall|j: int| 0 <= j < rest.len() ==> #[trigger] rest[j] == sources[j + 1]);
        assert forall|t: int|
            0 <= t < resolved_prefix_len(sources) implies (#[trigger] sources[t]).resolves() by {
            if t > 0 {
                assert(rest[t - 1].resolves());
            }
        }
    }
}

/// The document a source resolves to: an embedded document is copied verbatim,
/// JSON text is parsed, and a text that is not valid JSON is reported as a
/// `SerdeJson`-kind error.
pub fn resolve(source: &ConfigurationSource) -> (r: Result<Document, JsonConfigError>)
    ensures
        match r {
            Ok(d) => {
                &&& source@.resolves()
                &&& d@ == source@.resolution()
                &&& source@.wf() ==> d@.wf()
                &&& source@.round_trippable() ==> d@.round_trippable()
            },
            Err(e) => !source@.resolves() && e.kind == ErrorKind::SerdeJson,
        },
{
    match source {
        ConfigurationSource::JsonContent(d) => Ok(d.deep_copy()),
        ConfigurationSource::StringContent(text) => match codec::parse_text(text.as_str()) {
            Ok(d) => Ok(d),
            Err(e) => Err(
                JsonConfigError::new(ErrorKind::SerdeJson, codec::error_text(&e)),
            ),
        },
    }
}

} // verus!
