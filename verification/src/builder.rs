//! The configuration builder.
//!
//! A builder owns the accumulated document and a registry of named bundles.
//! Sources are resolved and merged in call order; the document is always a
//! complete, well-formed merge result — a failed single-source merge leaves it
//! untouched, while a failed multi-source merge keeps the progress made before
//! the failing element (best-effort, documented on `merge_sources`).

use vstd::prelude::*;

use crate::codec;
use crate::document::Document;
use crate::document::DocView;
use crate::error::ErrorKind;
use crate::error::JsonConfigError;
use crate::merge::lemma_merge_round_trippable;
use crate::merge::lemma_merge_wf;
use crate::merge::merge;
use crate::merge::spec_merge;
use crate::source::all_round_trippable;
use crate::source::all_resolve;
use crate::source::all_wf;
use crate::source::lemma_resolved_prefix;
use crate::source::lemma_sources_view;
use crate::source::merge_all;
use crate::source::resolve;
use crate::source::resolved_prefix_len;
use crate::source::sources_view;
use crate::source::ConfigurationSource;
use crate::source::SourceView;

verus! {

/// One element of a declarative builder definition: a source to merge at once,
/// or a bundle to register for later.  A bundle's elements are sources, never
/// bundles — nesting is ruled out by construction.
#[derive(Debug)]
pub enum ConfigurationDefinitionParams {
    Source(ConfigurationSource),
    Bundle(String, Vec<ConfigurationSource>),
}

/// The mathematical value of a definition element.
#[verifier::ext_equal]
pub enum ParamView {
    Source(SourceView),
    Bundle(Seq<char>, Seq<SourceView>),
}

impl ParamView {
    /// Well-formedness of the embedded sources.
    pub open spec fn wf(self) -> bool {
        match self {
            ParamView::Source(s) => s.wf(),
            ParamView::Bundle(_, sources) => all_wf(sources),
        }
    }
}

impl ConfigurationDefinitionParams {
    pub open spec fn spec_view(self) -> ParamView {
        match self {
            ConfigurationDefinitionParams::Source(s) => ParamView::Source(s@),
            ConfigurationDefinitionParams::Bundle(key, sources) => ParamView::Bundle(
                key@,
                sources_view(sources@),
            ),
        }
    }
}

impl View for ConfigurationDefinitionParams {
    type V = ParamView;

    open spec fn view(&self) -> ParamView {
        self.spec_view()
    }
}

/// The mathematical values of a list of definition elements, in order.
pub open spec fn params_view(params: Seq<ConfigurationDefinitionParams>) -> Seq<ParamView>
    decreases params,
{
    if params.len() == 0 {
        Seq::empty()
    } else {
        params_view(params.drop_last()).push(params.last()@)
    }
}

/// `params_view` is the pointwise view of its list.
pub broadcast proof fn lemma_params_view(params: Seq<ConfigurationDefinitionParams>)
    ensures
        (#[trigger] params_view(params)).len() == params.len(),
        forall|i: int| 0 <= i < params.len() ==> params_view(params)[i] == params[i]@,
    decreases params,
{
    if params.len() > 0 {
        lemma_params_view(params.drop_last());
    }
}

/// Whether every definition element's sources are well-formed.
pub open spec fn all_params_wf(params: Seq<ParamView>) -> bool {
    forall|i: int| 0 <= i < params.len() ==> (#[trigger] params[i]).wf()
}

/// The sources a definition merges directly, in order (its bundle elements
/// register sources for later and merge nothing).
pub open spec fn params_sources(params: Seq<ParamView>) -> Seq<SourceView>
    decreases params,
{
    if params.len() == 0 {
        Seq::empty()
    } else {
        match params.last() {
            ParamView::Source(s) => params_sources(params.drop_last()).push(s),
            ParamView::Bundle(_, _) => params_sources(params.drop_last()),
        }
    }
}

/// The sources of the last bundle element of `params` registered under `name`,
/// if any — registering a name again replaces the earlier bundle outright.
pub open spec fn last_bundle_def(params: Seq<ParamView>, name: Seq<char>) -> Option<
    Seq<SourceView>,
>
    decreases params,
{
    if params.len() == 0 {
        None
    } else {
        match params.last() {
            ParamView::Bundle(key, sources) => if key == name {
                Some(sources)
            } else {
                last_bundle_def(params.drop_last(), name)
            },
            ParamView::Source(_) => last_bundle_def(params.drop_last(), name),
        }
    }
}

/// The sources merged by a prefix of a definition are a prefix of the sources
/// merged by the whole definition.
pub proof fn lemma_params_sources_take(params: Seq<ParamView>, i: int)
    requires
        0 <= i <= params.len(),
    ensures
        params_sources(params.take(i)).len() <= params_sources(params).len(),
        forall|t: int|
            0 <= t < params_sources(params.take(i)).len() ==> #[trigger] params_sources(
                params.take(i),
            )[t] == params_sources(params)[t],
    decreases params.len() - i,
{
    if i == params.len() {
        assert(params.take(i) =~= params);
    } else {
        lemma_params_sources_take(params, i + 1);
        assert(params.take(i + 1).drop_last() =~= params.take(i));
        assert(params.take(i + 1).last() == params[i]);
        let a = params_sources(params.take(i));
        let b = params_sources(params.take(i + 1));
        assert forall|t: int| 0 <= t < a.len() implies #[trigger] a[t] == params_sources(
            params,
        )[t] by {
            assert(a[t] == b[t]);
            assert(b[t] == params_sources(params)[t]);
        }
    }
}

/// The mathematical value of a bundle registry, in registration order.
pub open spec fn registry_view(bundles: Seq<(String, Vec<ConfigurationSource>)>) -> Seq<
    (Seq<char>, Seq<SourceView>),
>
    decreases bundles,
{
    if bundles.len() == 0 {
        Seq::empty()
    } else {
        registry_view(bundles.drop_last()).push(
            (bundles.last().0@, sources_view(bundles.last().1@)),
        )
    }
}

/// `registry_view` is the pointwise view of its list.
pub broadcast proof fn lemma_registry_view(bundles: Seq<(String, Vec<ConfigurationSource>)>)
    ensures
        (#[trigger] registry_view(bundles)).len() == bundles.len(),
        forall|i: int|
            0 <= i < bundles.len() ==> registry_view(bundles)[i] == (
                bundles[i].0@,
                sources_view(bundles[i].1@),
            ),
    decreases bundles,
{
    if bundles.len() > 0 {
        lemma_registry_view(bundles.drop_last());
    }
}

/// Whether some bundle of the registry carries `name`.
pub open spec fn registry_has(registry: Seq<(Seq<char>, Seq<SourceView>)>, name: Seq<char>) -> bool {
    exists|i: int| 0 <= i < registry.len() && registry[i].0 == name
}

/// The sources registered under `name` (the first match), or the empty list
/// when the name is absent.
pub open spec fn registry_sources(
    registry: Seq<(Seq<char>, Seq<SourceView>)>,
    name: Seq<char>,
) -> Seq<SourceView>
    decreases registry,
{
    if registry.len() == 0 {
        Seq::empty()
    } else if registry[0].0 == name {
        registry[0].1
    } else {
        registry_sources(registry.drop_first(), name)
    }
}

/// A registry is well-formed when its names are pairwise distinct and every
/// registered source is well-formed.
pub open spec fn registry_wf(registry: Seq<(Seq<char>, Seq<SourceView>)>) -> bool {
    &&& forall|i: int, j: int|
        0 <= i < j < registry.len() ==> registry[i].0 != registry[j].0
    &&& forall|i: int| 0 <= i < registry.len() ==> all_wf((#[trigger] registry[i]).1)
}

/// When `name` first matches at position `j`, `registry_sources` returns that
/// bundle's sources.
pub proof fn lemma_registry_sources_at(
    registry: Seq<(Seq<char>, Seq<SourceView>)>,
    name: Seq<char>,
    j: int,
)
    requires
        0 <= j < registry.len(),
        registry[j].0 == name,
        forall|t: int| 0 <= t < j ==> registry[t].0 != name,
    ensures
        registry_has(registry, name),
        registry_sources(registry, name) == registry[j].1,
    decreases j,
{
    if j > 0 {
        lemma_registry_sources_at(registry.drop_first(), name, j - 1);
    }
}

/// Two registries with the same names everywhere and the same bundles away
/// from position `i` agree on every name but the one at `i`.
proof fn lemma_registry_frame(
    reg1: Seq<(Seq<char>, Seq<SourceView>)>,
    reg2: Seq<(Seq<char>, Seq<SourceView>)>,
    i: int,
)
    requires
        reg1.len() == reg2.len(),
        0 <= i < reg1.len(),
        forall|t: int| 0 <= t < reg1.len() ==> reg1[t].0 == reg2[t].0,
        forall|t: int| 0 <= t < reg1.len() && t != i ==> reg1[t] == reg2[t],
    ensures
        forall|k: Seq<char>| registry_has(reg1, k) == registry_has(reg2, k),
        forall|k: Seq<char>|
            k != reg1[i].0 ==> #[trigger] registry_sources(reg1, k) == registry_sources(reg2, k),
    decreases reg1.len(),
{
    assert forall|k: Seq<char>| registry_has(reg1, k) == registry_has(reg2, k) by {
        if registry_has(reg1, k) {
            let t = choose|t: int| 0 <= t < reg1.len() && reg1[t].0 == k;
            assert(reg2[t].0 == k);
        }
        if registry_has(reg2, k) {
            let t = choose|t: int| 0 <= t < reg2.len() && reg2[t].0 == k;
            assert(reg1[t].0 == k);
        }
    }
    if i == 0 {
        assert(reg1.drop_first() =~= reg2.drop_first());
        assert forall|k: Seq<char>|
            k != reg1[0].0 implies #[trigger] registry_sources(reg1, k) == registry_sources(
            reg2,
            k,
        ) by {
            assert(reg1[0].0 == reg2[0].0);
        }
    } else {
        assert(reg1[0] == reg2[0]);
        let r1 = reg1.drop_first();
        let r2 = reg2.drop_first();
        assert(forall|j: int| 0 <= j < r1.len() ==> #[trigger] r1[j] == reg1[j + 1]);
        assert(forall|j: int| 0 <= j < r2.len() ==> #[trigger] r2[j] == reg2[j + 1]);
        lemma_registry_frame(r1, r2, i - 1);
        assert forall|k: Seq<char>|
            k != reg1[i].0 implies #[trigger] registry_sources(reg1, k) == registry_sources(
            reg2,
            k,
        ) by {
            assert(r1[i - 1].0 == reg1[i].0);
            if reg1[0].0 != k {
                assert(registry_sources(r1, k) == registry_sources(r2, k));
            }
        }
    }
}

/// The position of the first bundle of `bundles` registered under `key`, if any.
fn find_bundle(bundles: &Vec<(String, Vec<ConfigurationSource>)>, key: &String) -> (r: Option<
    usize,
>)
    ensures
        match r {
            Some(j) => {
                let rv = registry_view(bundles@);
                &&& 0 <= j < rv.len()
                &&& rv[j as int].0 == key@
                &&& forall|t: int| 0 <= t < j ==> rv[t].0 != key@
                &&& registry_has(rv, key@)
                &&& registry_sources(rv, key@) == rv[j as int].1
            },
            None => !registry_has(registry_view(bundles@), key@),
        },
{
    broadcast use lemma_registry_view;

    let ghost rv = registry_view(bundles@);
    let mut i: usize = 0;
    #[verifier::loop_isolation(false)]
    while i < bundles.len()
        invariant
            0 <= i <= bundles@.len(),
            forall|t: int| 0 <= t < i ==> rv[t].0 != key@,
        decreases bundles@.len() - i,
    {
        if bundles[i].0 == *key {
            proof {
                lemma_registry_sources_at(rv, key@, i as int);
            }
            return Some(i);
        }
        i += 1;
    }
    None
}

/// A structurally equal copy of a list of sources.
pub fn copy_sources(sources: &Vec<ConfigurationSource>) -> (r: Vec<ConfigurationSource>)
    ensures
        sources_view(r@) == sources_view(sources@),
        r@.len() == sources@.len(),
{
    let mut out: Vec<ConfigurationSource> = Vec::new();
    let mut i: usize = 0;
    #[verifier::loop_isolation(false)]
    while i < sources.len()
        invariant
            0 <= i <= sources@.len(),
            out@.len() == i,
            sources_view(out@) == sources_view(sources@.take(i as int)),
        decreases sources@.len() - i,
    {
        broadcast use lemma_sources_view;

        let copied = sources[i].deep_copy();
        let ghost pre = out@;
        out.push(copied);
        proof {
            assert(out@.drop_last() =~= pre);
            assert(sources@.take(i + 1).drop_last() =~= sources@.take(i as int));
            assert(sources@.take(i + 1).last() == sources@[i as int]);
            assert(sources_view(out@) == sources_view(sources@.take(i + 1)));
        }
        i += 1;
    }
    proof {
        assert(sources@.take(sources@.len() as int) =~= sources@);
    }
    out
}

/// The stateful accumulator: the current merged document and the bundle
/// registry.  Constructed from one base source, always holding a complete,
/// well-formed document.
#[derive(Debug)]
pub struct ConfigurationBuilder {
    config: Document,
    bundles: Vec<(String, Vec<ConfigurationSource>)>,
}

impl ConfigurationBuilder {
    /// The current merged document.
    pub closed spec fn doc(self) -> DocView {
        self.config@
    }

    /// The current bundle registry.
    pub closed spec fn bundles_view(self) -> Seq<(Seq<char>, Seq<SourceView>)> {
        registry_view(self.bundles@)
    }

    /// Whether a bundle is registered under `name`.
    pub open spec fn has_bundle(self, name: Seq<char>) -> bool {
        registry_has(self.bundles_view(), name)
    }

    /// The sources registered under `name`.
    pub open spec fn bundle_sources(self, name: Seq<char>) -> Seq<SourceView> {
        registry_sources(self.bundles_view(), name)
    }

    /// Well-formedness: the document and every registered source are
    /// well-formed, and bundle names are unique.
    pub open spec fn wf(self) -> bool {
        self.doc().wf() && registry_wf(self.bundles_view())
    }

    /// A builder whose document is the resolution of `base_source` and whose
    /// registry is empty.  Fails exactly when the base source does not resolve.
    pub fn new(base_source: ConfigurationSource) -> (r: Result<
        ConfigurationBuilder,
        JsonConfigError,
    >)
        requires
            base_source@.wf(),
        ensures
            match r {
                Ok(b) => {
                    &&& base_source@.resolves()
                    &&& b.wf()
                    &&& b.doc() == base_source@.resolution()
                    &&& base_source@.round_trippable() ==> b.doc().round_trippable()
                    &&& b.bundles_view() == Seq::<(Seq<char>, Seq<SourceView>)>::empty()
                },
                Err(e) => !base_source@.resolves() && e.kind == ErrorKind::SerdeJson,
            },
    {
        match resolve(&base_source) {
            Ok(d) => Ok(ConfigurationBuilder { config: d, bundles: Vec::new() }),
            Err(e) => Err(e),
        }
    }

    /// A builder assembled from a declarative definition, processed in order
    /// on an empty base: each source element is resolved and merged at once
    /// (failing fast on the first source that does not resolve), each bundle
    /// element is registered for later, a repeated name replacing the earlier
    /// bundle.
    pub fn from_definition(definition: Vec<ConfigurationDefinitionParams>) -> (r: Result<
        ConfigurationBuilder,
        JsonConfigError,
    >)
        requires
            all_params_wf(params_view(definition@)),
        ensures
            ({
                let ps = params_view(definition@);
                let srcs = params_sources(ps);
                &&& (r is Ok <==> all_resolve(srcs))
                &&& (r matches Ok(b) ==> {
                    &&& b.wf()
                    &&& b.doc() == merge_all(DocView::Object(Seq::empty()), srcs)
                    &&& all_round_trippable(srcs) ==> b.doc().round_trippable()
                    &&& forall|name: Seq<char>| #[trigger]
                        b.has_bundle(name) == (last_bundle_def(ps, name) is Some)
                    &&& forall|name: Seq<char>|
                        last_bundle_def(ps, name) matches Some(registered)
                            ==> #[trigger] b.bundle_sources(name) == registered
                })
                &&& (r matches Err(e) ==> e.kind == ErrorKind::SerdeJson)
            }),
    {
        broadcast use lemma_params_view;

        let ghost ps = params_view(definition@);
        let ghost empty_doc = DocView::Object(Seq::<(Seq<char>, DocView)>::empty());
        let mut builder = ConfigurationBuilder {
            config: Document::Object(Vec::new()),
            bundles: Vec::new(),
        };
        proof {
            assert(Document::entries_view(Seq::<(String, Document)>::empty())
                =~= Seq::<(Seq<char>, DocView)>::empty());
            assert(registry_view(Seq::<(String, Vec<ConfigurationSource>)>::empty())
                =~= Seq::<(Seq<char>, Seq<SourceView>)>::empty());
            assert(ps.take(0) =~= Seq::<ParamView>::empty());
            assert(builder.doc().round_trippable());
        }
        let mut i: usize = 0;
        #[verifier::loop_isolation(false)]
        while i < definition.len()
            invariant
                0 <= i <= definition@.len(),
                builder.wf(),
                all_resolve(params_sources(ps.take(i as int))),
                builder.doc() == merge_all(empty_doc, params_sources(ps.take(i as int))),
                forall|name: Seq<char>| #[trigger]
                    builder.has_bundle(name) == (last_bundle_def(ps.take(i as int), name)
                        is Some),
                forall|name: Seq<char>|
                    last_bundle_def(ps.take(i as int), name) matches Some(registered)
                        ==> #[trigger] builder.bundle_sources(name) == registered,
                all_round_trippable(params_sources(ps)) ==> builder.doc().round_trippable(),
            decreases definition@.len() - i,
        {
            proof {
                assert(ps.take(i + 1).drop_last() =~= ps.take(i as int));
                assert(ps.take(i + 1).last() == ps[i as int]);
            }
            let ghost pre_builder = builder;
            match &definition[i] {
                ConfigurationDefinitionParams::Source(source) => {
                    let ghost srcs_now = params_sources(ps.take(i as int));
                    match builder.merge_source(source) {
                        Ok(_) => {
                            proof {
                                assert(params_sources(ps.take(i + 1)) == srcs_now.push(
                                    source@,
                                ));
                                assert(srcs_now.push(source@).drop_last() =~= srcs_now);
                                assert(all_resolve(params_sources(ps.take(i + 1))));
                                if all_round_trippable(params_sources(ps)) {
                                    lemma_params_sources_take(ps, i + 1);
                                    let n = params_sources(ps.take(i + 1)).len();
                                    assert(params_sources(ps)[n - 1] == source@);
                                    assert(source@.round_trippable());
                                }
                                assert forall|name: Seq<char>| #[trigger]
                                    builder.has_bundle(name) == (last_bundle_def(
                                    ps.take(i + 1),
                                    name,
                                ) is Some) by {
                                    assert(last_bundle_def(ps.take(i + 1), name)
                                        == last_bundle_def(ps.take(i as int), name));
                                    assert(pre_builder.has_bundle(name) == (last_bundle_def(
                                        ps.take(i as int),
                                        name,
                                    ) is Some));
                                    assert(builder.has_bundle(name) == pre_builder.has_bundle(
                                        name,
                                    ));
                                }
                                assert forall|name: Seq<char>|
                                    last_bundle_def(ps.take(i + 1), name) is Some
                                    implies #[trigger] builder.bundle_sources(name)
                                    == last_bundle_def(ps.take(i + 1), name)->Some_0 by {
                                    assert(last_bundle_def(ps.take(i + 1), name)
                                        == last_bundle_def(ps.take(i as int), name));
                                    assert(pre_builder.bundle_sources(name) == builder.bundle_sources(
                                        name,
                                    ));
                                }
                            }
                        },
                        Err(e) => {
                            proof {
                                let full = params_sources(ps);
                                let failing = params_sources(ps.take(i + 1));
                                lemma_params_sources_take(ps, i + 1);
                                assert(failing.last() == source@);
                                assert(full[failing.len() - 1] == source@);
                                assert(!all_resolve(full));
                            }
                            return Err(e);
                        },
                    }
                },
                ConfigurationDefinitionParams::Bundle(bundle_key, sources) => {
                    let key = bundle_key.clone();
                    let copied = copy_sources(sources);
                    builder.define_bundle(key, copied);
                    proof {
                        assert(params_sources(ps.take(i + 1)) == params_sources(
                            ps.take(i as int),
                        ));
                        assert forall|name: Seq<char>| #[trigger]
                            builder.has_bundle(name) == (last_bundle_def(
                            ps.take(i + 1),
                            name,
                        ) is Some) by {
                            assert(last_bundle_def(ps.take(i + 1), name) == (
                            if name == bundle_key@ {
                                Some(sources_view(sources@))
                            } else {
                                last_bundle_def(ps.take(i as int), name)
                            }));
                            assert(pre_builder.has_bundle(name) == (last_bundle_def(
                                ps.take(i as int),
                                name,
                            ) is Some));
                        }
                        assert forall|name: Seq<char>|
                            last_bundle_def(ps.take(i + 1), name) is Some
                            implies #[trigger] builder.bundle_sources(name)
                            == last_bundle_def(ps.take(i + 1), name)->Some_0 by {
                            assert(last_bundle_def(ps.take(i + 1), name) == (
                            if name == bundle_key@ {
                                Some(sources_view(sources@))
                            } else {
                                last_bundle_def(ps.take(i as int), name)
                            }));
                            if name != bundle_key@ {
                                assert(pre_builder.has_bundle(name) == (last_bundle_def(
                                    ps.take(i as int),
                                    name,
                                ) is Some));
                                assert(builder.bundle_sources(name) == pre_builder.bundle_sources(
                                    name,
                                ));
                            }
                        }
                    }
                },
            }
            i += 1;
        }
        proof {
            assert(ps.take(ps.len() as int) =~= ps);
        }
        Ok(builder)
    }

    /// Resolves `config_source` and merges it onto the current document.  The
    /// document is untouched when resolution fails.
    pub fn merge_source(&mut self, config_source: &ConfigurationSource) -> (r: Result<
        (),
        JsonConfigError,
    >)
        requires
            old(self).wf(),
            config_source@.wf(),
        ensures
            final(self).wf(),
            final(self).bundles_view() == old(self).bundles_view(),
            old(self).doc().round_trippable() && config_source@.round_trippable()
                ==> final(self).doc().round_trippable(),
            match r {
                Ok(_) => {
                    &&& config_source@.resolves()
                    &&& final(self).doc() == spec_merge(
                        old(self).doc(),
                        config_source@.resolution(),
                    )
                },
                Err(e) => {
                    &&& !config_source@.resolves()
                    &&& e.kind == ErrorKind::SerdeJson
                    &&& final(self).doc() == old(self).doc()
                },
            },
    {
        match resolve(config_source) {
            Ok(d) => {
                let merged = merge(&self.config, &d);
                proof {
                    lemma_merge_wf(self.config@, d@);
                    if self.config@.round_trippable() && config_source@.round_trippable() {
                        lemma_merge_round_trippable(self.config@, d@);
                    }
                }
                self.config = merged;
                Ok(())
            },
            Err(e) => Err(e),
        }
    }

    /// Merges each source in list order, stopping at the first that fails to
    /// resolve.  Progress made before the failing element is kept — this
    /// best-effort policy is deliberate: each successful merge is already a
    /// complete document.
    pub fn merge_sources(&mut self, config_sources: &Vec<ConfigurationSource>) -> (r: Result<
        (),
        JsonConfigError,
    >)
        requires
            old(self).wf(),
            all_wf(sources_view(config_sources@)),
        ensures
            final(self).wf(),
            final(self).bundles_view() == old(self).bundles_view(),
            old(self).doc().round_trippable() && all_round_trippable(
                sources_view(config_sources@),
            ) ==> final(self).doc().round_trippable(),
            ({
                let srcs = sources_view(config_sources@);
                let k = resolved_prefix_len(srcs);
                &&& (r is Ok <==> all_resolve(srcs))
                &&& (r is Ok ==> final(self).doc() == merge_all(old(self).doc(), srcs))
                &&& (r matches Err(e) ==> e.kind == ErrorKind::SerdeJson && final(self).doc()
                    == merge_all(old(self).doc(), srcs.take(k)))
            }),
    {
        broadcast use lemma_sources_view, lemma_resolved_prefix;

        let ghost srcs = sources_view(config_sources@);
        let ghost base = self.doc();
        let mut i: usize = 0;
        #[verifier::loop_isolation(false)]
        while i < config_sources.len()
            invariant
                0 <= i <= config_sources@.len(),
                self.wf(),
                self.bundles_view() == old(self).bundles_view(),
                forall|t: int| 0 <= t < i ==> (#[trigger] srcs[t]).resolves(),
                self.doc() == merge_all(base, srcs.take(i as int)),
                base.round_trippable() && all_round_trippable(srcs)
                    ==> self.doc().round_trippable(),
            decreases config_sources@.len() - i,
        {
            let r = self.merge_source(&config_sources[i]);
            match r {
                Ok(_) => {
                    proof {
                        assert(srcs.take(i + 1).drop_last() =~= srcs.take(i as int));
                        assert(srcs.take(i + 1).last() == srcs[i as int]);
                        assert(self.doc() == merge_all(base, srcs.take(i + 1)));
                    }
                    i += 1;
                },
                Err(e) => {
                    proof {
                        assert(resolved_prefix_len(srcs) == i as int) by {
                            let k = resolved_prefix_len(srcs);
                            if k < i {
                                assert(srcs[k].resolves());
                            }
                            if k > i {
                                assert(srcs[i as int].resolves());
                            }
                        }
                    }
                    return Err(e);
                },
            }
        }
        proof {
            assert(srcs.take(srcs.len() as int) =~= srcs);
            assert(all_resolve(srcs));
        }
        Ok(())
    }

    /// Registers `sources` under `bundle_key`, replacing any bundle already
    /// registered under that name.  Never fails; the document is untouched.
    pub fn define_bundle(&mut self, bundle_key: String, sources: Vec<ConfigurationSource>)
        requires
            old(self).wf(),
            all_wf(sources_view(sources@)),
        ensures
            final(self).wf(),
            final(self).doc() == old(self).doc(),
            final(self).has_bundle(bundle_key@),
            final(self).bundle_sources(bundle_key@) == sources_view(sources@),
            forall|k: Seq<char>| #[trigger]
                final(self).has_bundle(k) == (k == bundle_key@ || old(self).has_bundle(k)),
            forall|k: Seq<char>|
                k != bundle_key@ ==> #[trigger] final(self).bundle_sources(k) == old(
                    self,
                ).bundle_sources(k),
    {
        broadcast use lemma_registry_view;

        let ghost pre = registry_view(self.bundles@);
        match find_bundle(&self.bundles, &bundle_key) {
            Some(j) => {
                self.bundles.remove(j);
                self.bundles.insert(j, (bundle_key, sources));
                proof {
                    let post = registry_view(self.bundles@);
                    assert(self.bundles@ =~= old(self).bundles@.update(
                        j as int,
                        (bundle_key, sources),
                    ));
                    assert(forall|t: int|
                        0 <= t < pre.len() ==> #[trigger] post[t].0 == pre[t].0);
                    assert(forall|t: int|
                        0 <= t < pre.len() && t != j ==> #[trigger] post[t] == pre[t]);
                    lemma_registry_frame(post, pre, j as int);
                    lemma_registry_sources_at(post, bundle_key@, j as int);
                }
            },
            None => {
                self.bundles.push((bundle_key, sources));
                proof {
                    let post = registry_view(self.bundles@);
                    assert(self.bundles@.drop_last() =~= old(self).bundles@);
                    assert(post == pre.push((bundle_key@, sources_view(sources@))));
                    lemma_registry_sources_push(pre, bundle_key@, sources_view(sources@));
                }
            },
        }
    }

    /// Resolves and merges the sources registered under `bundle_key`, as
    /// `merge_sources` does.  An unregistered name is a `ConfigDefinition`
    /// error and leaves the document untouched; the registry never changes.
    pub fn merge_bundle(&mut self, bundle_key: &str) -> (r: Result<(), JsonConfigError>)
        requires
            old(self).wf(),
        ensures
            final(self).wf(),
            final(self).bundles_view() == old(self).bundles_view(),
            !old(self).has_bundle(bundle_key@) ==> match r {
                Ok(_) => false,
                Err(e) => e.kind == ErrorKind::ConfigDefinition && final(self).doc() == old(
                    self,
                ).doc(),
            },
            old(self).doc().round_trippable() && all_round_trippable(
                old(self).bundle_sources(bundle_key@),
            ) ==> final(self).doc().round_trippable(),
            old(self).has_bundle(bundle_key@) ==> ({
                let srcs = old(self).bundle_sources(bundle_key@);
                let k = resolved_prefix_len(srcs);
                &&& (r is Ok <==> all_resolve(srcs))
                &&& (r is Ok ==> final(self).doc() == merge_all(old(self).doc(), srcs))
                &&& (r matches Err(e) ==> e.kind == ErrorKind::SerdeJson && final(self).doc()
                    == merge_all(old(self).doc(), srcs.take(k)))
            }),
    {
        broadcast use lemma_registry_view;

        let key = bundle_key.to_owned();
        let sources = match find_bundle(&self.bundles, &key) {
            Some(j) => {
                proof {
                    assert(all_wf(registry_view(self.bundles@)[j as int].1));
                }
                copy_sources(&self.bundles[j].1)
            },
            None => {
                let message = String::from_str("no bundle is registered under the name ").concat(
                    bundle_key,
                );
                return Err(JsonConfigError::new(ErrorKind::ConfigDefinition, message));
            },
        };
        self.merge_sources(&sources)
    }

    /// The current document, serialized as compact JSON text.  Parsing the
    /// text back yields an equal document whenever the document is well-formed
    /// and round-trippable (canonical number texts, nesting within the
    /// parser's recursion limit) — which every document assembled from parsed
    /// sources is.
    pub fn to_string(&self) -> (r: String)
        ensures
            r@ == codec::compact_json(self.doc()),
            self.doc().wf() && self.doc().round_trippable() ==> codec::parsed_json(r@) == Some(
                self.doc(),
            ),
    {
        codec::to_json_text(&self.config)
    }

    /// The current document, serialized as pretty-printed JSON text.  The
    /// serialization never fails (the `Result` shape is kept for API
    /// stability), and the pretty text parses back to an equal document under
    /// the same conditions as the compact form.
    pub fn to_string_pretty(&self) -> (r: Result<String, JsonConfigError>)
        ensures
            r is Ok,
            r matches Ok(s) ==> {
                &&& s@ == codec::pretty_json(self.doc())
                &&& self.doc().wf() && self.doc().round_trippable() ==> codec::parsed_json(s@)
                    == Some(self.doc())
            },
    {
        match codec::to_pretty_text(&self.config) {
            Ok(s) => Ok(s),
            Err(e) => Err(JsonConfigError::new(ErrorKind::SerdeJson, codec::error_text(&e))),
        }
    }

    /// A copy of the current document.
    pub fn to_enum(&self) -> (r: Document)
        ensures
            r@ == self.doc(),
    {
        self.config.deep_copy()
    }

    /// Law: parsing the compact text of the current document, as a single
    /// string source on a fresh builder, reproduces an equal document — the
    /// serialization round trip, for every well-formed, round-trippable
    /// document (every document assembled from parsed sources qualifies; a
    /// hand-built one must carry canonical number texts and stay within the
    /// parser's recursion limit).
    pub fn reparsed(&self) -> (r: Result<ConfigurationBuilder, JsonConfigError>)
        requires
            self.doc().wf(),
            self.doc().round_trippable(),
        ensures
            r is Ok,
            r matches Ok(b) ==> b.doc() == self.doc() && b.wf(),
    {
        ConfigurationBuilder::new(ConfigurationSource::StringContent(self.to_string()))
    }

    /// Decodes the current document into `T` by `T`'s own deserialization
    /// rules; a shape mismatch is reported as a `SerdeJson`-kind error, never
    /// as a default value.
    pub fn to_type<T: serde::de::DeserializeOwned>(&self) -> (r: Result<T, JsonConfigError>)
        ensures
            r matches Err(e) ==> e.kind == ErrorKind::SerdeJson,
    {
        match codec::typed_from_document::<T>(&self.config) {
            Ok(t) => Ok(t),
            Err(e) => Err(JsonConfigError::new(ErrorKind::SerdeJson, codec::error_text(&e))),
        }
    }
}

/// Pushing a fresh name onto a registry leaves every other name's bundles
/// unchanged and registers the new one.
proof fn lemma_registry_sources_push(
    registry: Seq<(Seq<char>, Seq<SourceView>)>,
    name: Seq<char>,
    sources: Seq<SourceView>,
)
    ensures
        registry_sources(registry.push((name, sources)), name) == (
            if registry_has(registry, name) {
                registry_sources(registry, name)
            } else {
                sources
            }
        ),
        forall|k: Seq<char>|
            k != name ==> #[trigger] registry_sources(registry.push((name, sources)), k)
                == registry_sources(registry, k),
        forall|k: Seq<char>| #[trigger]
            registry_has(registry.push((name, sources)), k) == (k == name || registry_has(
                registry,
                k,
            )),
    decreases registry.len(),
{
    let post = registry.push((name, sources));
    assert forall|k: Seq<char>| #[trigger]
        registry_has(post, k) == (k == name || registry_has(registry, k)) by {
        if registry_has(registry, k) {
            let t = choose|t: int| 0 <= t < registry.len() && registry[t].0 == k;
            assert(post[t].0 == k);
        }
        if k == name {
            assert(post[registry.len() as int].0 == k);
        }
        if registry_has(post, k) && k != name {
            let t = choose|t: int| 0 <= t < post.len() && post[t].0 == k;
            assert(t < registry.len());
            assert(registry[t].0 == k);
        }
    }
    if registry.len() == 0 {
        assert(post.drop_first() =~= Seq::<(Seq<char>, Seq<SourceView>)>::empty());
        assert(post[0] == (name, sources));
        assert forall|k: Seq<char>|
            k != name implies #[trigger] registry_sources(post, k) == registry_sources(
            registry,
            k,
        ) by {
            assert(registry_sources(post, k) == registry_sources(post.drop_first(), k));
            assert(registry_sources(post.drop_first(), k) == Seq::<SourceView>::empty());
            assert(registry_sources(registry, k) == Seq::<SourceView>::empty());
        }
    } else {
        let rest = registry.drop_first();
        assert(post[0] == registry[0]);
        assert(post.drop_first() =~= rest.push((name, sources)));
        assert(forall|j: int| 0 <= j < rest.len() ==> #[trigger] rest[j] == registry[j + 1]);
        lemma_registry_sources_push(rest, name, sources);
        if registry[0].0 != name {
            assert(registry_has(registry, name) == registry_has(rest, name)) by {
                if registry_has(registry, name) {
                    let t = choose|t: int| 0 <= t < registry.len() && registry[t].0 == name;
                    assert(rest[t - 1].0 == name);
                }
                if registry_has(rest, name) {
                    let t = choose|t: int| 0 <= t < rest.len() && rest[t].0 == name;
                    assert(registry[t + 1].0 == name);
                }
            }
        }
        assert forall|k: Seq<char>|
            k != name implies #[trigger] registry_sources(post, k) == registry_sources(
            registry,
            k,
        ) by {
            if registry[0].0 != k {
                assert(registry_sources(rest.push((name, sources)), k) == registry_sources(
                    rest,
                    k,
                ));
            }
        }
    }
}

} // verus!
