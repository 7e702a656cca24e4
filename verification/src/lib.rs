//! Layered JSON-shaped configuration assembly.
//!
//! A configuration is assembled by deep-merging an ordered sequence of
//! sources: later sources override earlier ones key-by-key inside nested
//! objects, while scalars and arrays are replaced outright.  Sources may be
//! grouped into named bundles and replayed later by name.

use vstd::prelude::*;

mod builder;
mod codec;
mod document;
mod error;
mod merge;
mod source;

pub use document::all_digits;
pub use document::canonical_number_text;
pub use document::is_digit;
pub use document::max_parse_depth;
pub use document::lemma_entries_view;
pub use document::lemma_list_view;
pub use document::lemma_entries_depth;
pub use document::lemma_list_depth;
pub use document::lemma_numbers_canonical_entries_iff;
pub use document::lemma_value_of_depth;
pub use document::lemma_value_of_numbers_canonical;
pub use document::lemma_value_of_wf;
pub use document::lemma_wf_entries_iff;
pub use document::lemma_wf_list_iff;
pub use document::DocView;
pub use document::Document;

pub use merge::lemma_merge_disjoint_union;
pub use merge::lemma_merge_full_replacement;
pub use merge::lemma_merge_idempotent;
pub use merge::lemma_merge_depth;
pub use merge::lemma_merge_numbers_canonical;
pub use merge::lemma_merge_onto_empty;
pub use merge::lemma_merge_round_trippable;
pub use merge::lemma_merge_wf;
pub use merge::lemma_merged_base_pointwise;
pub use merge::added_entries;
pub use merge::merge;
pub use merge::merged_base_entries;
pub use merge::spec_merge;

pub use error::ConfigDefinitionError;
pub use error::ErrorKind;
pub use error::JsonConfigError;

pub use codec::compact_json;
pub use codec::parsed_json;
pub use codec::pretty_json;

pub use source::all_round_trippable;
pub use source::all_resolve;
pub use source::all_wf;
pub use source::lemma_resolved_prefix;
pub use source::lemma_sources_view;
pub use source::merge_all;
pub use source::resolve;
pub use source::resolved_prefix_len;
pub use source::sources_view;
pub use source::ConfigurationSource;
pub use source::SourceView;

pub use builder::all_params_wf;
pub use builder::copy_sources;
pub use builder::last_bundle_def;
pub use builder::lemma_params_view;
pub use builder::lemma_registry_view;
pub use builder::params_sources;
pub use builder::params_view;
pub use builder::registry_has;
pub use builder::registry_sources;
pub use builder::registry_view;
pub use builder::registry_wf;
pub use builder::ConfigurationBuilder;
pub use builder::ConfigurationDefinitionParams;
pub use builder::ParamView;

verus! {

} // verus!
