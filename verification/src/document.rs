//! The document model: a recursive JSON-shaped tree value.
//!
//! A `Document` is the universal representation every configuration source is
//! resolved into, and the type of the assembled result.  Objects keep their
//! entries in insertion order, so serialization is stable; well-formedness
//! (`DocView::wf`) asks that every object's keys are distinct.

use vstd::prelude::*;

verus! {

/// A JSON-shaped tree value.
///
/// A number is carried as its text; the merge rules never look inside it, and
/// the codec reads and writes it with full precision.  Parsing always yields
/// canonical number text (`canonical_number_text`), the form that survives a
/// serialization round trip unchanged.  An object is an ordered list of
/// key/value entries whose keys are unique in a well-formed document.
#[derive(Debug)]
pub enum Document {
    Null,
    Bool(bool),
    Number(String),
    Text(String),
    Array(Vec<Document>),
    Object(Vec<(String, Document)>),
}

/// The mathematical shape of a `Document`: the same tree over `Seq`.
#[verifier::ext_equal]
pub enum DocView {
    Null,
    Bool(bool),
    Number(Seq<char>),
    Text(Seq<char>),
    Array(Seq<DocView>),
    Object(Seq<(Seq<char>, DocView)>),
}

impl Document {
    /// The mathematical value of this document.
    pub open spec fn spec_view(self) -> DocView
        decreases self,
    {
        match self {
            Document::Null => DocView::Null,
            Document::Bool(b) => DocView::Bool(b),
            Document::Number(s) => DocView::Number(s@),
            Document::Text(s) => DocView::Text(s@),
            Document::Array(items) => DocView::Array(Self::list_view(items@)),
            Document::Object(entries) => DocView::Object(Self::entries_view(entries@)),
        }
    }

    /// The mathematical values of a list of documents, in order.
    pub open spec fn list_view(items: Seq<Document>) -> Seq<DocView>
        decreases items,
    {
        if items.len() == 0 {
            Seq::empty()
        } else {
            Self::list_view(items.drop_last()).push(items.last().spec_view())
        }
    }

    /// The mathematical values of a list of keyed entries, in order.
    pub open spec fn entries_view(entries: Seq<(String, Document)>) -> Seq<(Seq<char>, DocView)>
        decreases entries,
    {
        if entries.len() == 0 {
            Seq::empty()
        } else {
            Self::entries_view(entries.drop_last()).push(
                (entries.last().0@, entries.last().1.spec_view()),
            )
        }
    }
}

impl View for Document {
    type V = DocView;

    open spec fn view(&self) -> DocView {
        self.spec_view()
    }
}

/// `wf_list` holds exactly when every element of the list is well-formed.
pub broadcast proof fn lemma_wf_list_iff(items: Seq<DocView>)
    ensures
        #[trigger] DocView::wf_list(items) <==> (forall|i: int|
            0 <= i < items.len() ==> items[i].wf()),
    decreases items,
{
    if items.len() > 0 {
        let rest = items.drop_first();
        lemma_wf_list_iff(rest);
        assert(forall|j: int| 0 <= j < rest.len() ==> #[trigger] rest[j] == items[j + 1]);
        if DocView::wf_list(items) {
            assert forall|i: int| 0 <= i < items.len() implies items[i].wf() by {
                if i > 0 {
                    assert(rest[i - 1].wf());
                }
            }
        }
        if forall|i: int| 0 <= i < items.len() ==> items[i].wf() {
            assert forall|j: int| 0 <= j < rest.len() implies rest[j].wf() by {
                assert(items[j + 1].wf());
            }
            assert(DocView::wf_list(rest));
        }
    }
}

/// `wf_entries` holds exactly when every entry's value is well-formed.
pub broadcast proof fn lemma_wf_entries_iff(entries: Seq<(Seq<char>, DocView)>)
    ensures
        #[trigger] DocView::wf_entries(entries) <==> (forall|i: int|
            0 <= i < entries.len() ==> entries[i].1.wf()),
    decreases entries,
{
    if entries.len() > 0 {
        let rest = entries.drop_first();
        lemma_wf_entries_iff(rest);
        assert(forall|j: int| 0 <= j < rest.len() ==> #[trigger] rest[j] == entries[j + 1]);
        if DocView::wf_entries(entries) {
            assert forall|i: int| 0 <= i < entries.len() implies entries[i].1.wf() by {
                if i > 0 {
                    assert(rest[i - 1].1.wf());
                }
            }
        }
        if forall|i: int| 0 <= i < entries.len() ==> entries[i].1.wf() {
            assert forall|j: int| 0 <= j < rest.len() implies rest[j].1.wf() by {
                assert(entries[j + 1].1.wf());
            }
            assert(DocView::wf_entries(rest));
        }
    }
}

/// In a well-formed entry list every looked-up value is well-formed
/// (and so is the `Null` an absent key falls back to).
pub proof fn lemma_value_of_wf(entries: Seq<(Seq<char>, DocView)>, key: Seq<char>)
    requires
        DocView::wf_entries(entries),
    ensures
        DocView::value_of(entries, key).wf(),
    decreases entries,
{
    if entries.len() > 0 && entries[0].0 != key {
        lemma_value_of_wf(entries.drop_first(), key);
    }
}

/// `numbers_canonical_entries` holds exactly when it holds of every entry's value.
pub broadcast proof fn lemma_numbers_canonical_entries_iff(entries: Seq<(Seq<char>, DocView)>)
    ensures
        #[trigger] DocView::numbers_canonical_entries(entries) <==> (forall|i: int|
            0 <= i < entries.len() ==> entries[i].1.numbers_canonical()),
    decreases entries,
{
    if entries.len() > 0 {
        let rest = entries.drop_first();
        lemma_numbers_canonical_entries_iff(rest);
        assert(forall|j: int| 0 <= j < rest.len() ==> #[trigger] rest[j] == entries[j + 1]);
        if DocView::numbers_canonical_entries(entries) {
            assert forall|i: int|
                0 <= i < entries.len() implies entries[i].1.numbers_canonical() by {
                if i > 0 {
                    assert(rest[i - 1].1.numbers_canonical());
                }
            }
        }
        if forall|i: int| 0 <= i < entries.len() ==> entries[i].1.numbers_canonical() {
            assert forall|j: int| 0 <= j < rest.len() implies rest[j].1.numbers_canonical() by {
                assert(entries[j + 1].1.numbers_canonical());
            }
            assert(DocView::numbers_canonical_entries(rest));
        }
    }
}

/// In an entry list with canonical numbers every looked-up value keeps them
/// (and so does the `Null` an absent key falls back to).
pub proof fn lemma_value_of_numbers_canonical(entries: Seq<(Seq<char>, DocView)>, key: Seq<char>)
    requires
        DocView::numbers_canonical_entries(entries),
    ensures
        DocView::value_of(entries, key).numbers_canonical(),
    decreases entries,
{
    if entries.len() > 0 && entries[0].0 != key {
        lemma_value_of_numbers_canonical(entries.drop_first(), key);
    }
}

/// `list_depth` bounds every element's depth and, for a non-empty list, is
/// attained by one of them.
pub broadcast proof fn lemma_list_depth(items: Seq<DocView>)
    ensures
        forall|i: int|
            0 <= i < items.len() ==> items[i].depth() <= #[trigger] DocView::list_depth(items),
        items.len() == 0 ==> DocView::list_depth(items) == 0,
        items.len() > 0 ==> exists|i: int|
            0 <= i < items.len() && DocView::list_depth(items) == items[i].depth(),
    decreases items,
{
    if items.len() > 0 {
        let rest = items.drop_first();
        lemma_list_depth(rest);
        assert(forall|j: int| 0 <= j < rest.len() ==> #[trigger] rest[j] == items[j + 1]);
        assert forall|i: int|
            0 <= i < items.len() implies items[i].depth() <= DocView::list_depth(items) by {
            if i > 0 {
                assert(rest[i - 1].depth() <= DocView::list_depth(rest));
            }
        }
        if items[0].depth() >= DocView::list_depth(rest) {
            assert(0 <= 0 < items.len() && DocView::list_depth(items) == items[0].depth());
        } else {
            assert(rest.len() > 0);
            let j = choose|j: int|
                0 <= j < rest.len() && DocView::list_depth(rest) == rest[j].depth();
            assert(0 <= j + 1 < items.len() && DocView::list_depth(items) == items[j
                + 1].depth());
        }
    }
}

/// `entries_depth` bounds every value's depth and, for a non-empty entry list,
/// is attained by one of them.
pub broadcast proof fn lemma_entries_depth(entries: Seq<(Seq<char>, DocView)>)
    ensures
        forall|i: int|
            0 <= i < entries.len() ==> entries[i].1.depth() <= #[trigger] DocView::entries_depth(
                entries,
            ),
        entries.len() == 0 ==> DocView::entries_depth(entries) == 0,
        entries.len() > 0 ==> exists|i: int|
            0 <= i < entries.len() && DocView::entries_depth(entries) == entries[i].1.depth(),
    decreases entries,
{
    if entries.len() > 0 {
        let rest = entries.drop_first();
        lemma_entries_depth(rest);
        assert(forall|j: int| 0 <= j < rest.len() ==> #[trigger] rest[j] == entries[j + 1]);
        assert forall|i: int|
            0 <= i < entries.len() implies entries[i].1.depth() <= DocView::entries_depth(
            entries,
        ) by {
            if i > 0 {
                assert(rest[i - 1].1.depth() <= DocView::entries_depth(rest));
            }
        }
        if entries[0].1.depth() >= DocView::entries_depth(rest) {
            assert(0 <= 0 < entries.len() && DocView::entries_depth(entries)
                == entries[0].1.depth());
        } else {
            assert(rest.len() > 0);
            let j = choose|j: int|
                0 <= j < rest.len() && DocView::entries_depth(rest) == rest[j].1.depth();
            assert(0 <= j + 1 < entries.len() && DocView::entries_depth(entries) == entries[j
                + 1].1.depth());
        }
    }
}

/// A looked-up value is no deeper than the deepest value of the entry list
/// (and the `Null` an absent key falls back to has depth 0).
pub proof fn lemma_value_of_depth(entries: Seq<(Seq<char>, DocView)>, key: Seq<char>)
    ensures
        DocView::value_of(entries, key).depth() <= DocView::entries_depth(entries),
    decreases entries,
{
    if entries.len() > 0 && entries[0].0 != key {
        lemma_value_of_depth(entries.drop_first(), key);
    }
}

/// `list_view` is the pointwise view of its list.
pub broadcast proof fn lemma_list_view(items: Seq<Document>)
    ensures
        (#[trigger] Document::list_view(items)).len() == items.len(),
        forall|i: int|
            0 <= i < items.len() ==> Document::list_view(items)[i] == items[i].spec_view(),
    decreases items,
{
    if items.len() > 0 {
        lemma_list_view(items.drop_last());
    }
}

/// `entries_view` is the pointwise view of its entry list.
pub broadcast proof fn lemma_entries_view(entries: Seq<(String, Document)>)
    ensures
        (#[trigger] Document::entries_view(entries)).len() == entries.len(),
        forall|i: int|
            0 <= i < entries.len() ==> Document::entries_view(entries)[i] == (
                entries[i].0@,
                entries[i].1.spec_view(),
            ),
    decreases entries,
{
    if entries.len() > 0 {
        lemma_entries_view(entries.drop_last());
    }
}

impl Document {
    /// A structurally equal copy of this document.
    #[verifier::loop_isolation(false)]
    pub fn deep_copy(&self) -> (r: Document)
        ensures
            r@ == self@,
        decreases *self,
    {
        broadcast use lemma_list_view, lemma_entries_view;

        match self {
            Document::Null => Document::Null,
            Document::Bool(b) => Document::Bool(*b),
            Document::Number(s) => Document::Number(s.clone()),
            Document::Text(s) => Document::Text(s.clone()),
            Document::Array(items) => {
                let mut out: Vec<Document> = Vec::new();
                let mut i: usize = 0;
                while i < items.len()
                    invariant
                        0 <= i <= items@.len(),
                        Document::list_view(out@) == Document::list_view(items@.take(i as int)),
                        out@.len() == i,
                    decreases items@.len() - i,
                {
                    proof {
                        assert(decreases_to!(*self => self->Array_0));
                        assert(self->Array_0 == *items);
                        assert(decreases_to!(*items => items@));
                        assert(decreases_to!(items@ => items@[i as int]));
                    }
                    let copied = items[i].deep_copy();
                    let ghost pre = out@;
                    out.push(copied);
                    proof {
                        assert(out@.drop_last() =~= pre);
                        assert(items@.take(i + 1).drop_last() =~= items@.take(i as int));
                        assert(items@.take(i + 1).last() == items@[i as int]);
                        assert(Document::list_view(out@) == Document::list_view(
                            items@.take(i + 1),
                        ));
                    }
                    i += 1;
                }
                proof {
                    assert(items@.take(items@.len() as int) =~= items@);
                }
                Document::Array(out)
            },
            Document::Object(entries) => {
                let mut out: Vec<(String, Document)> = Vec::new();
                let mut i: usize = 0;
                while i < entries.len()
                    invariant
                        0 <= i <= entries@.len(),
                        Document::entries_view(out@) == Document::entries_view(
                            entries@.take(i as int),
                        ),
                        out@.len() == i,
                    decreases entries@.len() - i,
                {
                    proof {
                        assert(decreases_to!(*self => self->Object_0));
                        assert(self->Object_0 == *entries);
                        assert(decreases_to!(*entries => entries@));
                        assert(decreases_to!(entries@ => entries@[i as int]));
                        assert(decreases_to!(entries@[i as int] => entries@[i as int].1));
                    }
                    let copied = entries[i].1.deep_copy();
                    let ghost pre = out@;
                    out.push((entries[i].0.clone(), copied));
                    proof {
                        assert(out@.drop_last() =~= pre);
                        assert(entries@.take(i + 1).drop_last() =~= entries@.take(i as int));
                        assert(entries@.take(i + 1).last() == entries@[i as int]);
                        assert(Document::entries_view(out@) == Document::entries_view(
                            entries@.take(i + 1),
                        ));
                    }
                    i += 1;
                }
                proof {
                    assert(entries@.take(entries@.len() as int) =~= entries@);
                }
                Document::Object(out)
            },
        }
    }
}

impl DocView {
    /// Whether some entry of `entries` carries the key `key`.
    pub open spec fn has_key(entries: Seq<(Seq<char>, DocView)>, key: Seq<char>) -> bool {
        exists|i: int| 0 <= i < entries.len() && entries[i].0 == key
    }

    /// The value under `key` in `entries` (the first match), or `Null` when absent.
    pub open spec fn value_of(entries: Seq<(Seq<char>, DocView)>, key: Seq<char>) -> DocView
        decreases entries.len(),
    {
        if entries.len() == 0 {
            DocView::Null
        } else if entries[0].0 == key {
            entries[0].1
        } else {
            Self::value_of(entries.drop_first(), key)
        }
    }

    /// Whether the keys of `entries` are pairwise distinct.
    pub open spec fn unique_keys(entries: Seq<(Seq<char>, DocView)>) -> bool {
        forall|i: int, j: int|
            0 <= i < j < entries.len() ==> entries[i].0 != entries[j].0
    }

    /// Well-formedness: every object in the tree has pairwise-distinct keys.
    pub open spec fn wf(self) -> bool
        decreases self,
    {
        match self {
            DocView::Array(items) => Self::wf_list(items),
            DocView::Object(entries) => Self::unique_keys(entries) && Self::wf_entries(entries),
            _ => true,
        }
    }

    pub open spec fn wf_list(items: Seq<DocView>) -> bool
        decreases items,
    {
        if items.len() == 0 {
            true
        } else {
            items[0].wf() && Self::wf_list(items.drop_first())
        }
    }

    pub open spec fn wf_entries(entries: Seq<(Seq<char>, DocView)>) -> bool
        decreases entries,
    {
        if entries.len() == 0 {
            true
        } else {
            entries[0].1.wf() && Self::wf_entries(entries.drop_first())
        }
    }

    /// Whether every number in the tree carries canonical text
    /// (`canonical_number_text`) — the form the codec's own parser and
    /// serializer produce, which therefore survives a serialization round trip
    /// unchanged.
    pub open spec fn numbers_canonical(self) -> bool
        decreases self,
    {
        match self {
            DocView::Number(s) => canonical_number_text(s),
            DocView::Array(items) => Self::numbers_canonical_list(items),
            DocView::Object(entries) => Self::numbers_canonical_entries(entries),
            _ => true,
        }
    }

    pub open spec fn numbers_canonical_list(items: Seq<DocView>) -> bool
        decreases items,
    {
        if items.len() == 0 {
            true
        } else {
            items[0].numbers_canonical() && Self::numbers_canonical_list(items.drop_first())
        }
    }

    pub open spec fn numbers_canonical_entries(entries: Seq<(Seq<char>, DocView)>) -> bool
        decreases entries,
    {
        if entries.len() == 0 {
            true
        } else {
            entries[0].1.numbers_canonical() && Self::numbers_canonical_entries(
                entries.drop_first(),
            )
        }
    }

    /// Nesting depth: a scalar is 0, an array or object is one more than its
    /// deepest child (an empty one is 1).
    pub open spec fn depth(self) -> nat
        decreases self,
    {
        match self {
            DocView::Array(items) => 1 + Self::list_depth(items),
            DocView::Object(entries) => 1 + Self::entries_depth(entries),
            _ => 0,
        }
    }

    /// The greatest depth among the elements of a list (0 when empty).
    pub open spec fn list_depth(items: Seq<DocView>) -> nat
        decreases items,
    {
        if items.len() == 0 {
            0
        } else if items[0].depth() >= Self::list_depth(items.drop_first()) {
            items[0].depth()
        } else {
            Self::list_depth(items.drop_first())
        }
    }

    /// The greatest depth among the values of an entry list (0 when empty).
    pub open spec fn entries_depth(entries: Seq<(Seq<char>, DocView)>) -> nat
        decreases entries,
    {
        if entries.len() == 0 {
            0
        } else if entries[0].1.depth() >= Self::entries_depth(entries.drop_first()) {
            entries[0].1.depth()
        } else {
            Self::entries_depth(entries.drop_first())
        }
    }

    /// Whether the compact (or pretty) text of this document parses back to an
    /// equal document: its number texts are canonical and its nesting stays
    /// within the parser's recursion limit.  Every document assembled from
    /// parsed sources qualifies; the serializer itself has no depth limit, so
    /// a deeper document still serializes, but its text is refused on re-read.
    pub open spec fn round_trippable(self) -> bool {
        self.numbers_canonical() && self.depth() <= max_parse_depth()
    }
}

/// The deepest container nesting serde_json's parser accepts: its recursion
/// budget starts at 128 and entering a container fails once it is exhausted,
/// so text nested deeper than 127 containers is refused.
pub open spec fn max_parse_depth() -> nat {
    127
}

/// Whether `c` is a decimal digit.
pub open spec fn is_digit(c: char) -> bool {
    '0' <= c && c <= '9'
}

/// Whether positions `from` (inclusive) to `to` (exclusive) of `s` all hold digits.
pub open spec fn all_digits(s: Seq<char>, from: int, to: int) -> bool {
    forall|i: int| from <= i < to ==> is_digit(#[trigger] s[i])
}

/// Canonical JSON number text: an optional minus sign, an integer part without
/// a superfluous leading zero, an optional fraction (`.` and at least one
/// digit), and an optional exponent written as a lowercase `e` with an
/// explicit sign — and not `-0`, whose integer value prints as `0`.
///
/// These are exactly the number texts the codec's serializer emits: the parser
/// rewrites any other valid JSON number into this form (an in-range integer is
/// reprinted in decimal, an exponent marker becomes `e` with its sign spelled
/// out), so a canonical text passes through a serialization round trip
/// unchanged, and every parsed document carries only canonical texts.
pub open spec fn canonical_number_text(s: Seq<char>) -> bool {
    let b: int = if s.len() > 0 && s[0] == '-' {
        1
    } else {
        0
    };
    &&& s != seq!['-', '0']
    &&& exists|i: int, f: int|
        #![trigger all_digits(s, b, i), s[f]]
        {
            &&& b < i <= f <= s.len()
            &&& all_digits(s, b, i)
            &&& (s[b] == '0' ==> i == b + 1)
            &&& (i == f || (f >= i + 2 && s[i] == '.' && all_digits(s, i + 1, f)))
            &&& (f == s.len() || (f + 2 < s.len() && s[f] == 'e' && (s[f + 1] == '+' || s[f + 1]
                == '-') && all_digits(s, f + 2, s.len() as int)))
        }
}

} // verus!
