//! The deep-merge engine.
//!
//! `merge(base, overlay)` combines two documents: when both are objects the
//! entries merge key-by-key (recursively), keys only in the base keep their
//! position, and keys introduced by the overlay are appended in the overlay's
//! order.  In every other pairing the overlay replaces the base outright —
//! scalars, arrays, and `null` never combine.

use vstd::prelude::*;

use crate::document::Document;
use crate::document::DocView;

verus! {

/// The entries of the merged object, one per entry of `base`: an entry whose
/// key also occurs in `overlay` carries the recursive merge of the two values,
/// any other entry is kept as it stands.
pub open spec fn merged_base_entries(
    base: Seq<(Seq<char>, DocView)>,
    overlay: Seq<(Seq<char>, DocView)>,
) -> Seq<(Seq<char>, DocView)>
    decreases base,
{
    if base.len() == 0 {
        Seq::empty()
    } else {
        let e = base.last();
        let merged = if DocView::has_key(overlay, e.0) {
            (e.0, spec_merge(e.1, DocView::value_of(overlay, e.0)))
        } else {
            e
        };
        merged_base_entries(base.drop_last(), overlay).push(merged)
    }
}

/// The entries of `overlay` whose keys do not occur in `base`, in order.
pub open spec fn added_entries(
    base: Seq<(Seq<char>, DocView)>,
    overlay: Seq<(Seq<char>, DocView)>,
) -> Seq<(Seq<char>, DocView)>
    decreases overlay,
{
    if overlay.len() == 0 {
        Seq::empty()
    } else {
        let e = overlay.last();
        let kept = added_entries(base, overlay.drop_last());
        if DocView::has_key(base, e.0) {
            kept
        } else {
            kept.push(e)
        }
    }
}

/// The deep merge of two documents.  Object over object merges key-by-key;
/// every other pairing (`null` included) is won outright by the overlay.
pub open spec fn spec_merge(base: DocView, overlay: DocView) -> DocView
    decreases base, overlay,
{
    match (base, overlay) {
        (DocView::Object(xs), DocView::Object(ys)) => DocView::Object(
            merged_base_entries(xs, ys) + added_entries(xs, ys),
        ),
        _ => overlay,
    }
}

/// Each entry of `merged_base_entries(base, overlay)` keeps its key and position;
/// its value is the recursive merge where the overlay also carries the key, and
/// the base's own value otherwise.
pub broadcast proof fn lemma_merged_base_pointwise(
    base: Seq<(Seq<char>, DocView)>,
    overlay: Seq<(Seq<char>, DocView)>,
)
    ensures
        (#[trigger] merged_base_entries(base, overlay)).len() == base.len(),
        forall|i: int|
            0 <= i < base.len() ==> merged_base_entries(base, overlay)[i] == (
                if DocView::has_key(overlay, base[i].0) {
                    (base[i].0, spec_merge(base[i].1, DocView::value_of(overlay, base[i].0)))
                } else {
                    base[i]
                }
            ),
    decreases base,
{
    if base.len() > 0 {
        lemma_merged_base_pointwise(base.drop_last(), overlay);
    }
}

/// An overlay none of whose keys occur in the base is appended whole.
proof fn lemma_added_all(base: Seq<(Seq<char>, DocView)>, overlay: Seq<(Seq<char>, DocView)>)
    requires
        forall|j: int| 0 <= j < overlay.len() ==> !DocView::has_key(base, overlay[j].0),
    ensures
        added_entries(base, overlay) == overlay,
    decreases overlay,
{
    if overlay.len() > 0 {
        lemma_added_all(base, overlay.drop_last());
        assert(added_entries(base, overlay.drop_last()).push(overlay.last()) =~= overlay);
    } else {
        assert(added_entries(base, overlay) =~= overlay);
    }
}

/// An overlay all of whose keys occur in the base adds nothing.
proof fn lemma_added_none(base: Seq<(Seq<char>, DocView)>, overlay: Seq<(Seq<char>, DocView)>)
    requires
        forall|j: int| 0 <= j < overlay.len() ==> DocView::has_key(base, overlay[j].0),
    ensures
        added_entries(base, overlay) == Seq::<(Seq<char>, DocView)>::empty(),
    decreases overlay,
{
    if overlay.len() > 0 {
        lemma_added_none(base, overlay.drop_last());
    }
}

/// Law: a non-object overlay replaces the base outright, whatever the base is —
/// arrays and scalars never combine, and `null` overwrites like any scalar.
pub proof fn lemma_merge_full_replacement(base: DocView, overlay: DocView)
    requires
        !(overlay is Object),
    ensures
        spec_merge(base, overlay) == overlay,
{
}

/// Law: merging any document onto the empty object reproduces it.
pub proof fn lemma_merge_onto_empty(d: DocView)
    ensures
        spec_merge(DocView::Object(Seq::empty()), d) == d,
{
    let empty = Seq::<(Seq<char>, DocView)>::empty();
    match d {
        DocView::Object(ys) => {
            assert(forall|j: int| 0 <= j < ys.len() ==> !DocView::has_key(empty, ys[j].0));
            lemma_added_all(empty, ys);
            assert(merged_base_entries(empty, ys) + added_entries(empty, ys) =~= ys);
        },
        _ => {},
    }
}

/// Law: objects with disjoint keys merge to their key-union — the base's
/// entries in order, then the overlay's entries in order, all values untouched.
pub proof fn lemma_merge_disjoint_union(
    xs: Seq<(Seq<char>, DocView)>,
    ys: Seq<(Seq<char>, DocView)>,
)
    requires
        forall|i: int, j: int|
            0 <= i < xs.len() && 0 <= j < ys.len() ==> xs[i].0 != ys[j].0,
    ensures
        spec_merge(DocView::Object(xs), DocView::Object(ys)) == DocView::Object(xs + ys),
{
    lemma_merged_base_pointwise(xs, ys);
    assert(forall|i: int| 0 <= i < xs.len() ==> !DocView::has_key(ys, xs[i].0));
    assert(forall|j: int| 0 <= j < ys.len() ==> !DocView::has_key(xs, ys[j].0));
    lemma_added_all(xs, ys);
    assert(merged_base_entries(xs, ys) + added_entries(xs, ys) =~= xs + ys);
}

/// The entries appended by a merge are exactly overlay entries, in order, whose
/// keys the base lacks; under unique overlay keys their keys stay pairwise
/// distinct.
proof fn lemma_added_props(base: Seq<(Seq<char>, DocView)>, overlay: Seq<(Seq<char>, DocView)>)
    requires
        DocView::unique_keys(overlay),
    ensures
        forall|t: int|
            0 <= t < added_entries(base, overlay).len() ==> {
                &&& !DocView::has_key(base, #[trigger] added_entries(base, overlay)[t].0)
                &&& exists|j: int|
                    0 <= j < overlay.len() && added_entries(base, overlay)[t] == overlay[j]
            },
        DocView::unique_keys(added_entries(base, overlay)),
        added_entries(base, overlay).len() <= overlay.len(),
    decreases overlay,
{
    if overlay.len() > 0 {
        let prev = overlay.drop_last();
        assert(DocView::unique_keys(prev));
        lemma_added_props(base, prev);
        let kept = added_entries(base, prev);
        assert(forall|t: int|
            0 <= t < kept.len() ==> exists|j: int|
                0 <= j < prev.len() && #[trigger] kept[t] == #[trigger] prev[j]);
        if !DocView::has_key(base, overlay.last().0) {
            assert forall|t: int| 0 <= t < kept.len() implies kept[t].0 != overlay.last().0 by {
                let j = choose|j: int| 0 <= j < prev.len() && kept[t] == prev[j];
                assert(overlay[j] == prev[j]);
            }
        }
    }
}

/// Every entry appended by a merge is an entry of the overlay.
proof fn lemma_added_membership(
    base: Seq<(Seq<char>, DocView)>,
    overlay: Seq<(Seq<char>, DocView)>,
)
    ensures
        forall|t: int|
            0 <= t < added_entries(base, overlay).len() ==> exists|j: int|
                0 <= j < overlay.len() && #[trigger] added_entries(base, overlay)[t] == overlay[j],
    decreases overlay,
{
    if overlay.len() > 0 {
        let prev = overlay.drop_last();
        lemma_added_membership(base, prev);
        let kept = added_entries(base, prev);
        assert forall|t: int|
            0 <= t < added_entries(base, overlay).len() implies exists|j: int|
                0 <= j < overlay.len() && #[trigger] added_entries(base, overlay)[t]
                == overlay[j] by {
            if t < kept.len() {
                assert(exists|j: int| 0 <= j < prev.len() && kept[t] == prev[j]);
                let j = choose|j: int| 0 <= j < prev.len() && kept[t] == prev[j];
                assert(prev[j] == overlay[j]);
                assert(added_entries(base, overlay)[t] == overlay[j]);
            } else {
                assert(added_entries(base, overlay)[t] == overlay[overlay.len() - 1]);
            }
        }
    }
}

/// Merging two documents with canonical number texts yields a document with
/// canonical number texts — the merge only rearranges subtrees.
pub proof fn lemma_merge_numbers_canonical(a: DocView, b: DocView)
    requires
        a.numbers_canonical(),
        b.numbers_canonical(),
    ensures
        spec_merge(a, b).numbers_canonical(),
    decreases a,
{
    broadcast use crate::document::lemma_numbers_canonical_entries_iff;

    if a is Object && b is Object {
        let xs = a->Object_0;
        let ys = b->Object_0;
        let mb = merged_base_entries(xs, ys);
        let ad = added_entries(xs, ys);
        assert(DocView::numbers_canonical_entries(xs));
        assert(DocView::numbers_canonical_entries(ys));
        lemma_merged_base_pointwise(xs, ys);
        lemma_added_membership(xs, ys);
        assert forall|k: int|
            0 <= k < (mb + ad).len() implies (#[trigger] (mb + ad)[k]).1.numbers_canonical() by {
            if k < mb.len() {
                if DocView::has_key(ys, xs[k].0) {
                    crate::document::lemma_value_of_numbers_canonical(ys, xs[k].0);
                    assert(decreases_to!(a => a->Object_0));
                    assert(decreases_to!(xs => xs[k]));
                    assert(decreases_to!(xs[k] => xs[k].1));
                    lemma_merge_numbers_canonical(xs[k].1, DocView::value_of(ys, xs[k].0));
                }
            } else {
                let t = k - mb.len();
                let j = choose|j: int| 0 <= j < ys.len() && ad[t] == ys[j];
                assert(ys[j].1.numbers_canonical());
            }
        }
        assert(DocView::numbers_canonical_entries(mb + ad));
    }
}

/// Merging cannot deepen a document: a bound on the nesting depth of both
/// inputs bounds the result.
pub proof fn lemma_merge_depth(a: DocView, b: DocView, n: nat)
    requires
        a.depth() <= n,
        b.depth() <= n,
    ensures
        spec_merge(a, b).depth() <= n,
    decreases a,
{
    broadcast use crate::document::lemma_entries_depth;

    if a is Object && b is Object {
        let xs = a->Object_0;
        let ys = b->Object_0;
        let mb = merged_base_entries(xs, ys);
        let ad = added_entries(xs, ys);
        let m: nat = (n - 1) as nat;
        assert(DocView::entries_depth(xs) <= m);
        assert(DocView::entries_depth(ys) <= m);
        lemma_merged_base_pointwise(xs, ys);
        lemma_added_membership(xs, ys);
        assert forall|k: int|
            0 <= k < (mb + ad).len() implies (#[trigger] (mb + ad)[k]).1.depth() <= m by {
            if k < mb.len() {
                assert(xs[k].1.depth() <= DocView::entries_depth(xs));
                if DocView::has_key(ys, xs[k].0) {
                    crate::document::lemma_value_of_depth(ys, xs[k].0);
                    assert(decreases_to!(a => a->Object_0));
                    assert(decreases_to!(xs => xs[k]));
                    assert(decreases_to!(xs[k] => xs[k].1));
                    lemma_merge_depth(xs[k].1, DocView::value_of(ys, xs[k].0), m);
                }
            } else {
                let t = k - mb.len();
                let j = choose|j: int| 0 <= j < ys.len() && ad[t] == ys[j];
                assert(ys[j].1.depth() <= DocView::entries_depth(ys));
            }
        }
        if (mb + ad).len() > 0 {
            let w = choose|w: int|
                0 <= w < (mb + ad).len() && DocView::entries_depth(mb + ad) == (mb
                    + ad)[w].1.depth();
            assert((mb + ad)[w].1.depth() <= m);
        }
        assert(DocView::entries_depth(mb + ad) <= m);
    }
}

/// Merging two round-trippable documents yields a round-trippable document:
/// number texts stay canonical and the nesting stays within the parser's
/// recursion limit.
pub proof fn lemma_merge_round_trippable(a: DocView, b: DocView)
    requires
        a.round_trippable(),
        b.round_trippable(),
    ensures
        spec_merge(a, b).round_trippable(),
{
    lemma_merge_numbers_canonical(a, b);
    lemma_merge_depth(a, b, crate::document::max_parse_depth());
}

/// Law: self-merge is the identity on well-formed documents — object keys
/// merge onto themselves and everything else is replaced by itself.
pub proof fn lemma_merge_idempotent(a: DocView)
    requires
        a.wf(),
    ensures
        spec_merge(a, a) == a,
    decreases a,
{
    broadcast use crate::document::lemma_wf_entries_iff;

    match a {
        DocView::Object(xs) => {
            assert(DocView::wf_entries(xs));
            assert forall|j: int| 0 <= j < xs.len() implies DocView::has_key(xs, xs[j].0) by {
                assert(0 <= j < xs.len() && xs[j].0 == xs[j].0);
            }
            lemma_added_none(xs, xs);
            lemma_merged_base_pointwise(xs, xs);
            assert forall|i: int|
                0 <= i < xs.len() implies merged_base_entries(xs, xs)[i] == xs[i] by {
                lemma_value_of_at(xs, xs[i].0, i);
                assert(decreases_to!(a => a->Object_0));
                assert(decreases_to!(xs => xs[i]));
                assert(decreases_to!(xs[i] => xs[i].1));
                lemma_merge_idempotent(xs[i].1);
            }
            assert(merged_base_entries(xs, xs) + added_entries(xs, xs) =~= xs);
        },
        _ => {},
    }
}

/// Merging two well-formed documents yields a well-formed document.
pub proof fn lemma_merge_wf(a: DocView, b: DocView)
    requires
        a.wf(),
        b.wf(),
    ensures
        spec_merge(a, b).wf(),
    decreases a,
{
    broadcast use crate::document::lemma_wf_entries_iff;

    if a is Object && b is Object {
        let xs = a->Object_0;
        let ys = b->Object_0;
        let mb = merged_base_entries(xs, ys);
        let ad = added_entries(xs, ys);
        assert(DocView::wf_entries(xs));
        assert(DocView::wf_entries(ys));
        lemma_merged_base_pointwise(xs, ys);
        lemma_added_props(xs, ys);
        assert forall|k: int|
            0 <= k < (mb + ad).len() implies (#[trigger] (mb + ad)[k]).1.wf() by {
            if k < mb.len() {
                if DocView::has_key(ys, xs[k].0) {
                    crate::document::lemma_value_of_wf(ys, xs[k].0);
                    assert(decreases_to!(a => a->Object_0));
                    assert(decreases_to!(xs => xs[k]));
                    assert(decreases_to!(xs[k] => xs[k].1));
                    lemma_merge_wf(xs[k].1, DocView::value_of(ys, xs[k].0));
                }
            } else {
                let t = k - mb.len();
                assert(!DocView::has_key(xs, ad[t].0));
                let j = choose|j: int| 0 <= j < ys.len() && ad[t] == ys[j];
                assert(ys[j].1.wf());
            }
        }
        assert forall|i: int, j: int|
            0 <= i < j < (mb + ad).len() implies (mb + ad)[i].0 != (mb + ad)[j].0 by {
            if j >= mb.len() {
                assert(!DocView::has_key(xs, ad[j - mb.len()].0));
                if i < mb.len() {
                    assert((mb + ad)[i].0 == xs[i].0);
                }
            }
        }
        assert(DocView::wf_entries(mb + ad));
        assert(DocView::unique_keys(mb + ad));
    }
}

/// When `key` first matches at position `j`, `value_of` returns that entry's value.
pub proof fn lemma_value_of_at(entries: Seq<(Seq<char>, DocView)>, key: Seq<char>, j: int)
    requires
        0 <= j < entries.len(),
        entries[j].0 == key,
        forall|t: int| 0 <= t < j ==> entries[t].0 != key,
    ensures
        DocView::has_key(entries, key),
        DocView::value_of(entries, key) == entries[j].1,
    decreases j,
{
    if j > 0 {
        lemma_value_of_at(entries.drop_first(), key, j - 1);
    }
}

/// The position of the first entry of `entries` whose key equals `key`, if any.
fn find_index(entries: &Vec<(String, Document)>, key: &String) -> (r: Option<usize>)
    ensures
        match r {
            Some(j) => {
                let ev = Document::entries_view(entries@);
                &&& 0 <= j < ev.len()
                &&& ev[j as int].0 == key@
                &&& forall|t: int| 0 <= t < j ==> ev[t].0 != key@
                &&& DocView::has_key(ev, key@)
                &&& DocView::value_of(ev, key@) == ev[j as int].1
            },
            None => !DocView::has_key(Document::entries_view(entries@), key@),
        },
{
    broadcast use crate::document::lemma_entries_view;

    let ghost ev = Document::entries_view(entries@);
    let mut i: usize = 0;
    #[verifier::loop_isolation(false)]
    while i < entries.len()
        invariant
            0 <= i <= entries@.len(),
            forall|t: int| 0 <= t < i ==> ev[t].0 != key@,
        decreases entries@.len() - i,
    {
        if entries[i].0 == *key {
            proof {
                lemma_value_of_at(ev, key@, i as int);
            }
            return Some(i);
        }
        i += 1;
    }
    None
}

/// The deep merge of `base` and `overlay`, as a fresh document.
///
/// Object merges with object key-by-key: keys of the base keep their position
/// (their values merged recursively where the overlay also carries the key),
/// and keys introduced by the overlay are appended in the overlay's order.
/// In every other pairing — `null`, booleans, numbers, strings, and arrays
/// on either side — the overlay replaces the base outright.
#[verifier::loop_isolation(false)]
pub fn merge(base: &Document, overlay: &Document) -> (r: Document)
    ensures
        r@ == spec_merge(base@, overlay@),
    decreases *base, *overlay,
{
    broadcast use crate::document::lemma_entries_view;

    match (base, overlay) {
        (Document::Object(xs), Document::Object(ys)) => {
            let ghost xv = Document::entries_view(xs@);
            let ghost yv = Document::entries_view(ys@);
            let mut out: Vec<(String, Document)> = Vec::new();
            let mut i: usize = 0;
            while i < xs.len()
                invariant
                    0 <= i <= xs@.len(),
                    Document::entries_view(out@) == merged_base_entries(
                        xv.take(i as int),
                        yv,
                    ),
                    out@.len() == i,
                decreases xs@.len() - i,
            {
                proof {
                    assert(decreases_to!(*base => base->Object_0));
                    assert(base->Object_0 == *xs);
                    assert(decreases_to!(*xs => xs@));
                    assert(decreases_to!(xs@ => xs@[i as int]));
                    assert(decreases_to!(xs@[i as int] => xs@[i as int].1));
                    assert(decreases_to!(*overlay => overlay->Object_0));
                    assert(overlay->Object_0 == *ys);
                    assert(decreases_to!(*ys => ys@));
                }
                let merged: Document = match find_index(ys, &xs[i].0) {
                    Some(j) => {
                        proof {
                            assert(decreases_to!(ys@ => ys@[j as int]));
                            assert(decreases_to!(ys@[j as int] => ys@[j as int].1));
                        }
                        merge(&xs[i].1, &ys[j].1)
                    },
                    None => xs[i].1.deep_copy(),
                };
                let key = xs[i].0.clone();
                let ghost pre = out@;
                out.push((key, merged));
                proof {
                    assert(out@.drop_last() =~= pre);
                    assert(xv.take(i + 1).drop_last() =~= xv.take(i as int));
                    assert(xv.take(i + 1).last() == xv[i as int]);
                    assert(Document::entries_view(out@) == merged_base_entries(
                        xv.take(i + 1),
                        yv,
                    ));
                }
                i += 1;
            }
            proof {
                assert(xv.take(xv.len() as int) =~= xv);
            }
            let mut j: usize = 0;
            while j < ys.len()
                invariant
                    0 <= j <= ys@.len(),
                    Document::entries_view(out@) == merged_base_entries(xv, yv)
                        + added_entries(xv, yv.take(j as int)),
                decreases ys@.len() - j,
            {
                let ghost pre = out@;
                match find_index(xs, &ys[j].0) {
                    Some(_) => {
                        proof {
                            assert(yv.take(j + 1).drop_last() =~= yv.take(j as int));
                            assert(yv.take(j + 1).last() == yv[j as int]);
                            assert(Document::entries_view(out@) == merged_base_entries(xv, yv)
                                + added_entries(xv, yv.take(j + 1)));
                        }
                    },
                    None => {
                        let key = ys[j].0.clone();
                        let copied = ys[j].1.deep_copy();
                        out.push((key, copied));
                        proof {
                            assert(out@.drop_last() =~= pre);
                            assert(yv.take(j + 1).drop_last() =~= yv.take(j as int));
                            assert(yv.take(j + 1).last() == yv[j as int]);
                            assert(Document::entries_view(out@) =~= merged_base_entries(xv, yv)
                                + added_entries(xv, yv.take(j + 1)));
                        }
                    },
                }
                j += 1;
            }
            proof {
                assert(yv.take(yv.len() as int) =~= yv);
            }
            Document::Object(out)
        },
        _ => {
            let r = overlay.deep_copy();
            proof {
                assert(spec_merge(base@, overlay@) == overlay@);
            }
            r
        },
    }
}

} // verus!
