//! The region reconciler.
//!
//! Walks the layers of an annotation document in order, gathering one
//! [`RegionInfo`] per region identifier: user-drawn layers (type "4")
//! supply text labels, computed-analysis layers (type "3") supply
//! per-region statistics keyed by the back-reference identifier of the
//! drawn region they belong to.  The result is an association list
//! sorted by region identifier, together with the diagnostics raised
//! on the way, and equals a purely functional model of the walk.

use vstd::prelude::*;
use crate::decimal::{parse_dec_spec, parse_decimal, Decimal};
use crate::doc::{Annotation, Annotations, AttributeHeader, Region, RegionAttributesAttribute};
use crate::region_info::{empty_info, info_wf, RegionInfo, RegionInfoV};
use crate::text::{
    basename_spec, basename_str, is_prefix, lemma_str_lt_asymmetric, lemma_str_lt_connected,
    lemma_str_lt_irreflexive, lemma_str_lt_transitive, starts_with_str, str_eq, str_lt,
    str_lt_exec, trim_spec, trim_str,
};

verus! {

/// The five statistics slots of an analysis layer.
#[derive(Clone, Copy, PartialEq, Eq, Structural, Debug)]
pub enum SlotKind {
    Positivity,
    Positive,
    WeakPositive,
    StrongPositive,
    Total,
}

/// A diagnostic raised while reconciling one document.
#[derive(Clone, Debug)]
pub enum Warning {
    /// A region's text label was written twice.
    OverwriteTextLabel,
    /// A region's positivity was written twice.
    OverwritePositivity,
    /// A region's positive count was written twice.
    OverwriteNumPositive,
    /// A region's total count was written twice.
    OverwriteNumTotal,
    /// An analysis layer carries no attribute header list.
    MissingHeaderList { layer_id: String },
    /// An analysis layer's headers resolve no identifier for a slot.
    MissingSlot { slot: SlotKind },
    /// A further analysis layer was found; its values win on conflict.
    MultipleAnalysisLayers { layer_id: String },
    /// An analysis region carries no back-reference identifier.
    MissingBackReference { region_id: String },
}

/// The mathematical value of a [`Warning`].
pub enum WarningV {
    OverwriteTextLabel,
    OverwritePositivity,
    OverwriteNumPositive,
    OverwriteNumTotal,
    MissingHeaderList { layer_id: Seq<char> },
    MissingSlot { slot: SlotKind },
    MultipleAnalysisLayers { layer_id: Seq<char> },
    MissingBackReference { region_id: Seq<char> },
}

impl View for Warning {
    type V = WarningV;

    open spec fn view(&self) -> WarningV {
        match self {
            Warning::OverwriteTextLabel => WarningV::OverwriteTextLabel,
            Warning::OverwritePositivity => WarningV::OverwritePositivity,
            Warning::OverwriteNumPositive => WarningV::OverwriteNumPositive,
            Warning::OverwriteNumTotal => WarningV::OverwriteNumTotal,
            Warning::MissingHeaderList { layer_id } => WarningV::MissingHeaderList {
                layer_id: layer_id@,
            },
            Warning::MissingSlot { slot } => WarningV::MissingSlot { slot: *slot },
            Warning::MultipleAnalysisLayers { layer_id } => WarningV::MultipleAnalysisLayers {
                layer_id: layer_id@,
            },
            Warning::MissingBackReference { region_id } => WarningV::MissingBackReference {
                region_id: region_id@,
            },
        }
    }
}

/// One reconciled region: its identifier and its accumulated record.
pub struct RegionEntry {
    pub id: String,
    pub info: RegionInfo,
}

/// The association list as its mathematical value: identifier and
/// record views, in order.
pub open spec fn entries_view(s: Seq<RegionEntry>) -> Seq<(Seq<char>, RegionInfoV)> {
    Seq::new(s.len(), |i: int| (s[i].id@, s[i].info@))
}

/// The warning list as its mathematical value.
pub open spec fn warnings_view(s: Seq<Warning>) -> Seq<WarningV> {
    Seq::new(s.len(), |i: int| s[i]@)
}

/// Keys strictly ascend, so each key occurs once.
pub open spec fn sorted_keys(m: Seq<(Seq<char>, RegionInfoV)>) -> bool {
    forall|i: int, j: int| 0 <= i < j < m.len() ==> str_lt(m[i].0, m[j].0)
}

/// Some entry carries the key.
pub open spec fn has_key(m: Seq<(Seq<char>, RegionInfoV)>, k: Seq<char>) -> bool {
    exists|i: int| 0 <= i < m.len() && m[i].0 == k
}

/// Keys ascend and every record is well-formed.
pub open spec fn infos_ok(m: Seq<(Seq<char>, RegionInfoV)>) -> bool {
    sorted_keys(m) && forall|i: int| 0 <= i < m.len() ==> info_wf(m[i].1)
}

/// The record stored under a key, or the empty record.
pub open spec fn infos_get(m: Seq<(Seq<char>, RegionInfoV)>, k: Seq<char>) -> RegionInfoV
    decreases m.len(),
{
    if m.len() == 0 {
        empty_info()
    } else if m[0].0 == k {
        m[0].1
    } else {
        infos_get(m.drop_first(), k)
    }
}

/// The list with an empty record inserted at the key's place, when the
/// key is not yet present.
pub open spec fn infos_ensure(
    m: Seq<(Seq<char>, RegionInfoV)>,
    k: Seq<char>,
) -> Seq<(Seq<char>, RegionInfoV)>
    decreases m.len(),
{
    if m.len() == 0 {
        seq![(k, empty_info())]
    } else if str_lt(k, m[0].0) {
        seq![(k, empty_info())] + m
    } else if m[0].0 == k {
        m
    } else {
        seq![m[0]] + infos_ensure(m.drop_first(), k)
    }
}

/// The list with the record under the key replaced (or inserted).
pub open spec fn infos_set(
    m: Seq<(Seq<char>, RegionInfoV)>,
    k: Seq<char>,
    v: RegionInfoV,
) -> Seq<(Seq<char>, RegionInfoV)>
    decreases m.len(),
{
    if m.len() == 0 {
        seq![(k, v)]
    } else if str_lt(k, m[0].0) {
        seq![(k, v)] + m
    } else if m[0].0 == k {
        seq![(k, v)] + m.drop_first()
    } else {
        seq![m[0]] + infos_set(m.drop_first(), k, v)
    }
}

proof fn lemma_sorted_drop_first(m: Seq<(Seq<char>, RegionInfoV)>)
    requires
        sorted_keys(m),
        m.len() > 0,
    ensures
        sorted_keys(m.drop_first()),
{
    let t = m.drop_first();
    assert forall|i: int, j: int| 0 <= i < j < t.len() implies str_lt(t[i].0, t[j].0) by {
        assert(t[i] == m[i + 1]);
        assert(t[j] == m[j + 1]);
    }
}

/// Where the scan of a sorted list stops, `infos_ensure` either finds
/// the key or inserts a fresh record exactly there.
pub proof fn lemma_ensure_splits(m: Seq<(Seq<char>, RegionInfoV)>, k: Seq<char>, p: int)
    requires
        sorted_keys(m),
        0 <= p <= m.len(),
        forall|j: int| 0 <= j < p ==> str_lt(m[j].0, k),
        p == m.len() || !str_lt(m[p].0, k),
    ensures
        p < m.len() && m[p].0 == k ==> infos_ensure(m, k) == m,
        !(p < m.len() && m[p].0 == k) ==> infos_ensure(m, k) =~= m.take(p) + seq![
            (k, empty_info()),
        ] + m.skip(p),
    decreases m.len(),
{
    if p == 0 {
        if m.len() == 0 {
            assert(infos_ensure(m, k) =~= m.take(0) + seq![(k, empty_info())] + m.skip(0));
        } else if m[0].0 == k {
            lemma_str_lt_irreflexive(k);
        } else {
            lemma_str_lt_connected(k, m[0].0);
            assert(str_lt(k, m[0].0));
            assert(infos_ensure(m, k) == seq![(k, empty_info())] + m);
            assert(infos_ensure(m, k) =~= m.take(0) + seq![(k, empty_info())] + m.skip(0));
        }
    } else {
        assert(str_lt(m[0].0, k));
        lemma_str_lt_asymmetric(m[0].0, k);
        let t = m.drop_first();
        lemma_sorted_drop_first(m);
        assert(forall|j: int| 0 <= j < p - 1 ==> t[j] == m[j + 1] && str_lt(t[j].0, k));
        assert(p - 1 == t.len() || !str_lt(t[p - 1].0, k)) by {
            if p - 1 < t.len() {
                assert(t[p - 1] == m[p]);
            }
        }
        lemma_ensure_splits(t, k, p - 1);
        assert(infos_ensure(m, k) == seq![m[0]] + infos_ensure(t, k));
        if p < m.len() && m[p].0 == k {
            assert(t[p - 1].0 == k);
            assert(seq![m[0]] + t =~= m);
        } else {
            assert(!(p - 1 < t.len() && t[p - 1].0 == k)) by {
                if p < m.len() {
                    assert(t[p - 1] == m[p]);
                }
            }
            assert(infos_ensure(t, k) =~= t.take(p - 1) + seq![(k, empty_info())] + t.skip(p - 1));
            assert(seq![m[0]] + (t.take(p - 1) + seq![(k, empty_info())] + t.skip(p - 1)) =~= m.take(
                p) + seq![(k, empty_info())] + m.skip(p));
        }
    }
}

/// `infos_ensure` keeps the list sorted and well-formed, keeps every
/// key, and makes the requested key present.
pub proof fn lemma_ensure_props(m: Seq<(Seq<char>, RegionInfoV)>, k: Seq<char>)
    requires
        sorted_keys(m),
    ensures
        sorted_keys(infos_ensure(m, k)),
        has_key(infos_ensure(m, k), k),
        forall|j: int|
            0 <= j < infos_ensure(m, k).len() ==> (infos_ensure(m, k)[j] == (k, empty_info())
                || (exists|t: int| 0 <= t < m.len() && m[t] == infos_ensure(m, k)[j])),
        forall|k2: Seq<char>| has_key(m, k2) ==> has_key(infos_ensure(m, k), k2),
        infos_get(infos_ensure(m, k), k) == infos_get(m, k),
        (forall|i: int| 0 <= i < m.len() ==> info_wf(m[i].1)) ==> (forall|i: int|
            0 <= i < infos_ensure(m, k).len() ==> info_wf(infos_ensure(m, k)[i].1)),
    decreases m.len(),
{
    let r = infos_ensure(m, k);
    if m.len() == 0 {
        assert(r[0] == (k, empty_info()));
        assert(info_wf(empty_info()));
    } else if str_lt(k, m[0].0) {
        assert(r == seq![(k, empty_info())] + m);
        assert(r[0] == (k, empty_info()));
        assert(forall|j: int| 1 <= j < r.len() ==> r[j] == m[j - 1]);
        assert forall|i: int, j: int| 0 <= i < j < r.len() implies str_lt(r[i].0, r[j].0) by {
            if i == 0 {
                if j == 1 {
                    assert(r[j] == m[0]);
                } else {
                    assert(str_lt(m[0].0, m[j - 1].0));
                    lemma_str_lt_transitive(k, m[0].0, m[j - 1].0);
                }
            }
        }
        assert(infos_get(r, k) == r[0].1);
        assert(infos_get(m, k) == empty_info()) by {
            lemma_get_absent_when_less(m, k);
        }
        assert forall|k2: Seq<char>| has_key(m, k2) implies has_key(r, k2) by {
            let t = choose|t: int| 0 <= t < m.len() && m[t].0 == k2;
            assert(r[t + 1].0 == k2);
        }
    } else if m[0].0 == k {
        assert(r == m);
        assert(infos_get(m, k) == m[0].1);
    } else {
        lemma_str_lt_connected(k, m[0].0);
        assert(str_lt(m[0].0, k));
        let t = m.drop_first();
        lemma_sorted_drop_first(m);
        lemma_ensure_props(t, k);
        assert(r == seq![m[0]] + infos_ensure(t, k));
        let rt = infos_ensure(t, k);
        assert(r.len() == 1 + rt.len());
        assert(r[0] == m[0]);
        assert(forall|j: int| 1 <= j < r.len() ==> r[j] == rt[j - 1]);
        assert forall|i: int, j: int| 0 <= i < j < r.len() implies str_lt(r[i].0, r[j].0) by {
            if i == 0 {
                assert(r[j] == rt[j - 1]);
                if rt[j - 1] == (k, empty_info()) {
                    assert(str_lt(m[0].0, k));
                } else {
                    let u = choose|u: int| 0 <= u < t.len() && t[u] == rt[j - 1];
                    assert(t[u] == m[u + 1]);
                    assert(str_lt(m[0].0, m[u + 1].0));
                }
            }
        }
        assert(has_key(r, k)) by {
            let w = choose|w: int| 0 <= w < rt.len() && rt[w].0 == k;
            assert(r[w + 1].0 == k);
        }
        assert forall|k2: Seq<char>| has_key(m, k2) implies has_key(r, k2) by {
            let u = choose|u: int| 0 <= u < m.len() && m[u].0 == k2;
            if u == 0 {
                assert(r[0].0 == k2);
            } else {
                assert(t[u - 1].0 == k2);
                assert(has_key(t, k2));
                assert(has_key(rt, k2));
                let w = choose|w: int| 0 <= w < rt.len() && rt[w].0 == k2;
                assert(r[w + 1].0 == k2);
            }
        }
        assert(infos_get(r, k) == infos_get(rt, k)) by {
            assert(r.drop_first() =~= rt);
        }
        assert(infos_get(m, k) == infos_get(t, k));
        assert forall|j: int|
            0 <= j < r.len() implies (r[j] == (k, empty_info()) || (exists|u: int|
                0 <= u < m.len() && m[u] == r[j])) by {
            if j == 0 {
                assert(m[0] == r[0]);
            } else if !(rt[j - 1] == (k, empty_info())) {
                let u = choose|u: int| 0 <= u < t.len() && t[u] == rt[j - 1];
                assert(m[u + 1] == r[j]);
            }
        }
    }
}

proof fn lemma_get_absent_when_less(m: Seq<(Seq<char>, RegionInfoV)>, k: Seq<char>)
    requires
        sorted_keys(m),
        m.len() == 0 || str_lt(k, m[0].0),
    ensures
        infos_get(m, k) == empty_info(),
    decreases m.len(),
{
    if m.len() > 0 {
        lemma_str_lt_asymmetric(k, m[0].0);
        let t = m.drop_first();
        lemma_sorted_drop_first(m);
        if t.len() > 0 {
            assert(t[0] == m[1]);
            lemma_str_lt_transitive(k, m[0].0, m[1].0);
        }
        lemma_get_absent_when_less(t, k);
    }
}

/// The record stored at an index of a sorted list is what lookup by
/// its key finds.
pub proof fn lemma_get_at(m: Seq<(Seq<char>, RegionInfoV)>, k: Seq<char>, i: int)
    requires
        sorted_keys(m),
        0 <= i < m.len(),
        m[i].0 == k,
    ensures
        infos_get(m, k) == m[i].1,
    decreases m.len(),
{
    if i == 0 {
    } else {
        assert(str_lt(m[0].0, m[i].0));
        lemma_str_lt_asymmetric(m[0].0, m[i].0);
        assert(m[0].0 != k);
        let t = m.drop_first();
        lemma_sorted_drop_first(m);
        assert(t[i - 1] == m[i]);
        lemma_get_at(t, k, i - 1);
    }
}

/// Replacing the record under a present key is an index update.
pub proof fn lemma_set_at(m: Seq<(Seq<char>, RegionInfoV)>, k: Seq<char>, v: RegionInfoV, i: int)
    requires
        sorted_keys(m),
        0 <= i < m.len(),
        m[i].0 == k,
    ensures
        infos_set(m, k, v) =~= m.update(i, (k, v)),
    decreases m.len(),
{
    if i == 0 {
        lemma_str_lt_irreflexive(k);
        assert(seq![(k, v)] + m.drop_first() =~= m.update(0, (k, v)));
    } else {
        assert(str_lt(m[0].0, m[i].0));
        lemma_str_lt_asymmetric(m[0].0, m[i].0);
        assert(m[0].0 != k);
        let t = m.drop_first();
        lemma_sorted_drop_first(m);
        assert(t[i - 1] == m[i]);
        lemma_set_at(t, k, v, i - 1);
        assert(seq![m[0]] + t.update(i - 1, (k, v)) =~= m.update(i, (k, v)));
    }
}

/// The resolved slot identifiers of one analysis layer.
pub struct SlotIds {
    pub positivity: Seq<char>,
    pub positive: Seq<char>,
    pub wpositive: Seq<char>,
    pub spositive: Seq<char>,
    pub total: Seq<char>,
}

/// Store a region's label under its own identifier, flagging an
/// overwrite.
pub open spec fn set_label_step(
    m: Seq<(Seq<char>, RegionInfoV)>,
    w: Seq<WarningV>,
    id: Seq<char>,
    text: Seq<char>,
) -> (Seq<(Seq<char>, RegionInfoV)>, Seq<WarningV>) {
    let m1 = infos_ensure(m, id);
    let o = infos_get(m1, id);
    let w1 = if o.text_label is Some {
        w.push(WarningV::OverwriteTextLabel)
    } else {
        w
    };
    (infos_set(m1, id, RegionInfoV { text_label: Some(text), ..o }), w1)
}

/// Store a region's image filename under the given key.
pub open spec fn set_image_step(
    m: Seq<(Seq<char>, RegionInfoV)>,
    w: Seq<WarningV>,
    id: Seq<char>,
    loc: Seq<char>,
) -> (Seq<(Seq<char>, RegionInfoV)>, Seq<WarningV>) {
    let m1 = infos_ensure(m, id);
    let o = infos_get(m1, id);
    (infos_set(m1, id, RegionInfoV { image_location: Some(loc), ..o }), w)
}

/// Store a positivity value, flagging an overwrite.
pub open spec fn set_positivity_step(
    m: Seq<(Seq<char>, RegionInfoV)>,
    w: Seq<WarningV>,
    id: Seq<char>,
    v: Option<Decimal>,
) -> (Seq<(Seq<char>, RegionInfoV)>, Seq<WarningV>) {
    let m1 = infos_ensure(m, id);
    let o = infos_get(m1, id);
    let w1 = if o.positivity is Some {
        w.push(WarningV::OverwritePositivity)
    } else {
        w
    };
    (infos_set(m1, id, RegionInfoV { positivity: v, ..o }), w1)
}

/// Store a positive count, flagging an overwrite.
pub open spec fn set_num_positive_step(
    m: Seq<(Seq<char>, RegionInfoV)>,
    w: Seq<WarningV>,
    id: Seq<char>,
    v: Option<Decimal>,
) -> (Seq<(Seq<char>, RegionInfoV)>, Seq<WarningV>) {
    let m1 = infos_ensure(m, id);
    let o = infos_get(m1, id);
    let w1 = if o.num_positive is Some {
        w.push(WarningV::OverwriteNumPositive)
    } else {
        w
    };
    (infos_set(m1, id, RegionInfoV { num_positive: v, ..o }), w1)
}

/// Store a weak-positive count.
pub open spec fn set_num_wpositive_step(
    m: Seq<(Seq<char>, RegionInfoV)>,
    w: Seq<WarningV>,
    id: Seq<char>,
    v: Option<Decimal>,
) -> (Seq<(Seq<char>, RegionInfoV)>, Seq<WarningV>) {
    let m1 = infos_ensure(m, id);
    let o = infos_get(m1, id);
    (infos_set(m1, id, RegionInfoV { num_wpositive: v, ..o }), w)
}

/// Store a strong-positive count.
pub open spec fn set_num_spositive_step(
    m: Seq<(Seq<char>, RegionInfoV)>,
    w: Seq<WarningV>,
    id: Seq<char>,
    v: Option<Decimal>,
) -> (Seq<(Seq<char>, RegionInfoV)>, Seq<WarningV>) {
    let m1 = infos_ensure(m, id);
    let o = infos_get(m1, id);
    (infos_set(m1, id, RegionInfoV { num_spositive: v, ..o }), w)
}

/// Store a total count, flagging an overwrite.
pub open spec fn set_num_total_step(
    m: Seq<(Seq<char>, RegionInfoV)>,
    w: Seq<WarningV>,
    id: Seq<char>,
    v: Option<Decimal>,
) -> (Seq<(Seq<char>, RegionInfoV)>, Seq<WarningV>) {
    let m1 = infos_ensure(m, id);
    let o = infos_get(m1, id);
    let w1 = if o.num_total is Some {
        w.push(WarningV::OverwriteNumTotal)
    } else {
        w
    };
    (infos_set(m1, id, RegionInfoV { num_total: v, ..o }), w1)
}

/// One region of a user-drawn layer: store the trimmed label under the
/// region's own identifier.
pub open spec fn label_region_step(
    m: Seq<(Seq<char>, RegionInfoV)>,
    w: Seq<WarningV>,
    r: Region,
) -> (Seq<(Seq<char>, RegionInfoV)>, Seq<WarningV>) {
    set_label_step(m, w, r.id@, trim_spec(r.text@))
}

/// All regions of a user-drawn layer, in order.
pub open spec fn label_regions_fold(
    m: Seq<(Seq<char>, RegionInfoV)>,
    w: Seq<WarningV>,
    rs: Seq<Region>,
) -> (Seq<(Seq<char>, RegionInfoV)>, Seq<WarningV>)
    decreases rs.len(),
{
    if rs.len() == 0 {
        (m, w)
    } else {
        let p = label_region_step(m, w, rs[0]);
        label_regions_fold(p.0, p.1, rs.drop_first())
    }
}

/// One generic attribute of an analysis region: wherever its name
/// equals a resolved slot identifier, parse the trimmed value and
/// store it in the matching field under the back-reference key.
pub open spec fn attr_step(
    m: Seq<(Seq<char>, RegionInfoV)>,
    w: Seq<WarningV>,
    id: Seq<char>,
    a: RegionAttributesAttribute,
    s: SlotIds,
) -> (Seq<(Seq<char>, RegionInfoV)>, Seq<WarningV>) {
    let v = parse_dec_spec(trim_spec(a.value@));
    let p1 = if a.name@ == s.positivity {
        set_positivity_step(m, w, id, v)
    } else {
        (m, w)
    };
    let p2 = if a.name@ == s.positive {
        set_num_positive_step(p1.0, p1.1, id, v)
    } else {
        p1
    };
    let p3 = if a.name@ == s.wpositive {
        set_num_wpositive_step(p2.0, p2.1, id, v)
    } else {
        p2
    };
    let p4 = if a.name@ == s.spositive {
        set_num_spositive_step(p3.0, p3.1, id, v)
    } else {
        p3
    };
    if a.name@ == s.total {
        set_num_total_step(p4.0, p4.1, id, v)
    } else {
        p4
    }
}

/// All generic attributes of one analysis region, in order.
pub open spec fn attrs_fold(
    m: Seq<(Seq<char>, RegionInfoV)>,
    w: Seq<WarningV>,
    id: Seq<char>,
    attrs: Seq<RegionAttributesAttribute>,
    s: SlotIds,
) -> (Seq<(Seq<char>, RegionInfoV)>, Seq<WarningV>)
    decreases attrs.len(),
{
    if attrs.len() == 0 {
        (m, w)
    } else {
        let p = attr_step(m, w, id, attrs[0], s);
        attrs_fold(p.0, p.1, id, attrs.drop_first(), s)
    }
}

/// One region of an analysis layer: a missing back-reference skips the
/// region with a warning; otherwise the image basename and the slot
/// values are stored under the back-reference key.
pub open spec fn analysis_region_step(
    m: Seq<(Seq<char>, RegionInfoV)>,
    w: Seq<WarningV>,
    r: Region,
    s: SlotIds,
) -> (Seq<(Seq<char>, RegionInfoV)>, Seq<WarningV>) {
    match r.input_region_id {
        None => (m, w.push(WarningV::MissingBackReference { region_id: r.id@ })),
        Some(rid) => {
            let p1 = match r.image_location {
                Some(loc) => if basename_spec(loc@).len() > 0 {
                    set_image_step(m, w, rid@, basename_spec(loc@))
                } else {
                    (m, w)
                },
                None => (m, w),
            };
            match r.attributes.attribute {
                None => p1,
                Some(av) => attrs_fold(p1.0, p1.1, rid@, av@, s),
            }
        },
    }
}

/// All regions of an analysis layer, in order.
pub open spec fn analysis_regions_fold(
    m: Seq<(Seq<char>, RegionInfoV)>,
    w: Seq<WarningV>,
    rs: Seq<Region>,
    s: SlotIds,
) -> (Seq<(Seq<char>, RegionInfoV)>, Seq<WarningV>)
    decreases rs.len(),
{
    if rs.len() == 0 {
        (m, w)
    } else {
        let p = analysis_region_step(m, w, rs[0], s);
        analysis_regions_fold(p.0, p.1, rs.drop_first(), s)
    }
}

/// The identifier of the first header whose name begins with the
/// prefix.
pub open spec fn find_header_id(hs: Seq<AttributeHeader>, prefix: Seq<char>) -> Option<Seq<char>>
    decreases hs.len(),
{
    if hs.len() == 0 {
        None
    } else if is_prefix(prefix, hs[0].name@) {
        Some(hs[0].id@)
    } else {
        find_header_id(hs.drop_first(), prefix)
    }
}

/// The whole state of the walk: the records, the diagnostics, and
/// whether an analysis layer was already processed.
pub struct ReconState {
    pub infos: Seq<(Seq<char>, RegionInfoV)>,
    pub warnings: Seq<WarningV>,
    pub seen_analysis: bool,
}

/// One analysis layer: requires a header list resolving all five
/// slots; a second such layer is flagged and its values win.
pub open spec fn analysis_layer_step(st: ReconState, layer: Annotation) -> ReconState {
    match layer.regions.region_attribute_headers.attribute_header {
        None => ReconState {
            warnings: st.warnings.push(WarningV::MissingHeaderList { layer_id: layer.id@ }),
            ..st
        },
        Some(hs) => {
            let po = find_header_id(hs@, "Positivity ="@);
            let np = find_header_id(hs@, "Np  ="@);
            let nwp = find_header_id(hs@, "Nwp ="@);
            let nsp = find_header_id(hs@, "Nsp ="@);
            let nt = find_header_id(hs@, "NTotal ="@);
            if po is None {
                ReconState {
                    warnings: st.warnings.push(WarningV::MissingSlot { slot: SlotKind::Positivity }),
                    ..st
                }
            } else if np is None {
                ReconState {
                    warnings: st.warnings.push(WarningV::MissingSlot { slot: SlotKind::Positive }),
                    ..st
                }
            } else if nwp is None {
                ReconState {
                    warnings: st.warnings.push(
                        WarningV::MissingSlot { slot: SlotKind::WeakPositive },
                    ),
                    ..st
                }
            } else if nsp is None {
                ReconState {
                    warnings: st.warnings.push(
                        WarningV::MissingSlot { slot: SlotKind::StrongPositive },
                    ),
                    ..st
                }
            } else if nt is None {
                ReconState {
                    warnings: st.warnings.push(WarningV::MissingSlot { slot: SlotKind::Total }),
                    ..st
                }
            } else {
                let w0 = if st.seen_analysis {
                    st.warnings.push(WarningV::MultipleAnalysisLayers { layer_id: layer.id@ })
                } else {
                    st.warnings
                };
                let s = SlotIds {
                    positivity: po.unwrap(),
                    positive: np.unwrap(),
                    wpositive: nwp.unwrap(),
                    spositive: nsp.unwrap(),
                    total: nt.unwrap(),
                };
                let p = analysis_regions_fold(st.infos, w0, layer.regions.region@, s);
                ReconState { infos: p.0, warnings: p.1, seen_analysis: true }
            }
        },
    }
}

/// One layer: type "4" stores labels, type "3" stores statistics, any
/// other type is ignored.
pub open spec fn layer_step(st: ReconState, layer: Annotation) -> ReconState {
    if layer.annotation_type@ == "4"@ {
        let p = label_regions_fold(st.infos, st.warnings, layer.regions.region@);
        ReconState { infos: p.0, warnings: p.1, ..st }
    } else if layer.annotation_type@ == "3"@ {
        analysis_layer_step(st, layer)
    } else {
        st
    }
}

/// All layers, in document order.
pub open spec fn layers_fold(st: ReconState, ls: Seq<Annotation>) -> ReconState
    decreases ls.len(),
{
    if ls.len() == 0 {
        st
    } else {
        layers_fold(layer_step(st, ls[0]), ls.drop_first())
    }
}

/// The initial state: no records, no warnings, no analysis layer seen.
pub open spec fn init_state() -> ReconState {
    ReconState { infos: Seq::empty(), warnings: Seq::empty(), seen_analysis: false }
}

/// The model of reconciling one document.
pub open spec fn reconcile_spec(doc: Annotations) -> ReconState {
    layers_fold(init_state(), doc.annotation@)
}

proof fn lemma_label_fold_snoc(
    m: Seq<(Seq<char>, RegionInfoV)>,
    w: Seq<WarningV>,
    rs: Seq<Region>,
    x: Region,
)
    ensures
        label_regions_fold(m, w, rs.push(x)) == ({
            let p = label_regions_fold(m, w, rs);
            label_region_step(p.0, p.1, x)
        }),
    decreases rs.len(),
{
    let e = rs.push(x);
    if rs.len() == 0 {
        assert(e[0] == x);
        assert(e.drop_first() =~= Seq::<Region>::empty());
        let q = label_region_step(m, w, x);
        assert(label_regions_fold(q.0, q.1, e.drop_first()) == (q.0, q.1));
        assert(label_regions_fold(m, w, e) == (q.0, q.1));
        assert(label_regions_fold(m, w, rs) == (m, w));
        assert((q.0, q.1) == q);
    } else {
        assert(e[0] == rs[0]);
        assert(e.drop_first() =~= rs.drop_first().push(x));
        let p = label_region_step(m, w, rs[0]);
        assert(label_regions_fold(m, w, e) == label_regions_fold(p.0, p.1, e.drop_first()));
        assert(label_regions_fold(m, w, rs) == label_regions_fold(p.0, p.1, rs.drop_first()));
        lemma_label_fold_snoc(p.0, p.1, rs.drop_first(), x);
    }
}

proof fn lemma_attrs_fold_snoc(
    m: Seq<(Seq<char>, RegionInfoV)>,
    w: Seq<WarningV>,
    id: Seq<char>,
    attrs: Seq<RegionAttributesAttribute>,
    x: RegionAttributesAttribute,
    s: SlotIds,
)
    ensures
        attrs_fold(m, w, id, attrs.push(x), s) == ({
            let p = attrs_fold(m, w, id, attrs, s);
            attr_step(p.0, p.1, id, x, s)
        }),
    decreases attrs.len(),
{
    let e = attrs.push(x);
    if attrs.len() == 0 {
        assert(e[0] == x);
        assert(e.drop_first() =~= Seq::<RegionAttributesAttribute>::empty());
        let q = attr_step(m, w, id, x, s);
        assert(attrs_fold(q.0, q.1, id, e.drop_first(), s) == (q.0, q.1));
        assert(attrs_fold(m, w, id, e, s) == (q.0, q.1));
        assert(attrs_fold(m, w, id, attrs, s) == (m, w));
        assert((q.0, q.1) == q);
    } else {
        assert(e[0] == attrs[0]);
        assert(e.drop_first() =~= attrs.drop_first().push(x));
        let p = attr_step(m, w, id, attrs[0], s);
        assert(attrs_fold(m, w, id, e, s) == attrs_fold(p.0, p.1, id, e.drop_first(), s));
        assert(attrs_fold(m, w, id, attrs, s) == attrs_fold(p.0, p.1, id, attrs.drop_first(), s));
        lemma_attrs_fold_snoc(p.0, p.1, id, attrs.drop_first(), x, s);
    }
}

proof fn lemma_analysis_fold_snoc(
    m: Seq<(Seq<char>, RegionInfoV)>,
    w: Seq<WarningV>,
    rs: Seq<Region>,
    x: Region,
    s: SlotIds,
)
    ensures
        analysis_regions_fold(m, w, rs.push(x), s) == ({
            let p = analysis_regions_fold(m, w, rs, s);
            analysis_region_step(p.0, p.1, x, s)
        }),
    decreases rs.len(),
{
    let e = rs.push(x);
    if rs.len() == 0 {
        assert(e[0] == x);
        assert(e.drop_first() =~= Seq::<Region>::empty());
        let q = analysis_region_step(m, w, x, s);
        assert(analysis_regions_fold(q.0, q.1, e.drop_first(), s) == (q.0, q.1));
        assert(analysis_regions_fold(m, w, e, s) == (q.0, q.1));
        assert(analysis_regions_fold(m, w, rs, s) == (m, w));
        assert((q.0, q.1) == q);
    } else {
        assert(e[0] == rs[0]);
        assert(e.drop_first() =~= rs.drop_first().push(x));
        let p = analysis_region_step(m, w, rs[0], s);
        assert(analysis_regions_fold(m, w, e, s) == analysis_regions_fold(p.0, p.1,
            e.drop_first(), s));
        assert(analysis_regions_fold(m, w, rs, s) == analysis_regions_fold(p.0, p.1,
            rs.drop_first(), s));
        lemma_analysis_fold_snoc(p.0, p.1, rs.drop_first(), x, s);
    }
}

proof fn lemma_layers_fold_snoc(st: ReconState, ls: Seq<Annotation>, x: Annotation)
    ensures
        layers_fold(st, ls.push(x)) == layer_step(layers_fold(st, ls), x),
    decreases ls.len(),
{
    let e = ls.push(x);
    if ls.len() == 0 {
        assert(e[0] == x);
        assert(e.drop_first() =~= Seq::<Annotation>::empty());
        assert(layers_fold(layer_step(st, x), e.drop_first()) == layer_step(st, x));
        assert(layers_fold(st, e) == layer_step(st, x));
        assert(layers_fold(st, ls) == st);
    } else {
        assert(e[0] == ls[0]);
        assert(e.drop_first() =~= ls.drop_first().push(x));
        assert(layers_fold(st, e) == layers_fold(layer_step(st, ls[0]), e.drop_first()));
        assert(layers_fold(st, ls) == layers_fold(layer_step(st, ls[0]), ls.drop_first()));
        lemma_layers_fold_snoc(layer_step(st, ls[0]), ls.drop_first(), x);
    }
}

/// Find the entry with the identifier, inserting a fresh record at its
/// sorted position when absent; returns its index.
fn ensure_entry(entries: &mut Vec<RegionEntry>, id: &String) -> (i: usize)
    requires
        sorted_keys(entries_view(old(entries)@)),
    ensures
        entries_view(final(entries)@) == infos_ensure(entries_view(old(entries)@), id@),
        sorted_keys(entries_view(final(entries)@)),
        i < final(entries)@.len(),
        final(entries)@[i as int].id@ == id@,
{
    let ghost m = entries_view(entries@);
    proof {
        lemma_ensure_props(m, id@);
    }
    let n = entries.len();
    let mut i: usize = 0;
    while i < n && str_lt_exec(entries[i].id.as_str(), id.as_str())
        invariant
            0 <= i <= n,
            n == entries@.len(),
            m == entries_view(entries@),
            sorted_keys(m),
            forall|j: int| 0 <= j < i ==> str_lt(m[j].0, id@),
        decreases n - i,
    {
        proof {
            assert(m[i as int].0 == entries@[i as int].id@);
        }
        i = i + 1;
    }
    proof {
        assert(i == n || !str_lt(m[i as int].0, id@));
        lemma_ensure_splits(m, id@, i as int);
    }
    if i < n && str_eq(entries[i].id.as_str(), id.as_str()) {
        proof {
            assert(m[i as int].0 == id@);
            assert(infos_ensure(m, id@) == m);
        }
        return i;
    }
    proof {
        if i < n {
            lemma_str_lt_connected(m[i as int].0, id@);
        }
        assert(!(i < n && m[i as int].0 == id@));
    }
    entries.insert(i, RegionEntry { id: id.clone(), info: RegionInfo::new() });
    proof {
        assert(entries_view(entries@) =~= m.take(i as int) + seq![(id@, empty_info())] + m.skip(
            i as int));
        assert(entries@[i as int].id@ == id@);
    }
    i
}

/// Store a label under the region's own identifier, flagging an
/// overwritten label.
fn apply_set_label(
    entries: &mut Vec<RegionEntry>,
    warnings: &mut Vec<Warning>,
    id: &String,
    text: String,
)
    requires
        sorted_keys(entries_view(old(entries)@)),
    ensures
        ({
            let p = set_label_step(
                entries_view(old(entries)@),
                warnings_view(old(warnings)@),
                id@,
                text@,
            );
            entries_view(final(entries)@) == p.0 && warnings_view(final(warnings)@) == p.1
                && sorted_keys(entries_view(final(entries)@))
        }),
{
    let ghost m0 = entries_view(entries@);
    let i = ensure_entry(entries, id);
    let ghost m1 = entries_view(entries@);
    let ghost o = entries@[i as int].info@;
    proof {
        lemma_get_at(m1, id@, i as int);
    }
    let ghost tv = text@;
    let ov = entries[i].info.set_text_label(Some(text));
    proof {
        let nv = RegionInfoV { text_label: Some(tv), ..o };
        assert(entries@[i as int].info@ == nv);
        assert(entries@[i as int].id@ == id@);
        assert(entries_view(entries@) =~= m1.update(i as int, (id@, nv)));
        lemma_set_at(m1, id@, nv, i as int);
        assert forall|a: int, b: int|
            0 <= a < b < entries_view(entries@).len() implies str_lt(
            entries_view(entries@)[a].0,
            entries_view(entries@)[b].0,
        ) by {
            assert(entries_view(entries@)[a].0 == m1[a].0);
            assert(entries_view(entries@)[b].0 == m1[b].0);
        }
    }
    let ghost w0 = warnings_view(warnings@);
    if ov {
        warnings.push(Warning::OverwriteTextLabel);
        proof {
            assert(warnings_view(warnings@) =~= w0.push(WarningV::OverwriteTextLabel));
        }
    }
}


/// Store the image filename under the given key.
fn apply_set_image(
    entries: &mut Vec<RegionEntry>,
    warnings: &mut Vec<Warning>,
    id: &String,
    loc: String,
)
    requires
        sorted_keys(entries_view(old(entries)@)),
    ensures
        ({
            let p = set_image_step(
                entries_view(old(entries)@),
                warnings_view(old(warnings)@),
                id@,
                loc@,
            );
            entries_view(final(entries)@) == p.0 && warnings_view(final(warnings)@) == p.1
                && sorted_keys(entries_view(final(entries)@))
        }),
{
    let i = ensure_entry(entries, id);
    let ghost m1 = entries_view(entries@);
    let ghost o = entries@[i as int].info@;
    proof {
        lemma_get_at(m1, id@, i as int);
    }
    let ghost lv = loc@;
    entries[i].info.set_image_location(Some(loc));
    proof {
        let nv = RegionInfoV { image_location: Some(lv), ..o };
        assert(entries@[i as int].info@ == nv);
        assert(entries@[i as int].id@ == id@);
        assert(entries_view(entries@) =~= m1.update(i as int, (id@, nv)));
        lemma_set_at(m1, id@, nv, i as int);
        assert forall|a: int, b: int|
            0 <= a < b < entries_view(entries@).len() implies str_lt(
            entries_view(entries@)[a].0,
            entries_view(entries@)[b].0,
        ) by {
            assert(entries_view(entries@)[a].0 == m1[a].0);
            assert(entries_view(entries@)[b].0 == m1[b].0);
        }
    }
}

/// Store the positivity ratio under the given key, flagging an overwrite.
fn apply_set_positivity(
    entries: &mut Vec<RegionEntry>,
    warnings: &mut Vec<Warning>,
    id: &String,
    v: Option<Decimal>,
)
    requires
        sorted_keys(entries_view(old(entries)@)),
    ensures
        ({
            let p = set_positivity_step(
                entries_view(old(entries)@),
                warnings_view(old(warnings)@),
                id@,
                v,
            );
            entries_view(final(entries)@) == p.0 && warnings_view(final(warnings)@) == p.1
                && sorted_keys(entries_view(final(entries)@))
        }),
{
    let i = ensure_entry(entries, id);
    let ghost m1 = entries_view(entries@);
    let ghost o = entries@[i as int].info@;
    proof {
        lemma_get_at(m1, id@, i as int);
    }
    let ov = entries[i].info.set_positivity(v);
    proof {
        let nv = RegionInfoV { positivity: v, ..o };
        assert(entries@[i as int].info@ == nv);
        assert(entries@[i as int].id@ == id@);
        assert(entries_view(entries@) =~= m1.update(i as int, (id@, nv)));
        lemma_set_at(m1, id@, nv, i as int);
        assert forall|a: int, b: int|
            0 <= a < b < entries_view(entries@).len() implies str_lt(
            entries_view(entries@)[a].0,
            entries_view(entries@)[b].0,
        ) by {
            assert(entries_view(entries@)[a].0 == m1[a].0);
            assert(entries_view(entries@)[b].0 == m1[b].0);
        }
    }
    let ghost w0 = warnings_view(warnings@);
    if ov {
        warnings.push(Warning::OverwritePositivity);
        proof {
            assert(warnings_view(warnings@) =~= w0.push(WarningV::OverwritePositivity));
        }
    }
}

/// Store the positive count under the given key, flagging an overwrite.
fn apply_set_num_positive(
    entries: &mut Vec<RegionEntry>,
    warnings: &mut Vec<Warning>,
    id: &String,
    v: Option<Decimal>,
)
    requires
        sorted_keys(entries_view(old(entries)@)),
    ensures
        ({
            let p = set_num_positive_step(
                entries_view(old(entries)@),
                warnings_view(old(warnings)@),
                id@,
                v,
            );
            entries_view(final(entries)@) == p.0 && warnings_view(final(warnings)@) == p.1
                && sorted_keys(entries_view(final(entries)@))
        }),
{
    let i = ensure_entry(entries, id);
    let ghost m1 = entries_view(entries@);
    let ghost o = entries@[i as int].info@;
    proof {
        lemma_get_at(m1, id@, i as int);
    }
    let ov = entries[i].info.set_num_positive(v);
    proof {
        let nv = RegionInfoV { num_positive: v, ..o };
        assert(entries@[i as int].info@ == nv);
        assert(entries@[i as int].id@ == id@);
        assert(entries_view(entries@) =~= m1.update(i as int, (id@, nv)));
        lemma_set_at(m1, id@, nv, i as int);
        assert forall|a: int, b: int|
            0 <= a < b < entries_view(entries@).len() implies str_lt(
            entries_view(entries@)[a].0,
            entries_view(entries@)[b].0,
        ) by {
            assert(entries_view(entries@)[a].0 == m1[a].0);
            assert(entries_view(entries@)[b].0 == m1[b].0);
        }
    }
    let ghost w0 = warnings_view(warnings@);
    if ov {
        warnings.push(Warning::OverwriteNumPositive);
        proof {
            assert(warnings_view(warnings@) =~= w0.push(WarningV::OverwriteNumPositive));
        }
    }
}

/// Store the weak-positive count under the given key.
fn apply_set_num_wpositive(
    entries: &mut Vec<RegionEntry>,
    warnings: &mut Vec<Warning>,
    id: &String,
    v: Option<Decimal>,
)
    requires
        sorted_keys(entries_view(old(entries)@)),
    ensures
        ({
            let p = set_num_wpositive_step(
                entries_view(old(entries)@),
                warnings_view(old(warnings)@),
                id@,
                v,
            );
            entries_view(final(entries)@) == p.0 && warnings_view(final(warnings)@) == p.1
                && sorted_keys(entries_view(final(entries)@))
        }),
{
    let i = ensure_entry(entries, id);
    let ghost m1 = entries_view(entries@);
    let ghost o = entries@[i as int].info@;
    proof {
        lemma_get_at(m1, id@, i as int);
    }
    entries[i].info.set_num_wpositive(v);
    proof {
        let nv = RegionInfoV { num_wpositive: v, ..o };
        assert(entries@[i as int].info@ == nv);
        assert(entries@[i as int].id@ == id@);
        assert(entries_view(entries@) =~= m1.update(i as int, (id@, nv)));
        lemma_set_at(m1, id@, nv, i as int);
        assert forall|a: int, b: int|
            0 <= a < b < entries_view(entries@).len() implies str_lt(
            entries_view(entries@)[a].0,
            entries_view(entries@)[b].0,
        ) by {
            assert(entries_view(entries@)[a].0 == m1[a].0);
            assert(entries_view(entries@)[b].0 == m1[b].0);
        }
    }
}

/// Store the strong-positive count under the given key.
fn apply_set_num_spositive(
    entries: &mut Vec<RegionEntry>,
    warnings: &mut Vec<Warning>,
    id: &String,
    v: Option<Decimal>,
)
    requires
        sorted_keys(entries_view(old(entries)@)),
    ensures
        ({
            let p = set_num_spositive_step(
                entries_view(old(entries)@),
                warnings_view(old(warnings)@),
                id@,
                v,
            );
            entries_view(final(entries)@) == p.0 && warnings_view(final(warnings)@) == p.1
                && sorted_keys(entries_view(final(entries)@))
        }),
{
    let i = ensure_entry(entries, id);
    let ghost m1 = entries_view(entries@);
    let ghost o = entries@[i as int].info@;
    proof {
        lemma_get_at(m1, id@, i as int);
    }
    entries[i].info.set_num_spositive(v);
    proof {
        let nv = RegionInfoV { num_spositive: v, ..o };
        assert(entries@[i as int].info@ == nv);
        assert(entries@[i as int].id@ == id@);
        assert(entries_view(entries@) =~= m1.update(i as int, (id@, nv)));
        lemma_set_at(m1, id@, nv, i as int);
        assert forall|a: int, b: int|
            0 <= a < b < entries_view(entries@).len() implies str_lt(
            entries_view(entries@)[a].0,
            entries_view(entries@)[b].0,
        ) by {
            assert(entries_view(entries@)[a].0 == m1[a].0);
            assert(entries_view(entries@)[b].0 == m1[b].0);
        }
    }
}

/// Store the total count under the given key, flagging an overwrite.
fn apply_set_num_total(
    entries: &mut Vec<RegionEntry>,
    warnings: &mut Vec<Warning>,
    id: &String,
    v: Option<Decimal>,
)
    requires
        sorted_keys(entries_view(old(entries)@)),
    ensures
        ({
            let p = set_num_total_step(
                entries_view(old(entries)@),
                warnings_view(old(warnings)@),
                id@,
                v,
            );
            entries_view(final(entries)@) == p.0 && warnings_view(final(warnings)@) == p.1
                && sorted_keys(entries_view(final(entries)@))
        }),
{
    let i = ensure_entry(entries, id);
    let ghost m1 = entries_view(entries@);
    let ghost o = entries@[i as int].info@;
    proof {
        lemma_get_at(m1, id@, i as int);
    }
    let ov = entries[i].info.set_num_total(v);
    proof {
        let nv = RegionInfoV { num_total: v, ..o };
        assert(entries@[i as int].info@ == nv);
        assert(entries@[i as int].id@ == id@);
        assert(entries_view(entries@) =~= m1.update(i as int, (id@, nv)));
        lemma_set_at(m1, id@, nv, i as int);
        assert forall|a: int, b: int|
            0 <= a < b < entries_view(entries@).len() implies str_lt(
            entries_view(entries@)[a].0,
            entries_view(entries@)[b].0,
        ) by {
            assert(entries_view(entries@)[a].0 == m1[a].0);
            assert(entries_view(entries@)[b].0 == m1[b].0);
        }
    }
    let ghost w0 = warnings_view(warnings@);
    if ov {
        warnings.push(Warning::OverwriteNumTotal);
        proof {
            assert(warnings_view(warnings@) =~= w0.push(WarningV::OverwriteNumTotal));
        }
    }
}

/// The resolved slot identifiers, as read from the document.
pub struct SlotStrings {
    pub positivity: String,
    pub positive: String,
    pub wpositive: String,
    pub spositive: String,
    pub total: String,
}

impl View for SlotStrings {
    type V = SlotIds;

    open spec fn view(&self) -> SlotIds {
        SlotIds {
            positivity: self.positivity@,
            positive: self.positive@,
            wpositive: self.wpositive@,
            spositive: self.spositive@,
            total: self.total@,
        }
    }
}

proof fn lemma_find_header_skip(hs: Seq<AttributeHeader>, prefix: Seq<char>, j: int)
    requires
        0 <= j <= hs.len(),
        forall|k: int| 0 <= k < j ==> !is_prefix(prefix, hs[k].name@),
    ensures
        find_header_id(hs, prefix) == find_header_id(hs.skip(j), prefix),
    decreases j,
{
    if j == 0 {
        assert(hs.skip(0) =~= hs);
    } else {
        assert(!is_prefix(prefix, hs[0].name@));
        let t = hs.drop_first();
        assert(t =~= hs.skip(1));
        assert(forall|k: int| 0 <= k < j - 1 ==> t[k] == hs[k + 1]);
        lemma_find_header_skip(t, prefix, j - 1);
        assert(t.skip(j - 1) =~= hs.skip(j));
    }
}

/// The identifier of the first header whose name begins with the
/// prefix, if any.
fn find_header(hs: &Vec<AttributeHeader>, prefix: &str) -> (r: Option<String>)
    ensures
        match r {
            Some(s) => find_header_id(hs@, prefix@) == Some(s@),
            None => find_header_id(hs@, prefix@) is None,
        },
{
    let n = hs.len();
    let mut j: usize = 0;
    while j < n
        invariant
            0 <= j <= n,
            n == hs@.len(),
            forall|k: int| 0 <= k < j ==> !is_prefix(prefix@, hs@[k].name@),
        decreases n - j,
    {
        if starts_with_str(hs[j].name.as_str(), prefix) {
            proof {
                lemma_find_header_skip(hs@, prefix@, j as int);
                assert(hs@.skip(j as int)[0] == hs@[j as int]);
                assert(hs@.skip(j as int).len() > 0);
            }
            return Some(hs[j].id.clone());
        }
        j = j + 1;
    }
    proof {
        lemma_find_header_skip(hs@, prefix@, n as int);
        assert(hs@.skip(n as int) =~= Seq::<AttributeHeader>::empty());
    }
    None
}

/// Apply one generic attribute of an analysis region: parse its
/// trimmed value and store it in every field whose resolved slot
/// identifier equals the attribute's name.
fn apply_region_attribute(
    entries: &mut Vec<RegionEntry>,
    warnings: &mut Vec<Warning>,
    rid: &String,
    a: &RegionAttributesAttribute,
    slots: &SlotStrings,
)
    requires
        sorted_keys(entries_view(old(entries)@)),
    ensures
        ({
            let p = attr_step(
                entries_view(old(entries)@),
                warnings_view(old(warnings)@),
                rid@,
                *a,
                slots@,
            );
            entries_view(final(entries)@) == p.0 && warnings_view(final(warnings)@) == p.1
                && sorted_keys(entries_view(final(entries)@))
        }),
{
    let ghost m0 = entries_view(entries@);
    let ghost w0 = warnings_view(warnings@);
    let tv = trim_str(a.value.as_str());
    let v = parse_decimal(tv.as_str());
    let ghost p1 = if a.name@ == slots@.positivity {
        set_positivity_step(m0, w0, rid@, v)
    } else {
        (m0, w0)
    };
    if str_eq(a.name.as_str(), slots.positivity.as_str()) {
        apply_set_positivity(entries, warnings, rid, v);
    }
    proof {
        assert(entries_view(entries@) == p1.0 && warnings_view(warnings@) == p1.1);
        assert(sorted_keys(p1.0));
    }
    let ghost p2 = if a.name@ == slots@.positive {
        set_num_positive_step(p1.0, p1.1, rid@, v)
    } else {
        p1
    };
    if str_eq(a.name.as_str(), slots.positive.as_str()) {
        apply_set_num_positive(entries, warnings, rid, v);
    }
    proof {
        assert(entries_view(entries@) == p2.0 && warnings_view(warnings@) == p2.1);
        assert(sorted_keys(p2.0));
    }
    let ghost p3 = if a.name@ == slots@.wpositive {
        set_num_wpositive_step(p2.0, p2.1, rid@, v)
    } else {
        p2
    };
    if str_eq(a.name.as_str(), slots.wpositive.as_str()) {
        apply_set_num_wpositive(entries, warnings, rid, v);
    }
    proof {
        assert(entries_view(entries@) == p3.0 && warnings_view(warnings@) == p3.1);
        assert(sorted_keys(p3.0));
    }
    let ghost p4 = if a.name@ == slots@.spositive {
        set_num_spositive_step(p3.0, p3.1, rid@, v)
    } else {
        p3
    };
    if str_eq(a.name.as_str(), slots.spositive.as_str()) {
        apply_set_num_spositive(entries, warnings, rid, v);
    }
    proof {
        assert(entries_view(entries@) == p4.0 && warnings_view(warnings@) == p4.1);
        assert(sorted_keys(p4.0));
    }
    if str_eq(a.name.as_str(), slots.total.as_str()) {
        apply_set_num_total(entries, warnings, rid, v);
    }
}

/// Apply one region of an analysis layer.
fn apply_analysis_region(
    entries: &mut Vec<RegionEntry>,
    warnings: &mut Vec<Warning>,
    r: &Region,
    slots: &SlotStrings,
)
    requires
        sorted_keys(entries_view(old(entries)@)),
    ensures
        ({
            let p = analysis_region_step(
                entries_view(old(entries)@),
                warnings_view(old(warnings)@),
                *r,
                slots@,
            );
            entries_view(final(entries)@) == p.0 && warnings_view(final(warnings)@) == p.1
                && sorted_keys(entries_view(final(entries)@))
        }),
{
    let ghost m0 = entries_view(entries@);
    let ghost w0 = warnings_view(warnings@);
    match &r.input_region_id {
        None => {
            warnings.push(Warning::MissingBackReference { region_id: r.id.clone() });
            proof {
                assert(warnings_view(warnings@) =~= w0.push(
                    WarningV::MissingBackReference { region_id: r.id@ },
                ));
            }
        },
        Some(rid) => {
            match &r.image_location {
                Some(loc) => {
                    let base = basename_str(loc.as_str());
                    if base.as_str().unicode_len() > 0 {
                        apply_set_image(entries, warnings, rid, base);
                    }
                },
                None => {},
            }
            let ghost p1 = match &r.image_location {
                Some(loc) => if basename_spec(loc@).len() > 0 {
                    set_image_step(m0, w0, rid@, basename_spec(loc@))
                } else {
                    (m0, w0)
                },
                None => (m0, w0),
            };
            proof {
                assert(entries_view(entries@) == p1.0 && warnings_view(warnings@) == p1.1);
                assert(sorted_keys(p1.0));
            }
            match &r.attributes.attribute {
                None => {},
                Some(av) => {
                    let n = av.len();
                    let mut j: usize = 0;
                    proof {
                        assert(av@.take(0) =~= Seq::<RegionAttributesAttribute>::empty());
                    }
                    while j < n
                        invariant
                            0 <= j <= n,
                            n == av@.len(),
                            ({
                                let p = attrs_fold(p1.0, p1.1, rid@, av@.take(j as int), slots@);
                                entries_view(entries@) == p.0 && warnings_view(warnings@) == p.1
                                    && sorted_keys(entries_view(entries@))
                            }),
                        decreases n - j,
                    {
                        let ghost pj = attrs_fold(p1.0, p1.1, rid@, av@.take(j as int), slots@);
                        apply_region_attribute(entries, warnings, rid, &av[j], slots);
                        proof {
                            lemma_attrs_fold_snoc(
                                p1.0,
                                p1.1,
                                rid@,
                                av@.take(j as int),
                                av@[j as int],
                                slots@,
                            );
                            assert(av@.take(j as int).push(av@[j as int]) =~= av@.take(
                                j as int + 1));
                        }
                        j = j + 1;
                    }
                    proof {
                        assert(av@.take(n as int) =~= av@);
                    }
                },
            }
        },
    }
}

/// Apply one layer: type "4" stores labels, type "3" stores
/// statistics, other types are ignored.
fn apply_layer(
    entries: &mut Vec<RegionEntry>,
    warnings: &mut Vec<Warning>,
    seen: &mut bool,
    layer: &Annotation,
)
    requires
        sorted_keys(entries_view(old(entries)@)),
    ensures
        ({
            let st1 = layer_step(
                ReconState {
                    infos: entries_view(old(entries)@),
                    warnings: warnings_view(old(warnings)@),
                    seen_analysis: *old(seen),
                },
                *layer,
            );
            entries_view(final(entries)@) == st1.infos && warnings_view(final(warnings)@)
                == st1.warnings && *final(seen) == st1.seen_analysis && sorted_keys(st1.infos)
        }),
{
    let ghost m0 = entries_view(entries@);
    let ghost w0 = warnings_view(warnings@);
    let ghost st0 = ReconState { infos: m0, warnings: w0, seen_analysis: *seen };
    if str_eq(layer.annotation_type.as_str(), "4") {
        let n = layer.regions.region.len();
        let mut j: usize = 0;
        proof {
            assert(layer.regions.region@.take(0) =~= Seq::<Region>::empty());
        }
        while j < n
            invariant
                0 <= j <= n,
                n == layer.regions.region@.len(),
                ({
                    let p = label_regions_fold(m0, w0, layer.regions.region@.take(j as int));
                    entries_view(entries@) == p.0 && warnings_view(warnings@) == p.1
                        && sorted_keys(entries_view(entries@))
                }),
            decreases n - j,
        {
            let r = &layer.regions.region[j];
            let t = trim_str(r.text.as_str());
            apply_set_label(entries, warnings, &r.id, t);
            proof {
                lemma_label_fold_snoc(
                    m0,
                    w0,
                    layer.regions.region@.take(j as int),
                    layer.regions.region@[j as int],
                );
                assert(layer.regions.region@.take(j as int).push(layer.regions.region@[j as int])
                    =~= layer.regions.region@.take(j as int + 1));
            }
            j = j + 1;
        }
        proof {
            assert(layer.regions.region@.take(n as int) =~= layer.regions.region@);
        }
    } else if str_eq(layer.annotation_type.as_str(), "3") {
        match &layer.regions.region_attribute_headers.attribute_header {
            None => {
                warnings.push(Warning::MissingHeaderList { layer_id: layer.id.clone() });
                proof {
                    assert(warnings_view(warnings@) =~= w0.push(
                        WarningV::MissingHeaderList { layer_id: layer.id@ },
                    ));
                }
            },
            Some(hs) => {
                let po = find_header(hs, "Positivity =");
                let np = find_header(hs, "Np  =");
                let nwp = find_header(hs, "Nwp =");
                let nsp = find_header(hs, "Nsp =");
                let nt = find_header(hs, "NTotal =");
                if po.is_none() {
                    warnings.push(Warning::MissingSlot { slot: SlotKind::Positivity });
                    proof {
                        assert(warnings_view(warnings@) =~= w0.push(
                            WarningV::MissingSlot { slot: SlotKind::Positivity },
                        ));
                    }
                } else if np.is_none() {
                    warnings.push(Warning::MissingSlot { slot: SlotKind::Positive });
                    proof {
                        assert(warnings_view(warnings@) =~= w0.push(
                            WarningV::MissingSlot { slot: SlotKind::Positive },
                        ));
                    }
                } else if nwp.is_none() {
                    warnings.push(Warning::MissingSlot { slot: SlotKind::WeakPositive });
                    proof {
                        assert(warnings_view(warnings@) =~= w0.push(
                            WarningV::MissingSlot { slot: SlotKind::WeakPositive },
                        ));
                    }
                } else if nsp.is_none() {
                    warnings.push(Warning::MissingSlot { slot: SlotKind::StrongPositive });
                    proof {
                        assert(warnings_view(warnings@) =~= w0.push(
                            WarningV::MissingSlot { slot: SlotKind::StrongPositive },
                        ));
                    }
                } else if nt.is_none() {
                    warnings.push(Warning::MissingSlot { slot: SlotKind::Total });
                    proof {
                        assert(warnings_view(warnings@) =~= w0.push(
                            WarningV::MissingSlot { slot: SlotKind::Total },
                        ));
                    }
                } else {
                    if *seen {
                        warnings.push(
                            Warning::MultipleAnalysisLayers { layer_id: layer.id.clone() },
                        );
                        proof {
                            assert(warnings_view(warnings@) =~= w0.push(
                                WarningV::MultipleAnalysisLayers { layer_id: layer.id@ },
                            ));
                        }
                    }
                    *seen = true;
                    let ghost w1 = warnings_view(warnings@);
                    let slots = SlotStrings {
                        positivity: po.unwrap(),
                        positive: np.unwrap(),
                        wpositive: nwp.unwrap(),
                        spositive: nsp.unwrap(),
                        total: nt.unwrap(),
                    };
                    let n = layer.regions.region.len();
                    let mut j: usize = 0;
                    proof {
                        assert(layer.regions.region@.take(0) =~= Seq::<Region>::empty());
                    }
                    while j < n
                        invariant
                            0 <= j <= n,
                            n == layer.regions.region@.len(),
                            ({
                                let p = analysis_regions_fold(
                                    m0,
                                    w1,
                                    layer.regions.region@.take(j as int),
                                    slots@,
                                );
                                entries_view(entries@) == p.0 && warnings_view(warnings@) == p.1
                                    && sorted_keys(entries_view(entries@))
                            }),
                        decreases n - j,
                    {
                        apply_analysis_region(entries, warnings, &layer.regions.region[j], &slots);
                        proof {
                            lemma_analysis_fold_snoc(
                                m0,
                                w1,
                                layer.regions.region@.take(j as int),
                                layer.regions.region@[j as int],
                                slots@,
                            );
                            assert(layer.regions.region@.take(j as int).push(
                                layer.regions.region@[j as int],
                            ) =~= layer.regions.region@.take(j as int + 1));
                        }
                        j = j + 1;
                    }
                    proof {
                        assert(layer.regions.region@.take(n as int) =~= layer.regions.region@);
                    }
                }
            },
        }
    }
}

/// Reconcile one document: walk its layers in order and return the
/// accumulated records sorted by region identifier, together with the
/// diagnostics, exactly as the functional model states.
pub fn reconcile(doc: &Annotations) -> (res: (Vec<RegionEntry>, Vec<Warning>))
    ensures
        ({
            let st = reconcile_spec(*doc);
            entries_view(res.0@) == st.infos && warnings_view(res.1@) == st.warnings
                && sorted_keys(st.infos)
        }),
{
    let mut entries: Vec<RegionEntry> = Vec::new();
    let mut warnings: Vec<Warning> = Vec::new();
    let mut seen = false;
    let n = doc.annotation.len();
    let mut l: usize = 0;
    proof {
        assert(entries_view(entries@) =~= Seq::<(Seq<char>, RegionInfoV)>::empty());
        assert(warnings_view(warnings@) =~= Seq::<WarningV>::empty());
        assert(doc.annotation@.take(0) =~= Seq::<Annotation>::empty());
    }
    while l < n
        invariant
            0 <= l <= n,
            n == doc.annotation@.len(),
            ({
                let st = layers_fold(init_state(), doc.annotation@.take(l as int));
                entries_view(entries@) == st.infos && warnings_view(warnings@) == st.warnings
                    && seen == st.seen_analysis && sorted_keys(entries_view(entries@))
            }),
        decreases n - l,
    {
        apply_layer(&mut entries, &mut warnings, &mut seen, &doc.annotation[l]);
        proof {
            lemma_layers_fold_snoc(
                init_state(),
                doc.annotation@.take(l as int),
                doc.annotation@[l as int],
            );
            assert(doc.annotation@.take(l as int).push(doc.annotation@[l as int])
                =~= doc.annotation@.take(l as int + 1));
        }
        l = l + 1;
    }
    proof {
        assert(doc.annotation@.take(n as int) =~= doc.annotation@);
    }
    (entries, warnings)
}

proof fn lemma_get_absent(m: Seq<(Seq<char>, RegionInfoV)>, k: Seq<char>)
    requires
        !has_key(m, k),
    ensures
        infos_get(m, k) == empty_info(),
    decreases m.len(),
{
    if m.len() > 0 {
        assert(m[0].0 != k);
        let t = m.drop_first();
        assert(forall|i: int| 0 <= i < t.len() ==> t[i] == m[i + 1]);
        lemma_get_absent(t, k);
    }
}

proof fn lemma_ensure_get_other(m: Seq<(Seq<char>, RegionInfoV)>, k: Seq<char>, k2: Seq<char>)
    requires
        k2 != k,
    ensures
        infos_get(infos_ensure(m, k), k2) == infos_get(m, k2),
    decreases m.len(),
{
    let r = infos_ensure(m, k);
    if m.len() == 0 {
        assert(r[0].0 == k);
        assert(r.drop_first() =~= m);
    } else if str_lt(k, m[0].0) {
        assert(r[0].0 == k);
        assert(r.drop_first() =~= m);
    } else if m[0].0 == k {
    } else {
        let t = m.drop_first();
        lemma_ensure_get_other(t, k, k2);
        assert(r[0] == m[0]);
        assert(r.drop_first() =~= infos_ensure(t, k));
    }
}

/// The record under each key after an ensure-then-set: the set key
/// holds the new record, every other key is untouched, and the keys
/// are the old ones plus the set key.
pub proof fn lemma_upsert_get(
    m: Seq<(Seq<char>, RegionInfoV)>,
    k: Seq<char>,
    v: RegionInfoV,
    k2: Seq<char>,
)
    requires
        sorted_keys(m),
    ensures
        ({
            let m2 = infos_set(infos_ensure(m, k), k, v);
            &&& sorted_keys(m2)
            &&& infos_get(m2, k2) == (if k2 == k {
                v
            } else {
                infos_get(m, k2)
            })
            &&& has_key(m2, k2) == (k2 == k || has_key(m, k2))
        }),
{
    lemma_ensure_props(m, k);
    let m1 = infos_ensure(m, k);
    let i = choose|i: int| 0 <= i < m1.len() && m1[i].0 == k;
    lemma_set_at(m1, k, v, i);
    let m2 = infos_set(m1, k, v);
    assert(m2 =~= m1.update(i, (k, v)));
    assert(forall|j: int| 0 <= j < m2.len() ==> m2[j].0 == m1[j].0);
    assert forall|a: int, b: int| 0 <= a < b < m2.len() implies str_lt(m2[a].0, m2[b].0) by {
        assert(m2[a].0 == m1[a].0);
        assert(m2[b].0 == m1[b].0);
    }
    if k2 == k {
        lemma_get_at(m2, k, i);
    } else {
        lemma_ensure_get_other(m, k, k2);
        if has_key(m1, k2) {
            let w = choose|w: int| 0 <= w < m1.len() && m1[w].0 == k2;
            assert(w != i);
            assert(m2[w] == m1[w]);
            lemma_get_at(m1, k2, w);
            lemma_get_at(m2, k2, w);
            assert(has_key(m2, k2));
            assert(has_key(m, k2)) by {
                if !has_key(m, k2) {
                    assert(forall|j: int|
                        0 <= j < m1.len() ==> (m1[j] == (k, empty_info()) || (exists|t: int|
                            0 <= t < m.len() && m[t] == m1[j])));
                    assert(m1[w] == (k, empty_info()) || (exists|t: int|
                        0 <= t < m.len() && m[t] == m1[w]));
                    let t = choose|t: int| 0 <= t < m.len() && m[t] == m1[w];
                    assert(m[t].0 == k2);
                }
            }
        } else {
            assert(!has_key(m2, k2)) by {
                if has_key(m2, k2) {
                    let w = choose|w: int| 0 <= w < m2.len() && m2[w].0 == k2;
                    assert(m1[w].0 == k2);
                }
            }
            assert(!has_key(m, k2)) by {
                if has_key(m, k2) {
                    let w = choose|w: int| 0 <= w < m.len() && m[w].0 == k2;
                    assert(has_key(m1, k2));
                }
            }
            lemma_get_absent(m2, k2);
            lemma_get_absent(m, k2);
        }
    }
}

/// An ensure-then-set with a well-formed record keeps the whole list
/// well-formed.
pub proof fn lemma_upsert_ok(m: Seq<(Seq<char>, RegionInfoV)>, k: Seq<char>, v: RegionInfoV)
    requires
        infos_ok(m),
        info_wf(v),
    ensures
        infos_ok(infos_set(infos_ensure(m, k), k, v)),
        info_wf(infos_get(infos_ensure(m, k), k)),
{
    lemma_ensure_props(m, k);
    let m1 = infos_ensure(m, k);
    let i = choose|i: int| 0 <= i < m1.len() && m1[i].0 == k;
    lemma_get_at(m1, k, i);
    lemma_set_at(m1, k, v, i);
    let m2 = infos_set(m1, k, v);
    assert(m2 =~= m1.update(i, (k, v)));
    assert forall|a: int, b: int| 0 <= a < b < m2.len() implies str_lt(m2[a].0, m2[b].0) by {
        assert(m2[a].0 == m1[a].0);
        assert(m2[b].0 == m1[b].0);
    }
    assert forall|j: int| 0 <= j < m2.len() implies info_wf(m2[j].1) by {
        if j != i {
            assert(m2[j] == m1[j]);
        }
    }
}

proof fn lemma_ensure_get_wf(m: Seq<(Seq<char>, RegionInfoV)>, k: Seq<char>)
    requires
        infos_ok(m),
    ensures
        info_wf(infos_get(infos_ensure(m, k), k)),
{
    lemma_ensure_props(m, k);
    let m1 = infos_ensure(m, k);
    let i = choose|i: int| 0 <= i < m1.len() && m1[i].0 == k;
    lemma_get_at(m1, k, i);
}

proof fn lemma_parse_small(s: Seq<char>)
    ensures
        crate::decimal::parse_dec_spec(s) matches Some(d) ==> crate::decimal::dec_small(d),
{
}

proof fn lemma_set_label_step_ok(
    m: Seq<(Seq<char>, RegionInfoV)>,
    w: Seq<WarningV>,
    id: Seq<char>,
    text: Seq<char>,
)
    requires
        infos_ok(m),
    ensures
        infos_ok(set_label_step(m, w, id, text).0),
{
    lemma_ensure_get_wf(m, id);
    let o = infos_get(infos_ensure(m, id), id);
    lemma_upsert_ok(m, id, RegionInfoV { text_label: Some(text), ..o });
}

proof fn lemma_set_image_step_ok(
    m: Seq<(Seq<char>, RegionInfoV)>,
    w: Seq<WarningV>,
    id: Seq<char>,
    loc: Seq<char>,
)
    requires
        infos_ok(m),
    ensures
        infos_ok(set_image_step(m, w, id, loc).0),
{
    lemma_ensure_get_wf(m, id);
    let o = infos_get(infos_ensure(m, id), id);
    lemma_upsert_ok(m, id, RegionInfoV { image_location: Some(loc), ..o });
}

proof fn lemma_numeric_steps_ok(
    m: Seq<(Seq<char>, RegionInfoV)>,
    w: Seq<WarningV>,
    id: Seq<char>,
    v: Option<Decimal>,
)
    requires
        infos_ok(m),
        v matches Some(d) ==> crate::decimal::dec_small(d),
    ensures
        infos_ok(set_positivity_step(m, w, id, v).0),
        infos_ok(set_num_positive_step(m, w, id, v).0),
        infos_ok(set_num_wpositive_step(m, w, id, v).0),
        infos_ok(set_num_spositive_step(m, w, id, v).0),
        infos_ok(set_num_total_step(m, w, id, v).0),
{
    lemma_ensure_get_wf(m, id);
    let o = infos_get(infos_ensure(m, id), id);
    lemma_upsert_ok(m, id, RegionInfoV { positivity: v, ..o });
    lemma_upsert_ok(m, id, RegionInfoV { num_positive: v, ..o });
    lemma_upsert_ok(m, id, RegionInfoV { num_wpositive: v, ..o });
    lemma_upsert_ok(m, id, RegionInfoV { num_spositive: v, ..o });
    lemma_upsert_ok(m, id, RegionInfoV { num_total: v, ..o });
}

proof fn lemma_attr_step_ok(
    m: Seq<(Seq<char>, RegionInfoV)>,
    w: Seq<WarningV>,
    id: Seq<char>,
    a: RegionAttributesAttribute,
    s: SlotIds,
)
    requires
        infos_ok(m),
    ensures
        infos_ok(attr_step(m, w, id, a, s).0),
{
    let v = crate::decimal::parse_dec_spec(trim_spec(a.value@));
    lemma_parse_small(trim_spec(a.value@));
    let p1 = if a.name@ == s.positivity {
        set_positivity_step(m, w, id, v)
    } else {
        (m, w)
    };
    lemma_numeric_steps_ok(m, w, id, v);
    assert(infos_ok(p1.0));
    let p2 = if a.name@ == s.positive {
        set_num_positive_step(p1.0, p1.1, id, v)
    } else {
        p1
    };
    lemma_numeric_steps_ok(p1.0, p1.1, id, v);
    assert(infos_ok(p2.0));
    let p3 = if a.name@ == s.wpositive {
        set_num_wpositive_step(p2.0, p2.1, id, v)
    } else {
        p2
    };
    lemma_numeric_steps_ok(p2.0, p2.1, id, v);
    assert(infos_ok(p3.0));
    let p4 = if a.name@ == s.spositive {
        set_num_spositive_step(p3.0, p3.1, id, v)
    } else {
        p3
    };
    lemma_numeric_steps_ok(p3.0, p3.1, id, v);
    assert(infos_ok(p4.0));
    lemma_numeric_steps_ok(p4.0, p4.1, id, v);
}

proof fn lemma_attrs_fold_ok(
    m: Seq<(Seq<char>, RegionInfoV)>,
    w: Seq<WarningV>,
    id: Seq<char>,
    attrs: Seq<RegionAttributesAttribute>,
    s: SlotIds,
)
    requires
        infos_ok(m),
    ensures
        infos_ok(attrs_fold(m, w, id, attrs, s).0),
    decreases attrs.len(),
{
    if attrs.len() > 0 {
        lemma_attr_step_ok(m, w, id, attrs[0], s);
        let p = attr_step(m, w, id, attrs[0], s);
        lemma_attrs_fold_ok(p.0, p.1, id, attrs.drop_first(), s);
    }
}

proof fn lemma_analysis_region_step_ok(
    m: Seq<(Seq<char>, RegionInfoV)>,
    w: Seq<WarningV>,
    r: Region,
    s: SlotIds,
)
    requires
        infos_ok(m),
    ensures
        infos_ok(analysis_region_step(m, w, r, s).0),
{
    match r.input_region_id {
        None => {},
        Some(rid) => {
            let p1 = match r.image_location {
                Some(loc) => if basename_spec(loc@).len() > 0 {
                    set_image_step(m, w, rid@, basename_spec(loc@))
                } else {
                    (m, w)
                },
                None => (m, w),
            };
            match r.image_location {
                Some(loc) => {
                    if basename_spec(loc@).len() > 0 {
                        lemma_set_image_step_ok(m, w, rid@, basename_spec(loc@));
                    }
                },
                None => {},
            }
            assert(infos_ok(p1.0));
            match r.attributes.attribute {
                None => {},
                Some(av) => {
                    lemma_attrs_fold_ok(p1.0, p1.1, rid@, av@, s);
                },
            }
        },
    }
}

proof fn lemma_analysis_fold_ok(
    m: Seq<(Seq<char>, RegionInfoV)>,
    w: Seq<WarningV>,
    rs: Seq<Region>,
    s: SlotIds,
)
    requires
        infos_ok(m),
    ensures
        infos_ok(analysis_regions_fold(m, w, rs, s).0),
    decreases rs.len(),
{
    if rs.len() > 0 {
        lemma_analysis_region_step_ok(m, w, rs[0], s);
        let p = analysis_region_step(m, w, rs[0], s);
        lemma_analysis_fold_ok(p.0, p.1, rs.drop_first(), s);
    }
}

proof fn lemma_label_fold_ok(
    m: Seq<(Seq<char>, RegionInfoV)>,
    w: Seq<WarningV>,
    rs: Seq<Region>,
)
    requires
        infos_ok(m),
    ensures
        infos_ok(label_regions_fold(m, w, rs).0),
    decreases rs.len(),
{
    if rs.len() > 0 {
        lemma_set_label_step_ok(m, w, rs[0].id@, trim_spec(rs[0].text@));
        let p = label_region_step(m, w, rs[0]);
        lemma_label_fold_ok(p.0, p.1, rs.drop_first());
    }
}

proof fn lemma_layer_step_ok(st: ReconState, layer: Annotation)
    requires
        infos_ok(st.infos),
    ensures
        infos_ok(layer_step(st, layer).infos),
{
    if layer.annotation_type@ == "4"@ {
        lemma_label_fold_ok(st.infos, st.warnings, layer.regions.region@);
    } else if layer.annotation_type@ == "3"@ {
        match layer.regions.region_attribute_headers.attribute_header {
            None => {},
            Some(hs) => {
                let po = find_header_id(hs@, "Positivity ="@);
                let np = find_header_id(hs@, "Np  ="@);
                let nwp = find_header_id(hs@, "Nwp ="@);
                let nsp = find_header_id(hs@, "Nsp ="@);
                let nt = find_header_id(hs@, "NTotal ="@);
                if po is None || np is None || nwp is None || nsp is None || nt is None {
                } else {
                    let w0 = if st.seen_analysis {
                        st.warnings.push(
                            WarningV::MultipleAnalysisLayers { layer_id: layer.id@ },
                        )
                    } else {
                        st.warnings
                    };
                    let s = SlotIds {
                        positivity: po.unwrap(),
                        positive: np.unwrap(),
                        wpositive: nwp.unwrap(),
                        spositive: nsp.unwrap(),
                        total: nt.unwrap(),
                    };
                    lemma_analysis_fold_ok(st.infos, w0, layer.regions.region@, s);
                }
            },
        }
    }
}

proof fn lemma_layers_fold_ok(st: ReconState, ls: Seq<Annotation>)
    requires
        infos_ok(st.infos),
    ensures
        infos_ok(layers_fold(st, ls).infos),
    decreases ls.len(),
{
    if ls.len() > 0 {
        lemma_layer_step_ok(st, ls[0]);
        lemma_layers_fold_ok(layer_step(st, ls[0]), ls.drop_first());
    }
}

/// Every reconciled list is sorted by key with each record
/// well-formed: the keys are distinct, so each region identifier gets
/// exactly one row, however many layers mention it.
pub proof fn lemma_reconcile_ok(doc: Annotations)
    ensures
        infos_ok(reconcile_spec(doc).infos),
{
    lemma_layers_fold_ok(init_state(), doc.annotation@);
}

/// A document with no layers reconciles to no records and no
/// warnings: nothing is emitted for it.
pub proof fn lemma_empty_doc(doc: Annotations)
    requires
        doc.annotation@.len() == 0,
    ensures
        reconcile_spec(doc).infos.len() == 0,
        reconcile_spec(doc).warnings.len() == 0,
{
}

/// One row per region: a computed region whose back-reference matches
/// a drawn region's identifier lands in that region's single record,
/// never in a second one — the reconciled list holds each key once.
pub proof fn lemma_one_row_per_region(doc: Annotations)
    ensures
        sorted_keys(reconcile_spec(doc).infos),
        forall|i: int, j: int|
            0 <= i < j < reconcile_spec(doc).infos.len() ==> reconcile_spec(doc).infos[i].0
                != reconcile_spec(doc).infos[j].0,
{
    lemma_reconcile_ok(doc);
    let m = reconcile_spec(doc).infos;
    assert forall|i: int, j: int| 0 <= i < j < m.len() implies m[i].0 != m[j].0 by {
        assert(str_lt(m[i].0, m[j].0));
        lemma_str_lt_asymmetric(m[i].0, m[j].0);
    }
}

/// Reconciliation is a function of the document alone: equal
/// documents give equal records and equal warnings.
pub proof fn lemma_deterministic(d1: Annotations, d2: Annotations)
    requires
        d1 == d2,
    ensures
        reconcile_spec(d1) == reconcile_spec(d2),
{
}

/// No statistics field of the record is set.
pub open spec fn stats_unset(i: RegionInfoV) -> bool {
    &&& i.positivity is None
    &&& i.num_positive is None
    &&& i.num_spositive is None
    &&& i.num_wpositive is None
    &&& i.num_total is None
    &&& i.image_location is None
}

/// The layer is a user-drawn layer holding a region with the
/// identifier.
pub open spec fn drawn_in_layer(layer: Annotation, id: Seq<char>) -> bool {
    layer.annotation_type@ == "4"@ && exists|j: int|
        0 <= j < layer.regions.region@.len() && layer.regions.region@[j].id@ == id
}

/// Some region of the layer carries the identifier as its
/// back-reference.
pub open spec fn backref_in_layer(layer: Annotation, id: Seq<char>) -> bool {
    exists|j: int|
        0 <= j < layer.regions.region@.len() && match (#[trigger] layer.regions.region@[j]).input_region_id {
            Some(rid) => rid@ == id,
            None => false,
        }
}

/// Some user-drawn layer of the document holds a region with the
/// identifier.
pub open spec fn appears_as_drawn(doc: Annotations, id: Seq<char>) -> bool {
    exists|i: int| 0 <= i < doc.annotation@.len() && drawn_in_layer(doc.annotation@[i], id)
}

/// No region of any layer carries the identifier as its
/// back-reference.
pub open spec fn never_backref(doc: Annotations, id: Seq<char>) -> bool {
    forall|i: int| 0 <= i < doc.annotation@.len() ==> !backref_in_layer(doc.annotation@[i], id)
}

proof fn lemma_attr_step_frame(
    m: Seq<(Seq<char>, RegionInfoV)>,
    w: Seq<WarningV>,
    id2: Seq<char>,
    a: RegionAttributesAttribute,
    s: SlotIds,
    id: Seq<char>,
)
    requires
        sorted_keys(m),
        id != id2,
    ensures
        ({
            let p = attr_step(m, w, id2, a, s);
            &&& sorted_keys(p.0)
            &&& infos_get(p.0, id) == infos_get(m, id)
            &&& has_key(p.0, id) == has_key(m, id)
        }),
{
    let v = crate::decimal::parse_dec_spec(trim_spec(a.value@));
    let p1 = if a.name@ == s.positivity {
        set_positivity_step(m, w, id2, v)
    } else {
        (m, w)
    };
    lemma_upsert_get(m, id2, RegionInfoV { positivity: v, ..infos_get(infos_ensure(m, id2), id2) },
        id);
    assert(sorted_keys(p1.0) && infos_get(p1.0, id) == infos_get(m, id) && has_key(p1.0, id)
        == has_key(m, id));
    let p2 = if a.name@ == s.positive {
        set_num_positive_step(p1.0, p1.1, id2, v)
    } else {
        p1
    };
    lemma_upsert_get(p1.0, id2, RegionInfoV {
        num_positive: v,
        ..infos_get(infos_ensure(p1.0, id2), id2)
    }, id);
    assert(sorted_keys(p2.0) && infos_get(p2.0, id) == infos_get(m, id) && has_key(p2.0, id)
        == has_key(m, id));
    let p3 = if a.name@ == s.wpositive {
        set_num_wpositive_step(p2.0, p2.1, id2, v)
    } else {
        p2
    };
    lemma_upsert_get(p2.0, id2, RegionInfoV {
        num_wpositive: v,
        ..infos_get(infos_ensure(p2.0, id2), id2)
    }, id);
    assert(sorted_keys(p3.0) && infos_get(p3.0, id) == infos_get(m, id) && has_key(p3.0, id)
        == has_key(m, id));
    let p4 = if a.name@ == s.spositive {
        set_num_spositive_step(p3.0, p3.1, id2, v)
    } else {
        p3
    };
    lemma_upsert_get(p3.0, id2, RegionInfoV {
        num_spositive: v,
        ..infos_get(infos_ensure(p3.0, id2), id2)
    }, id);
    assert(sorted_keys(p4.0) && infos_get(p4.0, id) == infos_get(m, id) && has_key(p4.0, id)
        == has_key(m, id));
    lemma_upsert_get(p4.0, id2, RegionInfoV {
        num_total: v,
        ..infos_get(infos_ensure(p4.0, id2), id2)
    }, id);
}

proof fn lemma_attrs_fold_frame(
    m: Seq<(Seq<char>, RegionInfoV)>,
    w: Seq<WarningV>,
    id2: Seq<char>,
    attrs: Seq<RegionAttributesAttribute>,
    s: SlotIds,
    id: Seq<char>,
)
    requires
        sorted_keys(m),
        id != id2,
    ensures
        ({
            let p = attrs_fold(m, w, id2, attrs, s);
            &&& sorted_keys(p.0)
            &&& infos_get(p.0, id) == infos_get(m, id)
            &&& has_key(p.0, id) == has_key(m, id)
        }),
    decreases attrs.len(),
{
    if attrs.len() > 0 {
        lemma_attr_step_frame(m, w, id2, attrs[0], s, id);
        let p = attr_step(m, w, id2, attrs[0], s);
        lemma_attrs_fold_frame(p.0, p.1, id2, attrs.drop_first(), s, id);
    }
}

proof fn lemma_analysis_region_frame(
    m: Seq<(Seq<char>, RegionInfoV)>,
    w: Seq<WarningV>,
    r: Region,
    s: SlotIds,
    id: Seq<char>,
)
    requires
        sorted_keys(m),
        r.input_region_id matches Some(rid) ==> rid@ != id,
    ensures
        ({
            let p = analysis_region_step(m, w, r, s);
            &&& sorted_keys(p.0)
            &&& infos_get(p.0, id) == infos_get(m, id)
            &&& has_key(p.0, id) == has_key(m, id)
        }),
{
    match r.input_region_id {
        None => {},
        Some(rid) => {
            let p1 = match r.image_location {
                Some(loc) => if basename_spec(loc@).len() > 0 {
                    set_image_step(m, w, rid@, basename_spec(loc@))
                } else {
                    (m, w)
                },
                None => (m, w),
            };
            match r.image_location {
                Some(loc) => {
                    if basename_spec(loc@).len() > 0 {
                        lemma_upsert_get(m, rid@, RegionInfoV {
                            image_location: Some(basename_spec(loc@)),
                            ..infos_get(infos_ensure(m, rid@), rid@)
                        }, id);
                    }
                },
                None => {},
            }
            assert(sorted_keys(p1.0) && infos_get(p1.0, id) == infos_get(m, id) && has_key(
                p1.0, id) == has_key(m, id));
            match r.attributes.attribute {
                None => {},
                Some(av) => {
                    lemma_attrs_fold_frame(p1.0, p1.1, rid@, av@, s, id);
                },
            }
        },
    }
}

proof fn lemma_analysis_fold_frame(
    m: Seq<(Seq<char>, RegionInfoV)>,
    w: Seq<WarningV>,
    rs: Seq<Region>,
    s: SlotIds,
    id: Seq<char>,
)
    requires
        sorted_keys(m),
        forall|j: int|
            0 <= j < rs.len() ==> match (#[trigger] rs[j]).input_region_id {
                Some(rid) => rid@ != id,
                None => true,
            },
    ensures
        ({
            let p = analysis_regions_fold(m, w, rs, s);
            &&& sorted_keys(p.0)
            &&& infos_get(p.0, id) == infos_get(m, id)
            &&& has_key(p.0, id) == has_key(m, id)
        }),
    decreases rs.len(),
{
    if rs.len() > 0 {
        assert(rs[0].input_region_id matches Some(rid) ==> rid@ != id) by {
            assert(match rs[0].input_region_id {
                Some(rid) => rid@ != id,
                None => true,
            });
        }
        lemma_analysis_region_frame(m, w, rs[0], s, id);
        let p = analysis_region_step(m, w, rs[0], s);
        let t = rs.drop_first();
        assert(forall|j: int| 0 <= j < t.len() ==> t[j] == rs[j + 1]);
        lemma_analysis_fold_frame(p.0, p.1, t, s, id);
    }
}

proof fn lemma_label_step_props(
    m: Seq<(Seq<char>, RegionInfoV)>,
    w: Seq<WarningV>,
    r: Region,
    id: Seq<char>,
)
    requires
        sorted_keys(m),
    ensures
        ({
            let p = label_region_step(m, w, r);
            &&& sorted_keys(p.0)
            &&& (stats_unset(infos_get(m, id)) ==> stats_unset(infos_get(p.0, id)))
            &&& (infos_get(m, id).text_label is Some ==> infos_get(p.0, id).text_label is Some)
            &&& (has_key(m, id) ==> has_key(p.0, id))
            &&& (r.id@ == id ==> has_key(p.0, id) && infos_get(p.0, id).text_label is Some)
        }),
{
    let k = r.id@;
    lemma_ensure_props(m, k);
    let o = infos_get(infos_ensure(m, k), k);
    let nv = RegionInfoV { text_label: Some(trim_spec(r.text@)), ..o };
    lemma_upsert_get(m, k, nv, id);
}

proof fn lemma_label_fold_props(
    m: Seq<(Seq<char>, RegionInfoV)>,
    w: Seq<WarningV>,
    rs: Seq<Region>,
    id: Seq<char>,
)
    requires
        sorted_keys(m),
    ensures
        ({
            let p = label_regions_fold(m, w, rs);
            &&& sorted_keys(p.0)
            &&& (stats_unset(infos_get(m, id)) ==> stats_unset(infos_get(p.0, id)))
            &&& (infos_get(m, id).text_label is Some ==> infos_get(p.0, id).text_label is Some)
            &&& (has_key(m, id) ==> has_key(p.0, id))
            &&& ((exists|j: int| 0 <= j < rs.len() && rs[j].id@ == id) ==> (has_key(p.0, id)
                && infos_get(p.0, id).text_label is Some))
        }),
    decreases rs.len(),
{
    if rs.len() > 0 {
        lemma_label_step_props(m, w, rs[0], id);
        let p = label_region_step(m, w, rs[0]);
        let t = rs.drop_first();
        assert(forall|j: int| 0 <= j < t.len() ==> t[j] == rs[j + 1]);
        lemma_label_fold_props(p.0, p.1, t, id);
        if exists|j: int| 0 <= j < rs.len() && rs[j].id@ == id {
            let j = choose|j: int| 0 <= j < rs.len() && rs[j].id@ == id;
            if j > 0 {
                assert(t[j - 1].id@ == id);
            }
        }
    }
}

proof fn lemma_layer_step_props(st: ReconState, layer: Annotation, id: Seq<char>)
    requires
        sorted_keys(st.infos),
        !backref_in_layer(layer, id),
    ensures
        ({
            let st1 = layer_step(st, layer);
            &&& sorted_keys(st1.infos)
            &&& (stats_unset(infos_get(st.infos, id)) ==> stats_unset(infos_get(st1.infos, id)))
            &&& (infos_get(st.infos, id).text_label is Some ==> infos_get(
                st1.infos,
                id,
            ).text_label is Some)
            &&& (has_key(st.infos, id) ==> has_key(st1.infos, id))
            &&& (drawn_in_layer(layer, id) ==> (has_key(st1.infos, id) && infos_get(
                st1.infos,
                id,
            ).text_label is Some))
        }),
{
    if layer.annotation_type@ == "4"@ {
        lemma_label_fold_props(st.infos, st.warnings, layer.regions.region@, id);
    } else if layer.annotation_type@ == "3"@ {
        match layer.regions.region_attribute_headers.attribute_header {
            None => {},
            Some(hs) => {
                let po = find_header_id(hs@, "Positivity ="@);
                let np = find_header_id(hs@, "Np  ="@);
                let nwp = find_header_id(hs@, "Nwp ="@);
                let nsp = find_header_id(hs@, "Nsp ="@);
                let nt = find_header_id(hs@, "NTotal ="@);
                if po is None || np is None || nwp is None || nsp is None || nt is None {
                } else {
                    let w0 = if st.seen_analysis {
                        st.warnings.push(
                            WarningV::MultipleAnalysisLayers { layer_id: layer.id@ },
                        )
                    } else {
                        st.warnings
                    };
                    let s = SlotIds {
                        positivity: po.unwrap(),
                        positive: np.unwrap(),
                        wpositive: nwp.unwrap(),
                        spositive: nsp.unwrap(),
                        total: nt.unwrap(),
                    };
                    assert forall|j: int|
                        0 <= j < layer.regions.region@.len() implies match (
                    #[trigger] layer.regions.region@[j]).input_region_id {
                        Some(rid) => rid@ != id,
                        None => true,
                    } by {
                        if layer.regions.region@[j].input_region_id matches Some(rid) && rid@
                            == id {
                            assert(backref_in_layer(layer, id));
                        }
                    }
                    lemma_analysis_fold_frame(st.infos, w0, layer.regions.region@, s, id);
                }
            },
        }
        reveal_strlit("3");
        reveal_strlit("4");
        assert(layer.annotation_type@ != "4"@);
        assert(!drawn_in_layer(layer, id));
    } else {
        assert(!drawn_in_layer(layer, id));
    }
}

proof fn lemma_layers_fold_props(st: ReconState, ls: Seq<Annotation>, id: Seq<char>)
    requires
        sorted_keys(st.infos),
        forall|i: int| 0 <= i < ls.len() ==> !backref_in_layer(ls[i], id),
    ensures
        ({
            let st1 = layers_fold(st, ls);
            &&& sorted_keys(st1.infos)
            &&& (stats_unset(infos_get(st.infos, id)) ==> stats_unset(infos_get(st1.infos, id)))
            &&& (infos_get(st.infos, id).text_label is Some ==> infos_get(
                st1.infos,
                id,
            ).text_label is Some)
            &&& (has_key(st.infos, id) ==> has_key(st1.infos, id))
            &&& ((exists|i: int| 0 <= i < ls.len() && drawn_in_layer(ls[i], id)) ==> (has_key(
                st1.infos,
                id,
            ) && infos_get(st1.infos, id).text_label is Some))
        }),
    decreases ls.len(),
{
    if ls.len() > 0 {
        lemma_layer_step_props(st, ls[0], id);
        let st2 = layer_step(st, ls[0]);
        let t = ls.drop_first();
        assert(forall|i: int| 0 <= i < t.len() ==> t[i] == ls[i + 1]);
        lemma_layers_fold_props(st2, t, id);
        if exists|i: int| 0 <= i < ls.len() && drawn_in_layer(ls[i], id) {
            let i = choose|i: int| 0 <= i < ls.len() && drawn_in_layer(ls[i], id);
            if i > 0 {
                assert(drawn_in_layer(t[i - 1], id));
            }
        }
    }
}

/// A drawn region whose identifier is never referenced by any
/// computed region still gets its own row: the label is set and every
/// statistics field stays empty.
pub proof fn lemma_drawn_only_region(doc: Annotations, id: Seq<char>)
    requires
        appears_as_drawn(doc, id),
        never_backref(doc, id),
    ensures
        has_key(reconcile_spec(doc).infos, id),
        infos_get(reconcile_spec(doc).infos, id).text_label is Some,
        stats_unset(infos_get(reconcile_spec(doc).infos, id)),
{
    lemma_get_absent(Seq::<(Seq<char>, RegionInfoV)>::empty(), id);
    lemma_layers_fold_props(init_state(), doc.annotation@, id);
}

} // verus!
