//! Row and diagnostic rendering.
//!
//! Each reconciled region becomes one CSV row: source filename,
//! derived slide filename, region identifier, label, positivity, the
//! three positive counts, the derived total-positive count and the
//! total count.  Unset text renders empty, unset positivity renders
//! `NaN`, unset counts render `0`; only here do those defaults appear.

use vstd::prelude::*;
use crate::decimal::{dec_str_spec, dec_to_string, Decimal};
use crate::region_info::{info_wf, total_positive_spec, RegionInfo, RegionInfoV};
use crate::reconcile::{RegionEntry, SlotKind, Warning, WarningV};
use crate::text::{slide_name_spec, slide_name_str};

verus! {

/// The header row of the emitted CSV.
pub fn csv_header() -> (r: String)
    ensures
        r@
            == "Filename,Slide Name,Region ID,text label,positivity,num weak positive,num positive,num strong positive,num all positive,num total"@,
{
    String::from_str(
        "Filename,Slide Name,Region ID,text label,positivity,num weak positive,num positive,num strong positive,num all positive,num total",
    )
}

/// A label, or empty text when unset.
pub open spec fn opt_text(o: Option<Seq<char>>) -> Seq<char> {
    match o {
        Some(t) => t,
        None => Seq::empty(),
    }
}

/// A positivity value, or `NaN` when unset.
pub open spec fn pos_text(o: Option<Decimal>) -> Seq<char> {
    match o {
        Some(d) => dec_str_spec(d),
        None => "NaN"@,
    }
}

/// A count, or `0` when unset.
pub open spec fn count_text(o: Option<Decimal>) -> Seq<char> {
    match o {
        Some(d) => dec_str_spec(d),
        None => "0"@,
    }
}

/// The CSV row of one reconciled region.
pub open spec fn row_spec(filename: Seq<char>, id: Seq<char>, i: RegionInfoV) -> Seq<char> {
    filename + ","@ + slide_name_spec(filename) + ","@ + id + ","@ + opt_text(i.text_label) + ","@
        + pos_text(i.positivity) + ","@ + count_text(i.num_wpositive) + ","@ + count_text(
        i.num_positive,
    ) + ","@ + count_text(i.num_spositive) + ","@ + dec_str_spec(total_positive_spec(i)) + ","@
        + count_text(i.num_total)
}

/// Render one region's CSV row.
pub fn csv_row(filename: &str, id: &String, info: &RegionInfo) -> (r: String)
    requires
        info_wf(info@),
    ensures
        r@ == row_spec(filename@, id@, info@),
{
    let mut out = String::new();
    out.append(filename);
    out.append(",");
    let slide = slide_name_str(filename);
    out.append(slide.as_str());
    out.append(",");
    out.append(id.as_str());
    out.append(",");
    match &info.text_label {
        Some(t) => {
            out.append(t.as_str());
        },
        None => {},
    }
    out.append(",");
    match &info.positivity {
        Some(d) => {
            let s = dec_to_string(d);
            out.append(s.as_str());
        },
        None => {
            out.append("NaN");
        },
    }
    out.append(",");
    match &info.num_wpositive {
        Some(d) => {
            let s = dec_to_string(d);
            out.append(s.as_str());
        },
        None => {
            out.append("0");
        },
    }
    out.append(",");
    match &info.num_positive {
        Some(d) => {
            let s = dec_to_string(d);
            out.append(s.as_str());
        },
        None => {
            out.append("0");
        },
    }
    out.append(",");
    match &info.num_spositive {
        Some(d) => {
            let s = dec_to_string(d);
            out.append(s.as_str());
        },
        None => {
            out.append("0");
        },
    }
    out.append(",");
    let tp = info.get_total_positive();
    let tps = dec_to_string(&tp);
    out.append(tps.as_str());
    out.append(",");
    match &info.num_total {
        Some(d) => {
            let s = dec_to_string(d);
            out.append(s.as_str());
        },
        None => {
            out.append("0");
        },
    }
    out
}

/// Render the CSV rows of all reconciled regions, in their sorted
/// order.
pub fn emit_rows(filename: &str, entries: &Vec<RegionEntry>) -> (r: Vec<String>)
    requires
        forall|i: int| 0 <= i < entries@.len() ==> info_wf(entries@[i].info@),
    ensures
        r@.len() == entries@.len(),
        forall|i: int|
            0 <= i < entries@.len() ==> r@[i]@ == row_spec(
                filename@,
                entries@[i].id@,
                entries@[i].info@,
            ),
{
    let mut out: Vec<String> = Vec::new();
    let n = entries.len();
    let mut i: usize = 0;
    while i < n
        invariant
            0 <= i <= n,
            n == entries@.len(),
            out@.len() == i,
            forall|k: int| 0 <= k < entries@.len() ==> info_wf(entries@[k].info@),
            forall|k: int|
                0 <= k < i ==> out@[k]@ == row_spec(filename@, entries@[k].id@, entries@[k].info@),
        decreases n - i,
    {
        let e = &entries[i];
        let row = csv_row(filename, &e.id, &e.info);
        out.push(row);
        i = i + 1;
    }
    out
}

/// The diagnostic text of a warning, naming the file it arose in where
/// the message calls for it.
pub open spec fn message_spec(w: WarningV, filename: Seq<char>) -> Seq<char> {
    match w {
        WarningV::OverwriteTextLabel => "Warning: Over-writing region text label"@,
        WarningV::OverwritePositivity => "Warning: Over-writing positivity for region"@,
        WarningV::OverwriteNumPositive => "Warning: Over-writing number positive for region"@,
        WarningV::OverwriteNumTotal => "Warning: Over-writing number total for region"@,
        WarningV::MissingHeaderList { layer_id } => "In "@ + filename
            + ": Type 3 annotation layer "@ + layer_id + " is missing Region Attribute header"@,
        WarningV::MissingSlot { slot } => match slot {
            SlotKind::Positivity => "Missing positivity in "@ + filename,
            SlotKind::Positive => "Missing number positive in "@ + filename,
            SlotKind::WeakPositive => "Missing number weak positive in "@ + filename,
            SlotKind::StrongPositive => "Missing number strong positive in "@ + filename,
            SlotKind::Total => "Missing number total in "@ + filename,
        },
        WarningV::MultipleAnalysisLayers { layer_id } =>
            "Warning! Multiple type 3 analysis layers found - last one will be used. Currently processing layer id "@
            + layer_id,
        WarningV::MissingBackReference { region_id } =>
            "Missing input region ID for analysis region "@ + region_id,
    }
}

/// Render a warning's diagnostic line for one file.
pub fn warning_message(w: &Warning, filename: &str) -> (r: String)
    ensures
        r@ == message_spec(w@, filename@),
{
    let mut out = String::new();
    match w {
        Warning::OverwriteTextLabel => {
            out.append("Warning: Over-writing region text label");
        },
        Warning::OverwritePositivity => {
            out.append("Warning: Over-writing positivity for region");
        },
        Warning::OverwriteNumPositive => {
            out.append("Warning: Over-writing number positive for region");
        },
        Warning::OverwriteNumTotal => {
            out.append("Warning: Over-writing number total for region");
        },
        Warning::MissingHeaderList { layer_id } => {
            out.append("In ");
            out.append(filename);
            out.append(": Type 3 annotation layer ");
            out.append(layer_id.as_str());
            out.append(" is missing Region Attribute header");
        },
        Warning::MissingSlot { slot } => {
            match slot {
                SlotKind::Positivity => {
                    out.append("Missing positivity in ");
                },
                SlotKind::Positive => {
                    out.append("Missing number positive in ");
                },
                SlotKind::WeakPositive => {
                    out.append("Missing number weak positive in ");
                },
                SlotKind::StrongPositive => {
                    out.append("Missing number strong positive in ");
                },
                SlotKind::Total => {
                    out.append("Missing number total in ");
                },
            }
            out.append(filename);
        },
        Warning::MultipleAnalysisLayers { layer_id } => {
            out.append(
                "Warning! Multiple type 3 analysis layers found - last one will be used. Currently processing layer id ",
            );
            out.append(layer_id.as_str());
        },
        Warning::MissingBackReference { region_id } => {
            out.append("Missing input region ID for analysis region ");
            out.append(region_id.as_str());
        },
    }
    out
}

/// Reconcile one document and render its CSV rows and diagnostics:
/// the rows follow the reconciled records in their sorted order, and
/// the warnings are those of the walk.
pub fn process_document(doc: &crate::doc::Annotations, filename: &str) -> (r: (
    Vec<String>,
    Vec<Warning>,
))
    ensures
        ({
            let st = crate::reconcile::reconcile_spec(*doc);
            &&& r.0@.len() == st.infos.len()
            &&& (forall|i: int|
                0 <= i < st.infos.len() ==> r.0@[i]@ == row_spec(
                    filename@,
                    st.infos[i].0,
                    st.infos[i].1,
                ))
            &&& crate::reconcile::warnings_view(r.1@) == st.warnings
        }),
{
    let (entries, warnings) = crate::reconcile::reconcile(doc);
    proof {
        crate::reconcile::lemma_reconcile_ok(*doc);
        let st = crate::reconcile::reconcile_spec(*doc);
        assert forall|i: int| 0 <= i < entries@.len() implies info_wf(entries@[i].info@) by {
            assert(crate::reconcile::entries_view(entries@)[i].1 == entries@[i].info@);
            assert(info_wf(st.infos[i].1));
        }
    }
    let rows = emit_rows(filename, &entries);
    proof {
        let st = crate::reconcile::reconcile_spec(*doc);
        assert forall|i: int|
            0 <= i < st.infos.len() implies rows@[i]@ == row_spec(
            filename@,
            st.infos[i].0,
            st.infos[i].1,
        ) by {
            assert(crate::reconcile::entries_view(entries@)[i] == st.infos[i]);
            assert(entries@[i].id@ == st.infos[i].0);
            assert(entries@[i].info@ == st.infos[i].1);
        }
    }
    (rows, warnings)
}

} // verus!
