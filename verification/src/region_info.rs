//! The accumulator record for one region.
//!
//! A [`RegionInfo`] is keyed by region identifier while layers are
//! reconciled.  Each field is optional: it stays unset until some layer
//! supplies it.  Setters report whether they overwrote an earlier
//! value, so that the caller can flag duplicate data in the input.

use vstd::prelude::*;
use crate::decimal::{
    dec_add, dec_add_spec, dec_bounded, dec_mag, dec_small, dec_wf, dec_zero, scaled_val, Decimal,
    lemma_small_is_bounded,
};

verus! {

/// Information collected about a region.
pub struct RegionInfo {
    pub text_label: Option<String>,
    pub image_location: Option<String>,
    pub num_positive: Option<Decimal>,
    pub num_spositive: Option<Decimal>,
    pub num_wpositive: Option<Decimal>,
    pub num_total: Option<Decimal>,
    pub positivity: Option<Decimal>,
}

/// The mathematical value of a [`RegionInfo`]: texts as character
/// sequences, numbers as decimals.
pub struct RegionInfoV {
    pub text_label: Option<Seq<char>>,
    pub image_location: Option<Seq<char>>,
    pub num_positive: Option<Decimal>,
    pub num_spositive: Option<Decimal>,
    pub num_wpositive: Option<Decimal>,
    pub num_total: Option<Decimal>,
    pub positivity: Option<Decimal>,
}

impl View for RegionInfo {
    type V = RegionInfoV;

    open spec fn view(&self) -> RegionInfoV {
        RegionInfoV {
            text_label: match self.text_label {
                Some(s) => Some(s@),
                None => None,
            },
            image_location: match self.image_location {
                Some(s) => Some(s@),
                None => None,
            },
            num_positive: self.num_positive,
            num_spositive: self.num_spositive,
            num_wpositive: self.num_wpositive,
            num_total: self.num_total,
            positivity: self.positivity,
        }
    }
}

/// The record with every field unset.
pub open spec fn empty_info() -> RegionInfoV {
    RegionInfoV {
        text_label: None,
        image_location: None,
        num_positive: None,
        num_spositive: None,
        num_wpositive: None,
        num_total: None,
        positivity: None,
    }
}

/// Every numeric field that is set carries a parse-sized decimal.
pub open spec fn info_wf(i: RegionInfoV) -> bool {
    &&& (i.num_positive matches Some(d) ==> dec_small(d))
    &&& (i.num_spositive matches Some(d) ==> dec_small(d))
    &&& (i.num_wpositive matches Some(d) ==> dec_small(d))
    &&& (i.num_total matches Some(d) ==> dec_small(d))
    &&& (i.positivity matches Some(d) ==> dec_small(d))
}

/// The value of an optional decimal, defaulting to zero.
pub open spec fn dec_or_zero(o: Option<Decimal>) -> Decimal {
    match o {
        Some(d) => d,
        None => Decimal { neg: false, mantissa: 0, scale: 0 },
    }
}

/// The total positive count of a record: weak + plain + strong, with
/// an unset component counting as zero.
pub open spec fn total_positive_spec(i: RegionInfoV) -> Decimal {
    dec_add_spec(
        dec_add_spec(dec_or_zero(i.num_wpositive), dec_or_zero(i.num_positive)),
        dec_or_zero(i.num_spositive),
    )
}

impl RegionInfo {
    /// Make a new record with every field unset.
    pub fn new() -> (r: Self)
        ensures
            r@ == empty_info(),
            info_wf(r@),
    {
        RegionInfo {
            text_label: None,
            positivity: None,
            num_positive: None,
            num_spositive: None,
            num_wpositive: None,
            num_total: None,
            image_location: None,
        }
    }

    /// Get the text label.
    pub fn text_label(&self) -> (r: Option<&String>)
        ensures
            match r {
                Some(s) => self@.text_label == Some(s@),
                None => self@.text_label is None,
            },
    {
        self.text_label.as_ref()
    }

    /// Get the positivity ratio.
    pub fn positivity(&self) -> (r: Option<Decimal>)
        ensures
            r == self@.positivity,
    {
        self.positivity
    }

    /// Get the positive pixel count.
    pub fn num_positive(&self) -> (r: Option<Decimal>)
        ensures
            r == self@.num_positive,
    {
        self.num_positive
    }

    /// Get the total non-background pixel count.
    pub fn num_total(&self) -> (r: Option<Decimal>)
        ensures
            r == self@.num_total,
    {
        self.num_total
    }

    /// Get the strong-positive pixel count.
    pub fn num_spositive(&self) -> (r: Option<Decimal>)
        ensures
            r == self@.num_spositive,
    {
        self.num_spositive
    }

    /// Get the weak-positive pixel count.
    pub fn num_wpositive(&self) -> (r: Option<Decimal>)
        ensures
            r == self@.num_wpositive,
    {
        self.num_wpositive
    }

    /// Total positive pixels: weak + plain + strong positive counts,
    /// using zero for any missing component.  The result is always a
    /// definite number, whether or not any component was set.
    pub fn get_total_positive(&self) -> (r: Decimal)
        requires
            info_wf(self@),
        ensures
            r == total_positive_spec(self@),
            dec_wf(r),
            scaled_val(r) == scaled_val(dec_or_zero(self@.num_wpositive)) + scaled_val(
                dec_or_zero(self@.num_positive)) + scaled_val(dec_or_zero(self@.num_spositive)),
    {
        let a = match self.num_wpositive {
            Some(d) => d,
            None => dec_zero(),
        };
        let b = match self.num_positive {
            Some(d) => d,
            None => dec_zero(),
        };
        let c = match self.num_spositive {
            Some(d) => d,
            None => dec_zero(),
        };
        proof {
            lemma_small_is_bounded(a);
            lemma_small_is_bounded(b);
            lemma_small_is_bounded(c);
        }
        let ab = dec_add(&a, &b);
        dec_add(&ab, &c)
    }

    /// Set the text label; reports whether a label was already set.
    pub fn set_text_label(&mut self, text_label: Option<String>) -> (overwrote: bool)
        ensures
            *final(self) == (RegionInfo { text_label, ..*old(self) }),
            overwrote == (old(self)@.text_label is Some),
    {
        let overwrote = self.text_label.is_some();
        self.text_label = text_label;
        overwrote
    }

    /// Set the positive count; reports whether it was already set.
    pub fn set_num_positive(&mut self, num_pos: Option<Decimal>) -> (overwrote: bool)
        ensures
            *final(self) == (RegionInfo { num_positive: num_pos, ..*old(self) }),
            overwrote == (old(self)@.num_positive is Some),
    {
        let overwrote = self.num_positive.is_some();
        self.num_positive = num_pos;
        overwrote
    }

    /// Set the total count; reports whether it was already set.
    pub fn set_num_total(&mut self, num_total: Option<Decimal>) -> (overwrote: bool)
        ensures
            *final(self) == (RegionInfo { num_total, ..*old(self) }),
            overwrote == (old(self)@.num_total is Some),
    {
        let overwrote = self.num_total.is_some();
        self.num_total = num_total;
        overwrote
    }

    /// Set the positivity ratio; reports whether it was already set.
    pub fn set_positivity(&mut self, positivity: Option<Decimal>) -> (overwrote: bool)
        ensures
            *final(self) == (RegionInfo { positivity, ..*old(self) }),
            overwrote == (old(self)@.positivity is Some),
    {
        let overwrote = self.positivity.is_some();
        self.positivity = positivity;
        overwrote
    }

    /// Set the image filename.
    pub fn set_image_location(&mut self, image_location: Option<String>)
        ensures
            *final(self) == (RegionInfo { image_location, ..*old(self) }),
    {
        self.image_location = image_location;
    }

    /// Set the strong-positive count.
    pub fn set_num_spositive(&mut self, num_spositive: Option<Decimal>)
        ensures
            *final(self) == (RegionInfo { num_spositive, ..*old(self) }),
    {
        self.num_spositive = num_spositive;
    }

    /// Set the weak-positive count.
    pub fn set_num_wpositive(&mut self, num_wpositive: Option<Decimal>)
        ensures
            *final(self) == (RegionInfo { num_wpositive, ..*old(self) }),
    {
        self.num_wpositive = num_wpositive;
    }
}

} // verus!
