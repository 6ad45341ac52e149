//! Rows of the dose tables.

use vstd::prelude::*;

verus! {

/// One adverse-event row: a subject, the dose it followed and the grade seen.
#[derive(Clone, Debug, PartialEq, Eq)]
pub struct AeDoseCsvRecord {
    pub subject_id: i32,
    pub dose_number: i32,
    pub cytokine_release_syndrome_grade_id: i32,
    pub date: String,
    pub time: Option<String>,
}

/// One row of the table that gives each subject its colour.
#[derive(Clone, Debug, PartialEq, Eq)]
pub struct AeDoseColorHashCsvRecord {
    pub subject_id: i32,
    pub dose_number: String,
    pub cytokine_release_syndrome_grade_id: String,
    pub ae_dose_1: String,
    pub dvc: String,
    pub color_hash: String,
}

} // verus!
