//! Domain records of the cytokine-release-syndrome study.

pub mod crs_dose;

use vstd::prelude::*;
use vstd::std_specs::convert::TryFromSpecImpl;

verus! {

/// Severity grade of a cytokine release syndrome event.
#[derive(Clone, Copy, Debug, PartialEq, Eq, PartialOrd, Ord, Hash, Structural)]
pub enum CytokineReleaseSyndromeGrade {
    G0,
    G1,
    G2,
}

/// An integer that names no variant of the requested enum.
#[derive(Clone, Copy, Debug, PartialEq, Eq, Structural)]
pub enum EnumIntConversionError {
    FromIntError(i32),
}

impl TryFrom<i32> for CytokineReleaseSyndromeGrade {
    type Error = EnumIntConversionError;

    fn try_from(value: i32) -> (res: Result<Self, Self::Error>) {
        match value {
            0 => Ok(CytokineReleaseSyndromeGrade::G0),
            1 => Ok(CytokineReleaseSyndromeGrade::G1),
            2 => Ok(CytokineReleaseSyndromeGrade::G2),
            other => Err(EnumIntConversionError::FromIntError(other)),
        }
    }
}

impl TryFromSpecImpl<i32> for CytokineReleaseSyndromeGrade {
    open spec fn obeys_try_from_spec() -> bool {
        true
    }

    open spec fn try_from_spec(value: i32) -> Result<Self, Self::Error> {
        grade_of(value)
    }
}

/// The grade that `value` names: 0, 1 and 2 name the three grades.
pub open spec fn grade_of(value: i32) -> Result<
    CytokineReleaseSyndromeGrade,
    EnumIntConversionError,
> {
    if value == 0 {
        Ok(CytokineReleaseSyndromeGrade::G0)
    } else if value == 1 {
        Ok(CytokineReleaseSyndromeGrade::G1)
    } else if value == 2 {
        Ok(CytokineReleaseSyndromeGrade::G2)
    } else {
        Err(EnumIntConversionError::FromIntError(value))
    }
}

/// Ordinal of a dose within a treatment course.
#[derive(Clone, Copy, Debug, PartialEq, Eq, PartialOrd, Ord, Hash, Structural)]
pub enum Dose {
    D1,
    D2,
    D3,
    D4,
}

impl TryFrom<i32> for Dose {
    type Error = EnumIntConversionError;

    fn try_from(value: i32) -> (res: Result<Self, Self::Error>) {
        match value {
            1 => Ok(Dose::D1),
            2 => Ok(Dose::D2),
            3 => Ok(Dose::D3),
            4 => Ok(Dose::D4),
            other => Err(EnumIntConversionError::FromIntError(other)),
        }
    }
}

impl TryFromSpecImpl<i32> for Dose {
    open spec fn obeys_try_from_spec() -> bool {
        true
    }

    open spec fn try_from_spec(value: i32) -> Result<Self, Self::Error> {
        dose_of(value)
    }
}

/// The dose that `value` names: 1 to 4 name the four doses.
pub open spec fn dose_of(value: i32) -> Result<Dose, EnumIntConversionError> {
    if value == 1 {
        Ok(Dose::D1)
    } else if value == 2 {
        Ok(Dose::D2)
    } else if value == 3 {
        Ok(Dose::D3)
    } else if value == 4 {
        Ok(Dose::D4)
    } else {
        Err(EnumIntConversionError::FromIntError(value))
    }
}

impl CytokineReleaseSyndromeGrade {
    /// The name of the grade as it is written.
    pub open spec fn name_spec(&self) -> Seq<char> {
        match self {
            CytokineReleaseSyndromeGrade::G0 => "G0"@,
            CytokineReleaseSyndromeGrade::G1 => "G1"@,
            CytokineReleaseSyndromeGrade::G2 => "G2"@,
        }
    }

    /// The name of the grade.
    pub fn name(&self) -> (r: &'static str)
        ensures
            r@ == self.name_spec(),
    {
        match self {
            CytokineReleaseSyndromeGrade::G0 => "G0",
            CytokineReleaseSyndromeGrade::G1 => "G1",
            CytokineReleaseSyndromeGrade::G2 => "G2",
        }
    }

    /// Place of the grade among the grades, from 0.
    pub open spec fn ordinal_spec(&self) -> nat {
        match self {
            CytokineReleaseSyndromeGrade::G0 => 0,
            CytokineReleaseSyndromeGrade::G1 => 1,
            CytokineReleaseSyndromeGrade::G2 => 2,
        }
    }

    /// Place of the grade among the grades, from 0.
    pub fn ordinal(&self) -> (r: usize)
        ensures
            r == self.ordinal_spec(),
    {
        match self {
            CytokineReleaseSyndromeGrade::G0 => 0,
            CytokineReleaseSyndromeGrade::G1 => 1,
            CytokineReleaseSyndromeGrade::G2 => 2,
        }
    }

    /// Every grade, in ascending order.
    pub fn all() -> (r: Vec<CytokineReleaseSyndromeGrade>)
        ensures
            r@ == seq![
                CytokineReleaseSyndromeGrade::G0,
                CytokineReleaseSyndromeGrade::G1,
                CytokineReleaseSyndromeGrade::G2,
            ],
    {
        let mut r: Vec<CytokineReleaseSyndromeGrade> = Vec::new();
        r.push(CytokineReleaseSyndromeGrade::G0);
        r.push(CytokineReleaseSyndromeGrade::G1);
        r.push(CytokineReleaseSyndromeGrade::G2);
        r
    }
}

impl Dose {
    /// The name of the dose as it is written.
    pub open spec fn name_spec(&self) -> Seq<char> {
        match self {
            Dose::D1 => "D1"@,
            Dose::D2 => "D2"@,
            Dose::D3 => "D3"@,
            Dose::D4 => "D4"@,
        }
    }

    /// The name of the dose.
    pub fn name(&self) -> (r: &'static str)
        ensures
            r@ == self.name_spec(),
    {
        match self {
            Dose::D1 => "D1",
            Dose::D2 => "D2",
            Dose::D3 => "D3",
            Dose::D4 => "D4",
        }
    }

    /// Place of the dose among the doses, from 0.
    pub open spec fn ordinal_spec(&self) -> nat {
        match self {
            Dose::D1 => 0,
            Dose::D2 => 1,
            Dose::D3 => 2,
            Dose::D4 => 3,
        }
    }

    /// Place of the dose among the doses, from 0.
    pub fn ordinal(&self) -> (r: usize)
        ensures
            r == self.ordinal_spec(),
    {
        match self {
            Dose::D1 => 0,
            Dose::D2 => 1,
            Dose::D3 => 2,
            Dose::D4 => 3,
        }
    }

    /// Every dose, in ascending order.
    pub fn all() -> (r: Vec<Dose>)
        ensures
            r@ == seq![Dose::D1, Dose::D2, Dose::D3, Dose::D4],
    {
        let mut r: Vec<Dose> = Vec::new();
        r.push(Dose::D1);
        r.push(Dose::D2);
        r.push(Dose::D3);
        r.push(Dose::D4);
        r
    }
}

/// What a node of the study graph stands for.
#[derive(Debug)]
pub struct NodeDatum {
    pub grade: CytokineReleaseSyndromeGrade,
    pub dose: Dose,
}

/// A node of a graph held as plain records.
#[derive(Debug)]
pub struct Node {
    pub id: String,
    pub datum: NodeDatum,
}

/// What an edge of the study graph carries.
#[derive(Debug)]
pub struct EdgeDatum {
    pub weight: i64,
    pub subject_id: i64,
}

/// An edge of a graph held as plain records.
#[derive(Debug)]
pub struct Edge {
    pub id: String,
    pub source: String,
    pub target: String,
    pub datum: EdgeDatum,
}

/// A graph held as plain records.
pub struct AltGraph {
    pub nodes: Vec<Node>,
    pub edges: Vec<Edge>,
}

/// The grade seen after a dose.
#[derive(Clone, Copy, Debug, PartialEq, Eq, Structural)]
pub struct DosageEvent {
    pub grade: CytokineReleaseSyndromeGrade,
    pub dose: Dose,
}

impl DosageEvent {
    /// The event as it is written: grade and dose in round brackets.
    pub open spec fn label_spec(&self) -> Seq<char> {
        "("@ + self.grade.name_spec() + ", "@ + self.dose.name_spec() + ")"@
    }

    /// The text that labels the event.
    pub fn to_string(&self) -> (r: String)
        ensures
            r@ == self.label_spec(),
    {
        let mut r = String::from_str("(");
        r.append(self.grade.name());
        r.append(", ");
        r.append(self.dose.name());
        r.append(")");
        r
    }
}

} // verus!
