use charts::models::crs_dose::{AeDoseColorHashCsvRecord, AeDoseCsvRecord};
use charts::models::{
    AltGraph, CytokineReleaseSyndromeGrade, Dose, DosageEvent, Edge, EdgeDatum,
    EnumIntConversionError, Node, NodeDatum,
};

#[test]
fn grades_from_integers() {
    assert_eq!(CytokineReleaseSyndromeGrade::try_from(0), Ok(CytokineReleaseSyndromeGrade::G0));
    assert_eq!(CytokineReleaseSyndromeGrade::try_from(1), Ok(CytokineReleaseSyndromeGrade::G1));
    assert_eq!(CytokineReleaseSyndromeGrade::try_from(2), Ok(CytokineReleaseSyndromeGrade::G2));
    assert_eq!(
        CytokineReleaseSyndromeGrade::try_from(3),
        Err(EnumIntConversionError::FromIntError(3))
    );
    assert_eq!(
        CytokineReleaseSyndromeGrade::try_from(-1),
        Err(EnumIntConversionError::FromIntError(-1))
    );
}

#[test]
fn doses_from_integers() {
    assert_eq!(Dose::try_from(1), Ok(Dose::D1));
    assert_eq!(Dose::try_from(2), Ok(Dose::D2));
    assert_eq!(Dose::try_from(3), Ok(Dose::D3));
    assert_eq!(Dose::try_from(4), Ok(Dose::D4));
    assert_eq!(Dose::try_from(0), Err(EnumIntConversionError::FromIntError(0)));
    assert_eq!(Dose::try_from(5), Err(EnumIntConversionError::FromIntError(5)));
    let dose: Result<Dose, EnumIntConversionError> = 3.try_into();
    assert_eq!(dose, Ok(Dose::D3));
}

#[test]
fn names_and_ordinals() {
    assert_eq!(Dose::all(), vec![Dose::D1, Dose::D2, Dose::D3, Dose::D4]);
    assert_eq!(
        CytokineReleaseSyndromeGrade::all(),
        vec![
            CytokineReleaseSyndromeGrade::G0,
            CytokineReleaseSyndromeGrade::G1,
            CytokineReleaseSyndromeGrade::G2
        ]
    );
    assert_eq!(Dose::D3.name(), "D3");
    assert_eq!(Dose::D3.ordinal(), 2);
    assert_eq!(CytokineReleaseSyndromeGrade::G2.name(), "G2");
    assert_eq!(CytokineReleaseSyndromeGrade::G2.ordinal(), 2);
    assert!(Dose::D1 < Dose::D4);
    assert!(CytokineReleaseSyndromeGrade::G0 < CytokineReleaseSyndromeGrade::G1);
}

#[test]
fn dosage_event_label() {
    let event = DosageEvent { grade: CytokineReleaseSyndromeGrade::G1, dose: Dose::D2 };
    assert_eq!(event.to_string(), "(G1, D2)");
}

#[test]
fn plain_records_hold_their_fields() {
    let graph = AltGraph {
        nodes: vec![Node {
            id: "n".to_string(),
            datum: NodeDatum { grade: CytokineReleaseSyndromeGrade::G0, dose: Dose::D1 },
        }],
        edges: vec![Edge {
            id: "e".to_string(),
            source: "n".to_string(),
            target: "n".to_string(),
            datum: EdgeDatum { weight: 2, subject_id: 7 },
        }],
    };
    assert_eq!(graph.nodes[0].datum.dose, Dose::D1);
    assert_eq!(graph.edges[0].datum.weight, 2);
    let row = AeDoseCsvRecord {
        subject_id: 1,
        dose_number: 2,
        cytokine_release_syndrome_grade_id: 0,
        date: "2020-01-01".to_string(),
        time: None,
    };
    assert_eq!(row.clone(), row);
    let colour = AeDoseColorHashCsvRecord {
        subject_id: 1,
        dose_number: "2".to_string(),
        cytokine_release_syndrome_grade_id: "0".to_string(),
        ae_dose_1: "1".to_string(),
        dvc: "x".to_string(),
        color_hash: "#fff".to_string(),
    };
    assert_eq!(colour.clone().color_hash, "#fff");
}
