use charts::crs::{create_crs_graph, has_consecutive_doses};
use charts::models::crs_dose::AeDoseCsvRecord;
use charts::models::{CytokineReleaseSyndromeGrade, Dose, DosageEvent, EnumIntConversionError};

fn row(subject_id: i32, dose_number: i32, grade: i32) -> AeDoseCsvRecord {
    AeDoseCsvRecord {
        subject_id,
        dose_number,
        cytokine_release_syndrome_grade_id: grade,
        date: String::new(),
        time: None,
    }
}

#[test]
fn study_graph_has_a_node_for_every_dose_and_grade() {
    let graph = create_crs_graph(&vec![]).unwrap();
    assert_eq!(graph.node_count(), 12);
    assert_eq!(graph.edge_count(), 0);
    let mut index = 0;
    for dose in Dose::all() {
        for grade in CytokineReleaseSyndromeGrade::all() {
            let node = graph.node(index).unwrap();
            assert_eq!(node.payload, DosageEvent { grade, dose });
            assert_eq!(node.value, None);
            index += 1;
        }
    }
}

#[test]
fn each_subject_walks_from_dose_to_dose() {
    // subject 2 comes first in the table and its rows are out of order
    let records = vec![row(2, 2, 0), row(1, 1, 0), row(2, 1, 0), row(1, 3, 2), row(1, 2, 1)];
    assert!(has_consecutive_doses(&records));
    let graph = create_crs_graph(&records).unwrap();
    assert_eq!(graph.endpoints(), vec![(0, 4), (4, 8), (0, 3)]);
    for j in 0..3 {
        let edge = graph.edge(j).unwrap();
        assert_eq!((edge.value, edge.payload), (1, 1));
    }
    assert_eq!(graph.flow(0), Some(2));
    assert_eq!(graph.flow(4), Some(1));
}

#[test]
fn number_that_names_no_dose_or_grade_is_reported() {
    let records = vec![row(1, 4, 0), row(1, 5, 0)];
    assert!(has_consecutive_doses(&records));
    assert_eq!(
        create_crs_graph(&records).err(),
        Some(EnumIntConversionError::FromIntError(5))
    );
    let records = vec![row(1, 1, 0), row(1, 2, 3)];
    assert_eq!(
        create_crs_graph(&records).err(),
        Some(EnumIntConversionError::FromIntError(3))
    );
    // the dose of the source is looked at before its grade
    let records = vec![row(1, 0, 9), row(1, 1, 0)];
    assert_eq!(
        create_crs_graph(&records).err(),
        Some(EnumIntConversionError::FromIntError(0))
    );
}

#[test]
fn single_row_of_a_subject_gives_no_edge() {
    // the lone row is never converted, whatever it holds
    let graph = create_crs_graph(&vec![row(1, 77, 77)]).unwrap();
    assert_eq!(graph.edge_count(), 0);
}

#[test]
fn doses_with_a_gap_are_not_consecutive() {
    assert!(!has_consecutive_doses(&vec![row(1, 1, 0), row(1, 3, 0)]));
    assert!(!has_consecutive_doses(&vec![row(1, 2, 0), row(1, 2, 0)]));
    assert!(!has_consecutive_doses(&vec![row(1, i32::MAX, 0), row(1, i32::MAX, 0)]));
    assert!(has_consecutive_doses(&vec![row(1, 1, 0), row(2, 3, 0)]));
    assert!(has_consecutive_doses(&vec![]));
}
