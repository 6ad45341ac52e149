//! The study graph: how subjects move between grades from one dose to the
//! next.
//!
//! The graph has one node for every pair of dose and grade. For every
//! subject and every two rows of it that follow each other by dose, it has
//! an edge of value 1 from the node of the earlier row to that of the later.

use vstd::prelude::*;

use crate::graph::{inflow, outflow, FlowGraph, Link};
use crate::models::crs_dose::AeDoseCsvRecord;
use crate::models::{
    dose_of, grade_of, CytokineReleaseSyndromeGrade, Dose, DosageEvent, EnumIntConversionError,
};
use crate::ranking::{stable_sort, stable_sorted, Ranked};

verus! {

/// The numbers of a row.
#[derive(Clone, Copy, Debug, PartialEq, Eq, Structural)]
pub struct DoseRow {
    pub subject_id: i32,
    pub dose_number: i32,
    pub grade_id: i32,
}

impl Ranked for DoseRow {
    /// Rows rank by subject, and within a subject by dose.
    open spec fn rank_le(&self, other: &Self) -> bool {
        self.subject_id < other.subject_id || (self.subject_id == other.subject_id
            && self.dose_number <= other.dose_number)
    }

    proof fn rank_total(a: &Self, b: &Self) {
    }

    proof fn rank_transitive(a: &Self, b: &Self, c: &Self) {
    }

    fn le(&self, other: &Self) -> (r: bool) {
        self.subject_id < other.subject_id || (self.subject_id == other.subject_id
            && self.dose_number <= other.dose_number)
    }
}

/// The numbers of each record.
pub open spec fn rows_of(records: Seq<AeDoseCsvRecord>) -> Seq<DoseRow> {
    Seq::new(
        records.len(),
        |i: int|
            DoseRow {
                subject_id: records[i].subject_id,
                dose_number: records[i].dose_number,
                grade_id: records[i].cytokine_release_syndrome_grade_id,
            },
    )
}

/// The rows of each subject together, in the order of their doses.
pub open spec fn rows_by_subject(records: Seq<AeDoseCsvRecord>) -> Seq<DoseRow> {
    stable_sorted(rows_of(records))
}

/// In `rows`, each row of a subject is followed by the row of its next
/// dose, or by a row of another subject.
pub open spec fn doses_follow(rows: Seq<DoseRow>) -> bool {
    forall|i: int|
        0 <= i < rows.len() - 1 && (#[trigger] rows[i]).subject_id == rows[i + 1].subject_id
            ==> rows[i].dose_number + 1 == rows[i + 1].dose_number
}

/// The index of the node for `dose` and `grade`.
pub open spec fn node_index(dose: Dose, grade: CytokineReleaseSyndromeGrade) -> nat {
    dose.ordinal_spec() * 3 + grade.ordinal_spec()
}

/// The event that node `index` stands for.
pub open spec fn event_at(index: int) -> DosageEvent {
    DosageEvent {
        grade: if index % 3 == 0 {
            CytokineReleaseSyndromeGrade::G0
        } else if index % 3 == 1 {
            CytokineReleaseSyndromeGrade::G1
        } else {
            CytokineReleaseSyndromeGrade::G2
        },
        dose: if index / 3 == 0 {
            Dose::D1
        } else if index / 3 == 1 {
            Dose::D2
        } else if index / 3 == 2 {
            Dose::D3
        } else {
            Dose::D4
        },
    }
}

/// The node of a row, or the number in it that names no dose or, the dose
/// being one, no grade.
pub open spec fn row_node(row: DoseRow) -> Result<usize, EnumIntConversionError> {
    match dose_of(row.dose_number) {
        Err(e) => Err(e),
        Ok(dose) => match grade_of(row.grade_id) {
            Err(e) => Err(e),
            Ok(grade) => Ok(node_index(dose, grade) as usize),
        },
    }
}

/// The links for the first `pairs` pairs of neighbouring rows, or the
/// first number met that cannot be converted.
pub open spec fn links_of_pairs(rows: Seq<DoseRow>, pairs: int) -> Result<
    Seq<Link>,
    EnumIntConversionError,
>
    decreases pairs,
{
    if pairs <= 0 {
        Ok(Seq::empty())
    } else {
        match links_of_pairs(rows, pairs - 1) {
            Err(e) => Err(e),
            Ok(links) => if rows[pairs - 1].subject_id != rows[pairs].subject_id {
                Ok(links)
            } else {
                match row_node(rows[pairs - 1]) {
                    Err(e) => Err(e),
                    Ok(source) => match row_node(rows[pairs]) {
                        Err(e) => Err(e),
                        Ok(target) => Ok(links.push(Link { source, target, value: 1 })),
                    },
                }
            },
        }
    }
}

/// The links of the study graph for `rows`, which are grouped by subject
/// and ordered by dose.
pub open spec fn study_links(rows: Seq<DoseRow>) -> Result<Seq<Link>, EnumIntConversionError> {
    links_of_pairs(rows, rows.len() - 1)
}

/// The numbers of each record.
fn read_rows(records: &Vec<AeDoseCsvRecord>) -> (rows: Vec<DoseRow>)
    ensures
        rows@ == rows_of(records@),
{
    let mut rows: Vec<DoseRow> = Vec::new();
    let mut i: usize = 0;
    while i < records.len()
        invariant
            i <= records.len(),
            rows.len() == i,
            forall|k: int| 0 <= k < i ==> rows[k] == rows_of(records@)[k],
        decreases records.len() - i,
    {
        rows.push(
            DoseRow {
                subject_id: records[i].subject_id,
                dose_number: records[i].dose_number,
                grade_id: records[i].cytokine_release_syndrome_grade_id,
            },
        );
        i = i + 1;
    }
    assert(rows@ =~= rows_of(records@));
    rows
}

/// Whether each subject's rows, ordered by dose, carry doses that follow
/// each other.
pub fn has_consecutive_doses(records: &Vec<AeDoseCsvRecord>) -> (r: bool)
    ensures
        r == doses_follow(rows_by_subject(records@)),
{
    let rows = read_rows(records);
    let sorted = stable_sort(&rows);
    let pairs: usize = if sorted.len() == 0 {
        0
    } else {
        sorted.len() - 1
    };
    let mut i: usize = 0;
    while i < pairs
        invariant
            sorted@ == rows_by_subject(records@),
            pairs == (if sorted.len() == 0 {
                0
            } else {
                sorted.len() - 1
            }),
            i <= pairs,
            forall|k: int|
                0 <= k < i && k < sorted.len() - 1 && (#[trigger] sorted[k]).subject_id == sorted[k
                    + 1].subject_id ==> sorted[k].dose_number + 1 == sorted[k + 1].dose_number,
        decreases pairs - i,
    {
        if sorted[i].subject_id == sorted[i + 1].subject_id {
            if sorted[i].dose_number == i32::MAX || sorted[i].dose_number + 1 != sorted[i
                + 1].dose_number {
                return false;
            }
        }
        i = i + 1;
    }
    true
}

/// The node of a row.
fn node_of_row(row: &DoseRow) -> (r: Result<usize, EnumIntConversionError>)
    ensures
        r == row_node(*row),
        r matches Ok(node) ==> node < 12,
{
    let dose = match Dose::try_from(row.dose_number) {
        Ok(dose) => dose,
        Err(e) => {
            return Err(e);
        },
    };
    let grade = match CytokineReleaseSyndromeGrade::try_from(row.grade_id) {
        Ok(grade) => grade,
        Err(e) => {
            return Err(e);
        },
    };
    Ok(dose.ordinal() * 3 + grade.ordinal())
}

/// A graph with the twelve nodes of the study and no edge.
fn study_nodes() -> (graph: FlowGraph<DosageEvent, i32>)
    ensures
        graph.wf(),
        graph@.links.len() == 0,
        graph@.fixed == Seq::new(12, |i: int| None::<u64>),
        forall|i: int| 0 <= i < 12 ==> (#[trigger] graph.node_spec(i)).payload == event_at(i),
{
    let doses = Dose::all();
    let grades = CytokineReleaseSyndromeGrade::all();
    let mut graph: FlowGraph<DosageEvent, i32> = FlowGraph::new();
    let mut d: usize = 0;
    while d < 4
        invariant
            d <= 4,
            doses@ == seq![Dose::D1, Dose::D2, Dose::D3, Dose::D4],
            grades@ == seq![
                CytokineReleaseSyndromeGrade::G0,
                CytokineReleaseSyndromeGrade::G1,
                CytokineReleaseSyndromeGrade::G2,
            ],
            graph.wf(),
            graph@.links.len() == 0,
            graph@.fixed == Seq::new((3 * d) as nat, |i: int| None::<u64>),
            forall|i: int|
                0 <= i < 3 * d ==> (#[trigger] graph.node_spec(i)).payload == event_at(i),
        decreases 4 - d,
    {
        let mut g: usize = 0;
        while g < 3
            invariant
                d < 4,
                g <= 3,
                doses@ == seq![Dose::D1, Dose::D2, Dose::D3, Dose::D4],
                grades@ == seq![
                    CytokineReleaseSyndromeGrade::G0,
                    CytokineReleaseSyndromeGrade::G1,
                    CytokineReleaseSyndromeGrade::G2,
                ],
                graph.wf(),
                graph@.links.len() == 0,
                graph@.fixed == Seq::new((3 * d + g) as nat, |i: int| None::<u64>),
                forall|i: int|
                    0 <= i < 3 * d + g ==> (#[trigger] graph.node_spec(i)).payload == event_at(i),
            decreases 3 - g,
        {
            let event = DosageEvent { grade: grades[g], dose: doses[d] };
            assert(event == event_at(3 * d + g));
            graph.add_node(event, None);
            assert(graph@.fixed =~= Seq::new((3 * d + g + 1) as nat, |i: int| None::<u64>));
            g = g + 1;
        }
        d = d + 1;
    }
    graph
}

/// Links of value 1 carry no more through a node than there are links.
proof fn lemma_unit_flow_bound(links: Seq<Link>, node: int)
    requires
        forall|j: int| 0 <= j < links.len() ==> (#[trigger] links[j]).value == 1,
    ensures
        inflow(links, node) <= links.len(),
        outflow(links, node) <= links.len(),
    decreases links.len(),
{
    if links.len() > 0 {
        assert forall|j: int| 0 <= j < links.drop_last().len() implies (
        #[trigger] links.drop_last()[j]).value == 1 by {
            assert(links.drop_last()[j] == links[j]);
        }
        lemma_unit_flow_bound(links.drop_last(), node);
        assert(links.last() == links[links.len() - 1]);
    }
}

/// Builds the study graph from the rows of the dose table.
///
/// The rows are grouped by subject and ordered by dose; rows of equal
/// subject and dose keep their order. Each two neighbouring rows of one
/// subject give an edge of value 1 between their nodes. The first number
/// met that names no dose or grade, going through the pairs source first
/// and dose first, ends the run with that number as the error.
pub fn create_crs_graph(records: &Vec<AeDoseCsvRecord>) -> (r: Result<
    FlowGraph<DosageEvent, i32>,
    EnumIntConversionError,
>)
    requires
        doses_follow(rows_by_subject(records@)),
    ensures
        (match study_links(rows_by_subject(records@)) {
            Ok(links) => r matches Ok(graph) && {
                &&& graph.wf()
                &&& graph@.links == links
                &&& graph@.fixed == Seq::new(12, |i: int| None::<u64>)
                &&& forall|i: int|
                    0 <= i < 12 ==> (#[trigger] graph.node_spec(i)).payload == event_at(i)
                &&& forall|j: int|
                    0 <= j < links.len() ==> (#[trigger] graph.edge_spec(j)).payload == 1
            },
            Err(e) => r == Err::<FlowGraph<DosageEvent, i32>, EnumIntConversionError>(e),
        }),
{
    let rows = read_rows(records);
    let sorted = stable_sort(&rows);
    let mut graph = study_nodes();
    let pairs: usize = if sorted.len() == 0 {
        0
    } else {
        sorted.len() - 1
    };
    let mut i: usize = 0;
    assert(graph@.links =~= Seq::<Link>::empty());
    while i < pairs
        invariant
            sorted@ == rows_by_subject(records@),
            pairs == sorted.len() - 1 || (pairs == 0 && sorted.len() == 0),
            i <= pairs,
            graph.wf(),
            graph@.fixed == Seq::new(12, |k: int| None::<u64>),
            forall|k: int| 0 <= k < 12 ==> (#[trigger] graph.node_spec(k)).payload == event_at(k),
            links_of_pairs(sorted@, i as int) == Ok::<Seq<Link>, EnumIntConversionError>(
                graph@.links,
            ),
            graph@.links.len() <= i,
            forall|j: int| 0 <= j < graph@.links.len() ==> (#[trigger] graph@.links[j]).value == 1,
            forall|j: int|
                0 <= j < graph@.links.len() ==> (#[trigger] graph.edge_spec(j)).payload == 1,
        decreases sorted.len() - i,
    {
        if sorted[i].subject_id == sorted[i + 1].subject_id {
            let source = match node_of_row(&sorted[i]) {
                Ok(node) => node,
                Err(e) => {
                    proof {
                        lemma_links_stay_failed(sorted@, i + 1, sorted.len() - 1);
                    }
                    return Err(e);
                },
            };
            let target = match node_of_row(&sorted[i + 1]) {
                Ok(node) => node,
                Err(e) => {
                    proof {
                        lemma_links_stay_failed(sorted@, i + 1, sorted.len() - 1);
                    }
                    return Err(e);
                },
            };
            proof {
                lemma_unit_flow_bound(graph@.links, source as int);
                lemma_unit_flow_bound(graph@.links, target as int);
            }
            let ghost before = graph;
            let added = graph.add_edge(source, target, 1, 1);
            assert(added is Ok);
            assert forall|j: int| 0 <= j < graph@.links.len() implies (#[trigger] graph.edge_spec(
                j,
            )).payload == 1 by {
                if j < before@.links.len() {
                    assert(before.edge_spec(j).payload == 1);
                }
            }
            assert forall|k: int| 0 <= k < 12 implies (#[trigger] graph.node_spec(k)).payload
                == event_at(k) by {
                assert(before.node_spec(k).payload == event_at(k));
            }
        }
        i = i + 1;
    }
    Ok(graph)
}

/// Once a number cannot be converted, going on changes nothing.
proof fn lemma_links_stay_failed(rows: Seq<DoseRow>, from: int, to: int)
    requires
        0 <= from <= to,
        links_of_pairs(rows, from) is Err,
    ensures
        links_of_pairs(rows, to) == links_of_pairs(rows, from),
    decreases to - from,
{
    if from < to {
        lemma_links_stay_failed(rows, from, to - 1);
    }
}

} // verus!
