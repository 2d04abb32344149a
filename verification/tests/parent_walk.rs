use segmented_changelog::id::Group;
use segmented_changelog::idmap::mem_idmap::VertexName;
use segmented_changelog::on_demand::OnDemandUpdateSegmentedChangelog;
use segmented_changelog::update::GraphNode;
use segmented_changelog::update::OwnedSegmentedChangelog;
use segmented_changelog::walk::knows;
use segmented_changelog::walk::ParentWalk;
use segmented_changelog::walk::WalkAction;

fn v(name: &str) -> VertexName {
    VertexName::copy_from(name.as_bytes())
}

fn vs(names: &[&str]) -> Vec<VertexName> {
    names.iter().map(|n| v(n)).collect()
}

fn parents_of(graph: &[(&str, &[&str])], vertex: &VertexName) -> Vec<VertexName> {
    let name = String::from_utf8(vertex.0.clone()).unwrap();
    let (_, parents) = graph.iter().find(|(n, _)| *n == name).unwrap();
    vs(parents)
}

/// Walks from `head`, and tells the vertexes that were asked for and the batch.
fn walk(
    log: &OwnedSegmentedChangelog,
    graph: &[(&str, &[&str])],
    head: &str,
) -> (Vec<String>, Vec<GraphNode>) {
    let mut walk = ParentWalk::new(v(head));
    let mut asked = Vec::new();
    loop {
        match walk.step(log) {
            WalkAction::Finished => return (asked, walk.into_batch()),
            WalkAction::Fetch(vertex) => {
                asked.push(String::from_utf8(vertex.0.clone()).unwrap());
                walk.supply(parents_of(graph, &vertex));
            }
        }
    }
}

fn names(batch: &[GraphNode]) -> Vec<String> {
    batch
        .iter()
        .map(|n| String::from_utf8(n.vertex.0.clone()).unwrap())
        .collect()
}

const GRAPH: &[(&str, &[&str])] = &[
    ("A", &[]),
    ("B", &["A"]),
    ("C", &["A"]),
    ("M", &["B", "C"]),
    ("N", &["M", "B"]),
    ("O", &["N"]),
];

#[test]
fn a_walk_meets_every_vertex_after_its_parents() {
    let log = OwnedSegmentedChangelog::new(0);
    let (asked, batch) = walk(&log, GRAPH, "O");
    assert_eq!(asked, vec!["O", "N", "M", "B", "A", "C"]);
    assert_eq!(names(&batch), vec!["A", "B", "C", "M", "N", "O"]);
    assert_eq!(batch[3], GraphNode { vertex: v("M"), parents: vs(&["B", "C"]) });
    for (i, node) in batch.iter().enumerate() {
        for parent in &node.parents {
            assert!(batch[..i].iter().any(|n| n.vertex == *parent));
        }
    }
    // What the walk has found joins the changelog as it stands.
    let mut on_demand = OnDemandUpdateSegmentedChangelog::new(log);
    assert_eq!(on_demand.the_actual_update(0, &batch), Ok(6));
    assert_eq!(on_demand.is_ancestor(&v("C"), &v("O")), Some(true));
}

#[test]
fn a_walk_stops_at_vertexes_that_have_an_id() {
    let mut log = OwnedSegmentedChangelog::new(0);
    log.add_vertex(&v("A"), &[], Group::Master).unwrap();
    log.add_vertex(&v("B"), &vs(&["A"]), Group::Master).unwrap();
    let (asked, batch) = walk(&log, GRAPH, "N");
    assert_eq!(asked, vec!["N", "M", "C"]);
    assert_eq!(names(&batch), vec!["C", "M", "N"]);
    let (asked, batch) = walk(&log, GRAPH, "B");
    assert_eq!(asked, Vec::<String>::new());
    assert_eq!(names(&batch), Vec::<String>::new());
    let (asked, batch) = walk(&log, GRAPH, "C");
    assert_eq!(asked, vec!["C"]);
    assert_eq!(batch, vec![GraphNode { vertex: v("C"), parents: vs(&["A"]) }]);
}

#[test]
fn parents_that_were_not_asked_for_are_not_taken() {
    let log = OwnedSegmentedChangelog::new(0);
    let mut walk = ParentWalk::new(v("B"));
    assert_eq!(walk.step(&log), WalkAction::Fetch(v("B")));
    // Asking again changes nothing.
    assert_eq!(walk.step(&log), WalkAction::Fetch(v("B")));
    walk.supply(vs(&["A"]));
    // The parents of B are known: more of them are not taken.
    assert_eq!(walk.step(&log), WalkAction::Fetch(v("A")));
    walk.supply(vs(&[]));
    assert_eq!(walk.step(&log), WalkAction::Finished);
    walk.supply(vs(&["Z"]));
    assert_eq!(walk.step(&log), WalkAction::Finished);
    assert_eq!(
        walk.into_batch(),
        vec![
            GraphNode { vertex: v("A"), parents: vec![] },
            GraphNode { vertex: v("B"), parents: vs(&["A"]) },
        ]
    );
    assert!(knows(&vs(&["A", "B"]), &v("B")));
    assert!(!knows(&vs(&["A", "B"]), &v("C")));
    assert!(!knows(&vec![], &v("C")));
}
