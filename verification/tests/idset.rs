use segmented_changelog::id::Id;
use segmented_changelog::iddag::FlatSegment;
use segmented_changelog::iddag::IdDag;
use segmented_changelog::segment::Span;

const N0: u64 = 1 << 56;

fn flat(low: u64, high: u64, parents: &[u64]) -> FlatSegment {
    FlatSegment {
        low: Id(low),
        high: Id(high),
        parents: parents.iter().map(|p| Id(*p)).collect(),
    }
}

fn span(low: u64, high: u64) -> Span {
    Span { low: Id(low), high: Id(high) }
}

/// 0-3, 4-6 on 1, 7-9 on 3 and 6, 10 on 3; two non-master segments on 9 and on 5.
fn graph() -> IdDag {
    IdDag::from_flat_segments(&vec![
        flat(0, 3, &[]),
        flat(4, 6, &[1]),
        flat(7, 9, &[3, 6]),
        flat(10, 10, &[3]),
        flat(N0, N0 + 2, &[9]),
        flat(N0 + 3, N0 + 3, &[5, N0 + 1]),
    ])
    .unwrap()
}

#[test]
fn a_set_of_ids_is_cut_along_the_segments() {
    let dag = graph();
    let pieces = dag.idset_to_flat_segments(&vec![span(2, 5), span(9, N0)]);
    assert_eq!(
        pieces,
        vec![
            flat(2, 3, &[1]),
            flat(4, 5, &[1]),
            flat(9, 9, &[8]),
            flat(10, 10, &[3]),
            flat(N0, N0, &[9]),
        ]
    );
}

#[test]
fn whole_segments_keep_their_parents() {
    let dag = graph();
    let pieces = dag.idset_to_flat_segments(&vec![span(0, N0 + 3)]);
    assert_eq!(
        pieces,
        vec![
            flat(0, 3, &[]),
            flat(4, 6, &[1]),
            flat(7, 9, &[3, 6]),
            flat(10, 10, &[3]),
            flat(N0, N0 + 2, &[9]),
            flat(N0 + 3, N0 + 3, &[5, N0 + 1]),
        ]
    );
}

#[test]
fn ids_that_the_graph_lacks_are_left_out() {
    let dag = graph();
    assert!(dag.idset_to_flat_segments(&Vec::new()).is_empty());
    assert!(dag.idset_to_flat_segments(&vec![span(11, 40)]).is_empty());
    assert!(dag.idset_to_flat_segments(&vec![span(5, 4)]).is_empty());
    assert_eq!(dag.idset_to_flat_segments(&vec![span(10, 40)]), vec![flat(10, 10, &[3])]);
    assert!(IdDag::new().idset_to_flat_segments(&vec![span(0, 9)]).is_empty());
}

#[test]
fn the_ancestors_of_an_id_are_cut_into_their_segments() {
    let dag = graph();
    let spans = dag.ancestors(&[Id(5)]);
    assert_eq!(spans, vec![span(0, 1), span(4, 5)]);
    assert_eq!(dag.idset_to_flat_segments(&spans), vec![flat(0, 1, &[]), flat(4, 5, &[1])]);
    let spans = dag.ancestors(&[Id(N0 + 3)]);
    assert_eq!(
        dag.idset_to_flat_segments(&spans),
        vec![
            flat(0, 3, &[]),
            flat(4, 6, &[1]),
            flat(7, 9, &[3, 6]),
            flat(N0, N0 + 1, &[9]),
            flat(N0 + 3, N0 + 3, &[5, N0 + 1]),
        ]
    );
}

#[test]
fn two_runs_in_one_segment_give_two_pieces() {
    let dag = graph();
    let pieces = dag.idset_to_flat_segments(&vec![span(0, 0), span(2, 2), span(8, 8)]);
    assert_eq!(pieces, vec![flat(0, 0, &[]), flat(2, 2, &[1]), flat(8, 8, &[7])]);
}

#[test]
fn the_last_common_ancestor_is_found() {
    let dag = graph();
    assert_eq!(dag.common_ancestor(Id(6), Id(9)), Some(Id(6)));
    assert_eq!(dag.common_ancestor(Id(9), Id(6)), Some(Id(6)));
    assert_eq!(dag.common_ancestor(Id(6), Id(10)), Some(Id(1)));
    assert_eq!(dag.common_ancestor(Id(3), Id(6)), Some(Id(1)));
    assert_eq!(dag.common_ancestor(Id(5), Id(5)), Some(Id(5)));
    assert_eq!(dag.common_ancestor(Id(N0 + 3), Id(10)), Some(Id(3)));
    assert_eq!(dag.common_ancestor(Id(N0 + 3), Id(N0 + 2)), Some(Id(N0 + 1)));
    assert_eq!(dag.common_ancestor(Id(0), Id(N0 + 3)), Some(Id(0)));
}

#[test]
fn ids_without_a_common_ancestor_have_none() {
    let dag = IdDag::from_flat_segments(&vec![flat(0, 1, &[]), flat(2, 3, &[]), flat(4, 4, &[3])])
        .unwrap();
    assert_eq!(dag.common_ancestor(Id(1), Id(3)), None);
    assert_eq!(dag.common_ancestor(Id(1), Id(4)), None);
    assert_eq!(dag.common_ancestor(Id(2), Id(4)), Some(Id(2)));
    assert_eq!(dag.common_ancestor(Id(1), Id(40)), None);
    assert_eq!(dag.common_ancestor(Id(40), Id(40)), None);
    assert_eq!(IdDag::new().common_ancestor(Id(0), Id(0)), None);
}

#[test]
fn the_descendants_of_ids_are_found() {
    let dag = graph();
    assert_eq!(
        dag.descendants(&[Id(1)]),
        vec![
            span(1, 3),
            span(4, 6),
            span(7, 9),
            span(10, 10),
            span(N0, N0 + 2),
            span(N0 + 3, N0 + 3),
        ]
    );
    assert_eq!(
        dag.descendants(&[Id(5)]),
        vec![span(5, 6), span(7, 9), span(N0, N0 + 2), span(N0 + 3, N0 + 3)]
    );
    assert_eq!(dag.descendants(&[Id(10)]), vec![span(10, 10)]);
    assert_eq!(dag.descendants(&[Id(N0 + 1)]), vec![span(N0 + 1, N0 + 2), span(N0 + 3, N0 + 3)]);
    assert_eq!(
        dag.descendants(&[Id(8), Id(2)]),
        vec![span(2, 3), span(7, 9), span(10, 10), span(N0, N0 + 2), span(N0 + 3, N0 + 3)]
    );
    assert!(dag.descendants(&[]).is_empty());
    assert!(dag.descendants(&[Id(40)]).is_empty());
    assert!(IdDag::new().descendants(&[Id(0)]).is_empty());
}

#[test]
fn descendants_and_ancestors_agree() {
    let dag = graph();
    let all: Vec<u64> = (0..11).chain(N0..N0 + 4).collect();
    for a in &all {
        let below = dag.descendants(&[Id(*a)]);
        for d in &all {
            let held = below.iter().any(|s| s.low.0 <= *d && *d <= s.high.0);
            assert_eq!(held, dag.is_ancestor(Id(*a), Id(*d)));
        }
    }
}

#[test]
fn the_common_ancestor_is_an_ancestor_of_both() {
    let dag = graph();
    let all: Vec<u64> = (0..11).chain(N0..N0 + 4).collect();
    for a in &all {
        for b in &all {
            let common: Vec<u64> = all
                .iter()
                .copied()
                .filter(|x| dag.is_ancestor(Id(*x), Id(*a)) && dag.is_ancestor(Id(*x), Id(*b)))
                .collect();
            assert_eq!(dag.common_ancestor(Id(*a), Id(*b)), common.last().map(|x| Id(*x)));
        }
    }
}
