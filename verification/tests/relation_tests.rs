use contextdb::narrowing::{intersect, narrow, relation_candidates};
use contextdb::{RelationFilter, RelationIndex};

fn sorted(mut ids: Vec<u128>) -> Vec<u128> {
    ids.sort();
    ids
}

const A: u128 = 1;
const B: u128 = 2;
const C: u128 = 3;
const D: u128 = 4;

fn chain() -> RelationIndex {
    RelationIndex::build(vec![(A, B), (B, C)])
}

#[test]
fn test_within_distance_two_hops_along_a_chain() {
    let index = chain();
    assert_eq!(sorted(index.within_distance(A, 2)), vec![B, C]);
}

#[test]
fn test_within_distance_one_hop() {
    let index = chain();
    assert_eq!(sorted(index.within_distance(A, 1)), vec![B]);
    assert_eq!(sorted(index.within_distance(B, 1)), vec![A, C]);
}

#[test]
fn test_within_distance_zero_hops_is_empty() {
    let index = chain();
    assert!(index.within_distance(A, 0).is_empty());
    assert!(index.within_distance(D, 0).is_empty());
    assert!(RelationIndex::build(vec![]).within_distance(A, 0).is_empty());
}

#[test]
fn test_within_distance_follows_edges_backwards() {
    let index = chain();
    assert_eq!(sorted(index.within_distance(C, 2)), vec![A, B]);
}

#[test]
fn test_within_distance_excludes_origin_on_a_cycle() {
    let index = RelationIndex::build(vec![(A, B), (B, C), (C, A), (A, A)]);
    assert_eq!(sorted(index.within_distance(A, 5)), vec![B, C]);
}

#[test]
fn test_within_distance_many_hops_stops_when_nothing_is_new() {
    let index = chain();
    assert_eq!(sorted(index.within_distance(A, usize::MAX)), vec![B, C]);
}

#[test]
fn test_within_distance_unknown_origin() {
    let index = chain();
    assert!(index.within_distance(D, 3).is_empty());
}

#[test]
fn test_direct_reads_edges_in_both_directions() {
    let index = chain();
    assert_eq!(sorted(index.direct(B)), vec![A, C]);
    assert_eq!(sorted(index.direct(A)), vec![B]);
    assert_eq!(sorted(index.direct(C)), vec![B]);
    assert!(index.direct(D).is_empty());
}

#[test]
fn test_direct_lists_each_neighbour_once() {
    let index = RelationIndex::build(vec![(A, B), (B, A), (A, B)]);
    assert_eq!(index.direct(A), vec![B]);
}

#[test]
fn test_has_relations() {
    let index = chain();
    assert!(index.has_relations(A));
    assert!(index.has_relations(B));
    assert!(index.has_relations(C));
    assert!(!index.has_relations(D));
    assert!(!RelationIndex::build(vec![]).has_relations(A));
}

#[test]
fn test_dangling_edges_are_kept() {
    let index = RelationIndex::build(vec![(A, 99)]);
    assert!(index.has_relations(99));
    assert_eq!(index.direct(A), vec![99]);
}

#[test]
fn test_relation_candidates_part_the_universe() {
    let index = chain();
    let universe = vec![A, B, C, D];
    let with = relation_candidates(&index, &RelationFilter::HasRelations, &universe);
    let without = relation_candidates(&index, &RelationFilter::NoRelations, &universe);

    assert_eq!(sorted(with.clone()), vec![A, B, C]);
    assert_eq!(without, vec![D]);
    let mut both = with;
    both.extend(without);
    assert_eq!(sorted(both), universe);
}

#[test]
fn test_relation_candidates_by_filter() {
    let index = chain();
    let universe = vec![A, B, C, D];
    assert_eq!(
        sorted(relation_candidates(&index, &RelationFilter::DirectlyRelatedTo(B), &universe)),
        vec![A, C]
    );
    assert_eq!(
        sorted(relation_candidates(
            &index,
            &RelationFilter::WithinDistance { from: A, max_hops: 2 },
            &universe
        )),
        vec![B, C]
    );
    assert!(relation_candidates(
        &index,
        &RelationFilter::WithinDistance { from: A, max_hops: 0 },
        &universe
    )
    .is_empty());
}

#[test]
fn test_intersect_and_narrow() {
    assert_eq!(intersect(&vec![A, B, C], &vec![C, A, D]), vec![A, C]);
    assert!(intersect(&vec![A], &vec![]).is_empty());
    assert_eq!(narrow(None, vec![B, A]), vec![B, A]);
    assert_eq!(narrow(Some(vec![A, B, C]), vec![C, D]), vec![C]);
    assert!(narrow(Some(vec![]), vec![A]).is_empty());
}

#[test]
fn test_within_distance_is_mutual() {
    let index = RelationIndex::build(vec![(A, B), (B, C), (D, 5), (5, 6), (6, D), (7, 7)]);
    let nodes = [A, B, C, D, 5, 6, 7, 8];
    for hops in 0..4 {
        for a in nodes {
            for b in nodes {
                if a != b {
                    assert_eq!(
                        index.within_distance(a, hops).contains(&b),
                        index.within_distance(b, hops).contains(&a),
                        "{} {} {}",
                        a,
                        b,
                        hops
                    );
                }
            }
        }
    }
}

#[test]
fn test_relation_candidates_leave_out_ids_outside_the_universe() {
    let index = RelationIndex::build(vec![(A, B), (B, 99)]);
    let universe = vec![A, B, D, A];
    assert_eq!(relation_candidates(&index, &RelationFilter::HasRelations, &universe), vec![A, B]);
    assert_eq!(relation_candidates(&index, &RelationFilter::NoRelations, &universe), vec![D]);
    assert_eq!(
        sorted(relation_candidates(&index, &RelationFilter::DirectlyRelatedTo(B), &universe)),
        vec![A, 99]
    );
}

#[test]
fn test_walk_over_a_larger_graph() {
    let mut edges = Vec::new();
    for i in 0..200u128 {
        edges.push((i, i + 1));
        edges.push((i + 1, i));
    }
    let index = RelationIndex::build(edges);
    assert_eq!(index.within_distance(0, 3), vec![1, 2, 3]);
    assert_eq!(index.within_distance(100, 1).len(), 2);
    assert_eq!(index.within_distance(0, 500).len(), 200);
    assert_eq!(sorted(index.direct(50)), vec![49, 51]);
}
