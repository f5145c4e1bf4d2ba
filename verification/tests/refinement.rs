use game_rs::refinement::{BoundaryMap, Refinement};

#[test]
fn a_blank_map_has_no_boundaries() {
    let map = BoundaryMap::blank(3);
    assert_eq!(map.shape, vec![1, 3]);
    assert_eq!(map.data, vec![false, false, false]);
    assert_eq!(BoundaryMap::blank(0).data, Vec::<bool>::new());
}

#[test]
fn each_round_starts_from_the_last() {
    let mut refinement = Refinement::new(2, 2);
    assert_eq!(refinement.next_round(), Some(0));
    assert_eq!(refinement.boundaries.data, vec![false, false]);
    refinement.accept(BoundaryMap { shape: vec![1, 2], data: vec![true, false] });
    assert_eq!(refinement.next_round(), Some(1));
    assert_eq!(refinement.boundaries.data, vec![true, false]);
    refinement.accept(BoundaryMap { shape: vec![1, 2], data: vec![false, true] });
    assert_eq!(refinement.next_round(), None);
    assert_eq!(refinement.boundaries.data, vec![false, true]);
    assert_eq!(refinement.boundaries.shape, vec![1, 2]);
}

#[test]
fn without_rounds_there_are_no_boundaries() {
    let refinement = Refinement::new(0, 4);
    assert_eq!(refinement.next_round(), None);
    assert_eq!(refinement.boundaries.data, vec![false; 4]);
}
