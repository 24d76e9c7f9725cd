use stacktoken::voids::IndexVoid;
use stacktoken::voids::Void;

#[test]
fn no_gaps_leave_every_index_alone() {
    let index = IndexVoid::new();
    assert_eq!(index.del_gap(), 0);
    assert_eq!(index.real_index(0), 0);
    assert_eq!(index.real_index(17), 17);
}

#[test]
fn a_gap_moves_the_indexes_at_and_above_its_start() {
    let mut index = IndexVoid::new();
    index.insert(Void::from(3..6));
    assert_eq!(index.del_gap(), 3);
    assert_eq!(index.real_index(0), 0);
    assert_eq!(index.real_index(2), 2);
    assert_eq!(index.real_index(3), 6);
    assert_eq!(index.real_index(4), 7);
    assert_eq!(index.real_index(10), 13);
}

#[test]
fn gaps_are_applied_in_the_order_of_their_recording() {
    let mut index = IndexVoid::new();
    index.insert(Void::from(2..4));
    index.insert(Void::from(6..7));
    assert_eq!(index.del_gap(), 3);
    assert_eq!(index.real_index(1), 1);
    assert_eq!(index.real_index(2), 4);
    assert_eq!(index.real_index(3), 5);
    assert_eq!(index.real_index(4), 7);
    assert_eq!(index.real_index(5), 8);
    let mut reversed = IndexVoid::new();
    reversed.insert(Void::from(6..7));
    reversed.insert(Void::from(2..4));
    assert_eq!(reversed.real_index(4), 6);
    assert_eq!(reversed.real_index(6), 9);
}

#[test]
fn an_empty_gap_moves_nothing() {
    let mut index = IndexVoid::new();
    index.insert(Void::from(5..5));
    assert_eq!(index.del_gap(), 0);
    assert_eq!(index.real_index(4), 4);
    assert_eq!(index.real_index(5), 5);
    assert_eq!(index.real_index(9), 9);
}

#[test]
fn clear_forgets_the_gaps() {
    let mut index = IndexVoid::new();
    index.insert(Void::from(0..4));
    index.insert(Void::from(8..9));
    assert_eq!(index.del_gap(), 5);
    assert_eq!(index.real_index(0), 4);
    index.clear();
    assert_eq!(index.del_gap(), 0);
    assert_eq!(index.real_index(0), 0);
    assert_eq!(index.real_index(8), 8);
}
