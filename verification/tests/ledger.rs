use jsonc_fmt::ledger::{CommentLedger, CommentRange};

fn range(start: usize, end: usize) -> CommentRange {
    CommentRange { start, end }
}

fn ledger() -> CommentLedger {
    CommentLedger::from_ranges(&vec![30..35, 10..14, 20..22])
}

#[test]
fn ledger_orders_its_comments() {
    let ledger = ledger();
    assert_eq!(ledger.len(), 3);
    assert!(!ledger.is_empty());
    assert_eq!(ledger.earliest_before(usize::MAX), Some(range(10, 14)));
    assert_eq!(ledger.nearest_before(usize::MAX), Some(range(30, 35)));
    assert_eq!(ledger.within(15, 40), Some(range(20, 22)));
}

#[test]
fn nearest_before_takes_the_greatest_start_below() {
    let ledger = ledger();
    assert_eq!(ledger.nearest_before(10), None);
    assert_eq!(ledger.nearest_before(11), Some(range(10, 14)));
    assert_eq!(ledger.nearest_before(20), Some(range(10, 14)));
    assert_eq!(ledger.nearest_before(21), Some(range(20, 22)));
    assert_eq!(ledger.nearest_before(100), Some(range(30, 35)));
    assert_eq!(ledger.nearest_before(0), None);
}

#[test]
fn earliest_before_takes_the_least_start() {
    let ledger = ledger();
    assert_eq!(ledger.earliest_before(10), None);
    assert_eq!(ledger.earliest_before(11), Some(range(10, 14)));
    assert_eq!(ledger.earliest_before(100), Some(range(10, 14)));
    assert_eq!(CommentLedger::new().earliest_before(100), None);
}

#[test]
fn within_takes_the_least_start_of_the_range() {
    let ledger = ledger();
    assert_eq!(ledger.within(0, 10), None);
    assert_eq!(ledger.within(0, 11), Some(range(10, 14)));
    assert_eq!(ledger.within(10, 11), Some(range(10, 14)));
    assert_eq!(ledger.within(11, 20), None);
    assert_eq!(ledger.within(11, 31), Some(range(20, 22)));
    assert_eq!(ledger.within(31, 100), None);
    assert_eq!(ledger.within(25, 5), None);
}

#[test]
fn remove_takes_one_comment_out() {
    let mut ledger = ledger();
    ledger.remove(20);
    assert_eq!(ledger.len(), 2);
    assert_eq!(ledger.within(15, 40), Some(range(30, 35)));
    assert_eq!(ledger.nearest_before(30), Some(range(10, 14)));
}

#[test]
fn remove_twice_is_the_same_as_once() {
    let mut ledger = ledger();
    ledger.remove(10);
    ledger.remove(10);
    assert_eq!(ledger.len(), 2);
    assert_eq!(ledger.earliest_before(100), Some(range(20, 22)));
    ledger.remove(11);
    ledger.remove(0);
    assert_eq!(ledger.len(), 2);
}

#[test]
fn insert_replaces_a_comment_with_the_same_start() {
    let mut ledger = ledger();
    ledger.insert(range(20, 29));
    assert_eq!(ledger.len(), 3);
    assert_eq!(ledger.within(20, 21), Some(range(20, 29)));
    ledger.insert(range(5, 6));
    assert_eq!(ledger.len(), 4);
    assert_eq!(ledger.earliest_before(100), Some(range(5, 6)));
    let later = CommentLedger::from_ranges(&vec![3..4, 3..9]);
    assert_eq!(later.len(), 1);
    assert_eq!(later.earliest_before(10), Some(range(3, 9)));
}

#[test]
fn clear_empties_the_ledger() {
    let mut ledger = ledger();
    ledger.clear();
    assert!(ledger.is_empty());
    assert_eq!(ledger.nearest_before(100), None);
}

#[test]
fn well_placed_comments_do_not_overlap_and_lie_in_the_text() {
    assert!(ledger().is_well_placed(35));
    assert!(!ledger().is_well_placed(34));
    assert!(CommentLedger::new().is_well_placed(0));
    assert!(!CommentLedger::from_ranges(&vec![1..5, 4..8]).is_well_placed(10));
    assert!(CommentLedger::from_ranges(&vec![1..5, 5..8]).is_well_placed(10));
    assert!(!CommentLedger::from_ranges(&vec![3..3]).is_well_placed(10));
    assert!(!CommentLedger::from_ranges(&vec![5..2]).is_well_placed(10));
}
