use spreadsheet_engine::address::CellAddress;
use spreadsheet_engine::evaluation_queue::{EvaluationQueue, MAX_ADDITIONS};

fn addr(col: u32, row: u32) -> CellAddress {
    CellAddress::new(col, row)
}

#[test]
fn push_and_pop() {
    let mut queue = EvaluationQueue::new();
    queue.push(addr(0, 0));
    queue.push(addr(1, 0));
    assert_eq!(queue.pop(), Some(addr(1, 0)));
    assert_eq!(queue.pop(), Some(addr(0, 0)));
    assert_eq!(queue.pop(), None);
}

#[test]
fn duplicate_push_is_ignored() {
    let mut queue = EvaluationQueue::new();
    queue.push(addr(0, 0));
    queue.push(addr(0, 0));
    assert_eq!(queue.pop(), Some(addr(0, 0)));
    assert_eq!(queue.pop(), None);
}

#[test]
fn duplicate_does_not_increment_count() {
    let mut queue = EvaluationQueue::new();
    for _ in 0..MAX_ADDITIONS {
        queue.push(addr(0, 0));
        queue.pop();
    }
    queue.push(addr(0, 0));
    assert_eq!(queue.pop(), None);

    // A different address is unaffected
    queue.push(addr(1, 0));
    assert_eq!(queue.pop(), Some(addr(1, 0)));
}

#[test]
fn popped_item_can_be_repushed_within_limit() {
    let mut queue = EvaluationQueue::new();
    queue.push(addr(0, 0));
    queue.pop();
    queue.push(addr(0, 0));
    assert_eq!(queue.pop(), Some(addr(0, 0)));
}

#[test]
fn addition_limit_is_enforced() {
    let mut queue = EvaluationQueue::new();
    for _ in 0..MAX_ADDITIONS {
        queue.push(addr(0, 0));
        queue.pop();
    }
    queue.push(addr(0, 0));
    assert_eq!(queue.pop(), None);
}

#[test]
fn extend_deduplicates() {
    let mut queue = EvaluationQueue::new();
    queue.push(addr(0, 0));
    queue.extend(vec![addr(0, 0), addr(1, 0), addr(1, 0), addr(2, 0)]);
    assert_eq!(queue.pop(), Some(addr(2, 0)));
    assert_eq!(queue.pop(), Some(addr(1, 0)));
    assert_eq!(queue.pop(), Some(addr(0, 0)));
    assert_eq!(queue.pop(), None);
}

#[test]
fn from_iterator_deduplicates() {
    let mut queue = EvaluationQueue::from_iter(vec![addr(0, 0), addr(1, 0), addr(0, 0), addr(2, 0)]);
    assert_eq!(queue.pop(), Some(addr(2, 0)));
    assert_eq!(queue.pop(), Some(addr(1, 0)));
    assert_eq!(queue.pop(), Some(addr(0, 0)));
    assert_eq!(queue.pop(), None);
}

#[test]
fn duplicate_in_queue_keeps_its_place() {
    let mut queue = EvaluationQueue::new();
    queue.push(addr(0, 0));
    queue.push(addr(1, 0));
    queue.push(addr(0, 0));
    assert_eq!(queue.pop(), Some(addr(1, 0)));
    assert_eq!(queue.pop(), Some(addr(0, 0)));
    assert_eq!(queue.pop(), None);
}

#[test]
fn limit_counts_each_address_separately() {
    let mut queue = EvaluationQueue::new();
    for _ in 0..MAX_ADDITIONS - 1 {
        queue.push(addr(3, 4));
        queue.pop();
    }
    queue.push(addr(3, 4));
    assert_eq!(queue.pop(), Some(addr(3, 4)));
    queue.push(addr(3, 4));
    assert_eq!(queue.pop(), None);
    queue.push(addr(4, 3));
    assert_eq!(queue.pop(), Some(addr(4, 3)));
}
