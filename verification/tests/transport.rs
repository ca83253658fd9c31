use moor::transport::{SendBudget, SendError};

#[test]
fn writes_are_charged_overhead_and_payload_within_limits() {
    let mut budget = SendBudget::new(100, 1000);
    assert_eq!(budget.charge(30, 20), Ok(Some((10, 20))));
    assert_eq!(budget.pending(), 30);
    assert_eq!(budget.charge(0, 0), Ok(None));
    assert_eq!(budget.charge(5, 6), Err(SendError::Full));
    assert_eq!(budget.charge(95, 0), Err(SendError::Full));
    assert_eq!(budget.charge(990, 981), Err(SendError::Full));
    assert_eq!(budget.charge(90, 0), Ok(Some((90, 0))));
    assert_eq!(budget.pending(), 120);
}

#[test]
fn finished_writes_give_their_charge_back_in_order() {
    let mut budget = SendBudget::new(100, 1000);
    let first = budget.charge(30, 20).unwrap().unwrap();
    let second = budget.charge(40, 0).unwrap().unwrap();
    budget.written(first);
    assert_eq!(budget.pending(), 40);
    budget.written(second);
    assert_eq!(budget.pending(), 0);
}

#[test]
fn a_closed_connection_holds_nothing_and_refuses_writes() {
    let mut budget = SendBudget::new(100, 1000);
    budget.charge(30, 20).unwrap();
    budget.close();
    assert_eq!(budget.pending(), 0);
    assert_eq!(budget.charge(1, 0), Err(SendError::Closed));
    budget.written((10, 20));
    assert_eq!(budget.pending(), 0);
}
