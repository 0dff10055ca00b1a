//! The cost governor: reserve, settle, release.

use nexus::budget::{BudgetError, BudgetSnapshot, CostGovernor};

#[test]
fn reserve_settle_lifecycle() {
    let mut gov = CostGovernor::new(1000);
    gov.reserve("a", 400).unwrap();
    gov.reserve("b", 400).unwrap();

    // Third reservation exceeds what's left.
    let err = gov.reserve("c", 400).unwrap_err();
    assert_eq!(
        err,
        BudgetError::Exhausted {
            requested: 400,
            available: 200
        }
    );

    // a actually used less than reserved: the difference returns.
    gov.settle("a", 100).unwrap();
    gov.reserve("c", 400).unwrap();

    let snap = gov.snapshot();
    assert_eq!(snap.settled, 100);
    assert_eq!(snap.reserved, 800);
    assert_eq!(snap.available, 100);
}

#[test]
fn overspend_is_clamped_to_reservation() {
    let mut gov = CostGovernor::new(500);
    gov.reserve("a", 200).unwrap();
    gov.settle("a", 9999).unwrap();
    assert_eq!(gov.snapshot().settled, 200);
}

#[test]
fn release_returns_capacity() {
    let mut gov = CostGovernor::new(300);
    gov.reserve("a", 300).unwrap();
    assert!(gov.reserve("b", 1).is_err());
    gov.release("a");
    gov.reserve("b", 300).unwrap();
}

#[test]
fn settle_without_reservation_errors() {
    let mut gov = CostGovernor::new(100);
    assert!(matches!(
        gov.settle("ghost", 10),
        Err(BudgetError::NoReservation(_))
    ));
}

#[test]
fn messages_of_budget_errors() {
    let mut gov = CostGovernor::new(10);
    assert_eq!(
        gov.reserve("a", 25).unwrap_err().message(),
        "global budget exhausted: requested 25, available 10"
    );
    assert_eq!(
        gov.settle("ghost", 1).unwrap_err().message(),
        "no reservation found for task ghost"
    );
}

#[test]
fn settlement_closes_one_reservation_and_release_all() {
    let mut gov = CostGovernor::new(100);
    gov.reserve("a", 10).unwrap();
    gov.reserve("a", 20).unwrap();
    gov.reserve("b", 30).unwrap();
    gov.settle("a", 50).unwrap();
    assert_eq!(
        gov.snapshot(),
        BudgetSnapshot {
            global_budget: 100,
            settled: 10,
            reserved: 50,
            available: 40
        }
    );
    gov.reserve("a", 5).unwrap();
    gov.release("a");
    assert_eq!(gov.snapshot().reserved, 30);
    gov.settle("b", 0).unwrap();
    assert_eq!(gov.snapshot().available, 90);
}

#[test]
fn release_undoes_reserve_on_values() {
    let mut gov = CostGovernor::new(70);
    gov.reserve("b", 20).unwrap();
    let before = gov.snapshot();
    gov.reserve("a", 50).unwrap();
    gov.release("a");
    assert_eq!(gov.snapshot(), before);
    // Releasing what was never reserved changes nothing.
    gov.release("ghost");
    assert_eq!(gov.snapshot(), before);
}

#[test]
fn the_whole_budget_can_be_reserved() {
    let mut gov = CostGovernor::new(u64::MAX);
    gov.reserve("a", u64::MAX).unwrap();
    assert_eq!(
        gov.reserve("b", 1).unwrap_err(),
        BudgetError::Exhausted {
            requested: 1,
            available: 0
        }
    );
    gov.reserve("c", 0).unwrap();
    gov.settle("a", u64::MAX).unwrap();
    assert_eq!(gov.snapshot().settled, u64::MAX);
    assert_eq!(BudgetSnapshot::default().available, 0);
}
