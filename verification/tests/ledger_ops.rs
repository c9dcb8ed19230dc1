//! The mutation operations: declare, bind, enact, set_time, update.
use justact_ledger::Ledger;
use justact_ledger::LedgerError;
use justact_ledger::UpdateCmd;
use justact_ledger::UpdateOutcome;

#[test]
fn declare_always_appends() {
    let mut l = Ledger::new();
    assert_eq!(l.declare("alice".to_string(), "hello".to_string()), 0);
    assert_eq!(l.declare("alice".to_string(), "hello".to_string()), 1);
    assert_eq!(l.declare("bob".to_string(), "world".to_string()), 2);
    assert_eq!(l.statements.len(), 3);
    assert_eq!(l.statements[0].author, "alice");
    assert_eq!(l.statements[0].index, 0);
    assert_eq!(l.statements[0].payload, "hello");
    assert_eq!(l.statements[2].author, "bob");
    assert_eq!(l.statements[2].index, 2);
}

#[test]
fn bind_success_and_contents() {
    let mut l = Ledger::new();
    l.declare("alice".to_string(), "hello".to_string());
    assert_eq!(l.bind(0, 10), Ok(0));
    assert_eq!(l.agreements.len(), 1);
    assert_eq!(l.agreements[0].at, 10);
    assert_eq!(l.agreements[0].stmt, 0);
    assert_eq!(l.bind(0, 7), Ok(1));
    assert_eq!(l.agreements.len(), 2);
}

#[test]
fn bind_unknown_statement_changes_nothing() {
    let mut l = Ledger::new();
    assert_eq!(l.bind(0, 10), Err(LedgerError::UnknownStatement(0)));
    assert_eq!(l.agreements.len(), 0);
    l.declare("alice".to_string(), "hello".to_string());
    assert_eq!(l.bind(3, 10), Err(LedgerError::UnknownStatement(3)));
    assert_eq!(l.agreements.len(), 0);
    assert_eq!(l.statements.len(), 1);
}

#[test]
fn enact_success_allocates_labels() {
    let mut l = Ledger::new();
    l.declare("alice".to_string(), "hello".to_string());
    l.declare("bob".to_string(), "world".to_string());
    l.bind(0, 10).unwrap();
    assert_eq!(l.enact("carol".to_string(), 0, vec![0]), Ok(0));
    assert_eq!(l.enact("carol".to_string(), 0, vec![0, 1]), Ok(1));
    assert_eq!(l.actions.len(), 2);
    assert_eq!(l.actions[0].actor, "carol");
    assert_eq!(l.actions[0].label, 0);
    assert_eq!(l.actions[0].basis, 0);
    assert_eq!(l.actions[0].justification, vec![0]);
    assert_eq!(l.actions[1].label, 1);
}

#[test]
fn enact_normalizes_justification() {
    let mut l = Ledger::new();
    for _ in 0..4 {
        l.declare("a".to_string(), "p".to_string());
    }
    l.bind(0, 1).unwrap();
    assert_eq!(l.enact("x".to_string(), 0, vec![2, 0, 1, 1, 2]), Ok(0));
    assert_eq!(l.actions[0].justification, vec![0, 1, 2]);
}

#[test]
fn enact_empty_justification_is_permitted() {
    let mut l = Ledger::new();
    l.declare("a".to_string(), "p".to_string());
    l.bind(0, 1).unwrap();
    assert_eq!(l.enact("x".to_string(), 0, vec![]), Ok(0));
    assert_eq!(l.actions[0].justification, Vec::<usize>::new());
}

#[test]
fn enact_basis_unknown_changes_nothing() {
    let mut l = Ledger::new();
    l.declare("alice".to_string(), "hello".to_string());
    assert_eq!(
        l.enact("carol".to_string(), 0, vec![0]),
        Err(LedgerError::BasisUnknown(0))
    );
    assert_eq!(l.actions.len(), 0);
    l.bind(0, 10).unwrap();
    assert_eq!(
        l.enact("carol".to_string(), 5, vec![0]),
        Err(LedgerError::BasisUnknown(5))
    );
    assert_eq!(l.actions.len(), 0);
}

#[test]
fn enact_reports_smallest_unknown_justification() {
    let mut l = Ledger::new();
    l.declare("alice".to_string(), "hello".to_string());
    l.declare("bob".to_string(), "world".to_string());
    l.bind(0, 10).unwrap();
    assert_eq!(
        l.enact("carol".to_string(), 0, vec![7, 5]),
        Err(LedgerError::JustificationUnknown(5))
    );
    assert_eq!(l.actions.len(), 0);
    assert_eq!(
        l.enact("carol".to_string(), 0, vec![0, 9, 3, 1]),
        Err(LedgerError::JustificationUnknown(3))
    );
    assert_eq!(l.actions.len(), 0);
}

#[test]
fn set_time_overwrites_even_backward() {
    let mut l = Ledger::new();
    l.set_time(10);
    assert_eq!(l.current, 10);
    l.set_time(3);
    assert_eq!(l.current, 3);
}

#[test]
fn update_dispatches_all_four_operations() {
    let mut l = Ledger::new();
    assert_eq!(
        l.update(UpdateCmd::Say { sayer: "alice".to_string(), payload: "hello".to_string() }),
        Ok(UpdateOutcome::NewStatement(0))
    );
    assert_eq!(
        l.update(UpdateCmd::Agree { on_idx: 0, at: 10 }),
        Ok(UpdateOutcome::NewAgreement(0))
    );
    assert_eq!(l.update(UpdateCmd::Now { now: 10 }), Ok(UpdateOutcome::TimeSet));
    assert_eq!(
        l.update(UpdateCmd::Enact { actor: "carol".to_string(), basis: 0, justification: vec![0] }),
        Ok(UpdateOutcome::NewAction(0))
    );
    assert_eq!(
        l.update(UpdateCmd::Agree { on_idx: 9, at: 0 }),
        Err(LedgerError::UnknownStatement(9))
    );
}

#[test]
fn end_to_end_session() {
    let mut l = Ledger::new();
    assert_eq!(l.declare("alice".to_string(), "hello".to_string()), 0);
    assert_eq!(l.declare("bob".to_string(), "world".to_string()), 1);
    assert_eq!(l.bind(0, 10), Ok(0));
    assert_eq!(l.agreements[0].at, 10);
    assert_eq!(l.agreements[0].stmt, 0);
    l.set_time(10);
    assert_eq!(l.enact("carol".to_string(), 0, vec![0]), Ok(0));
    assert_eq!(l.actions[0].actor, "carol");
    assert_eq!(l.actions[0].label, 0);
    assert_eq!(l.actions[0].basis, 0);
    assert_eq!(l.actions[0].justification, vec![0]);
    let lines = l.serialize();
    assert_eq!(lines.len(), 5);
    // The state from the session above, once more: bind past the end
    // fails and leaves the single agreement alone.
    assert_eq!(l.bind(5, 0), Err(LedgerError::UnknownStatement(5)));
    assert_eq!(l.agreements.len(), 1);
}
