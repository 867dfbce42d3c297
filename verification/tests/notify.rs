use crystald::notify::{notify_all, Notification, Readiness};

#[test]
fn notify_all_appends_in_order() {
    let mut outbox = vec![Notification { readiness: Readiness::Read, target: 9, length: 1 }];
    notify_all(&mut outbox, &[3, 1, 2], Readiness::Write, 64);
    assert_eq!(
        outbox,
        vec![
            Notification { readiness: Readiness::Read, target: 9, length: 1 },
            Notification { readiness: Readiness::Write, target: 3, length: 64 },
            Notification { readiness: Readiness::Write, target: 1, length: 64 },
            Notification { readiness: Readiness::Write, target: 2, length: 64 },
        ]
    );
}

#[test]
fn notify_all_of_nobody_sends_nothing() {
    let mut outbox = Vec::new();
    notify_all(&mut outbox, &[], Readiness::Read, 64);
    assert!(outbox.is_empty());
}
