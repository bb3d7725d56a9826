use luna::state::{
    Answer, BuildResult, Context, DependencyCheck, DependencyFailed, DependencyStatus, Key,
    KeyTypeId, Lookup, Rev, Status, Stored, UpdateError, Value,
};

fn old_record() -> Stored {
    Stored {
        built: Rev(3),
        changed: Rev(2),
        kty: KeyTypeId(7),
        failed: false,
        witness: vec![1, 2, 3],
        depends: vec![vec![Key(10), Key(11)], vec![Key(12)]],
    }
}

fn new_depends() -> Vec<Vec<Key>> {
    vec![vec![Key(20)]]
}

fn settle(result: BuildResult<&'static str, String>) -> (Result<Value<&'static str>, UpdateError<String>>, Option<Stored>) {
    luna::state::settle_build(Rev(5), old_record(), result)
}

#[test]
fn rev_orders_by_number() {
    assert!(Rev(1) < Rev(2));
    assert!(Rev(3) > Rev(2));
    assert!(!(Rev(2) > Rev(2)));
    assert_eq!(Rev(-4).partial_cmp(&Rev(9)), Some(std::cmp::Ordering::Less));
    assert_eq!(Rev(4).partial_cmp(&Rev(4)), Some(std::cmp::Ordering::Equal));
}

#[test]
fn dependency_failure_stores_nothing() {
    let (value, stored) = settle(BuildResult::DependencyFailed);
    assert!(matches!(value, Err(UpdateError::DependencyFailed(DependencyFailed))));
    assert!(stored.is_none());
}

#[test]
fn failed_build_keeps_old_record_and_marks_it() {
    let (value, stored) = settle(BuildResult::Completed(Err("boom".to_string())));
    match value {
        Err(UpdateError::Failed(e)) => assert_eq!(e, "boom"),
        _ => panic!("expected the builder's error"),
    }
    let s = stored.unwrap();
    assert!(s.failed);
    assert_eq!(s.built, Rev(3));
    assert_eq!(s.changed, Rev(2));
    assert_eq!(s.kty, KeyTypeId(7));
    assert_eq!(s.witness, vec![1, 2, 3]);
    assert_eq!(s.depends, old_record().depends);
}

#[test]
fn recomputed_different_changes_at_current_revision() {
    let (value, stored) = settle(BuildResult::Completed(Ok((
        Answer::RecomputedDifferent(vec![9]),
        "new",
        new_depends(),
    ))));
    let v = value.unwrap();
    assert_eq!(v.changed, Rev(5));
    assert_eq!(v.value, "new");
    let s = stored.unwrap();
    assert!(!s.failed);
    assert_eq!(s.built, Rev(5));
    assert_eq!(s.changed, Rev(5));
    assert_eq!(s.kty, KeyTypeId(7));
    assert_eq!(s.witness, vec![9]);
    assert_eq!(s.depends, new_depends());
}

#[test]
fn recomputed_same_keeps_changed_revision() {
    let (value, stored) =
        settle(BuildResult::Completed(Ok((Answer::RecomputedSame, "same", new_depends()))));
    let v = value.unwrap();
    assert_eq!(v.changed, Rev(2));
    let s = stored.unwrap();
    assert!(!s.failed);
    assert_eq!(s.built, Rev(5));
    assert_eq!(s.changed, Rev(2));
    assert_eq!(s.witness, vec![1, 2, 3]);
    assert_eq!(s.depends, new_depends());
}

#[test]
fn not_recomputed_keeps_old_dependencies() {
    let (value, stored) = settle(BuildResult::Completed(Ok((
        Answer::DidNotNeedToRecompute,
        "old",
        new_depends(),
    ))));
    let v = value.unwrap();
    assert_eq!(v.changed, Rev(2));
    assert_eq!(v.value, "old");
    let s = stored.unwrap();
    assert_eq!(s.built, Rev(5));
    assert_eq!(s.changed, Rev(2));
    assert_eq!(s.depends, old_record().depends);
    assert_eq!(s.kty, KeyTypeId(7));
}

#[test]
fn settled_value_agrees_with_record() {
    for answer in [Answer::RecomputedSame, Answer::DidNotNeedToRecompute, Answer::RecomputedDifferent(vec![])] {
        let (value, stored) = settle(BuildResult::Completed(Ok((answer, "t", vec![]))));
        assert_eq!(value.unwrap().changed, stored.unwrap().changed);
    }
}

#[test]
fn unchanged_dependencies_are_same() {
    let mut check = DependencyCheck::new(Rev(5));
    assert_eq!(check.observe(Ok(Rev(3))), None);
    assert_eq!(check.observe(Ok(Rev(5))), None);
    assert_eq!(check.status(), DependencyStatus::Same);
}

#[test]
fn newer_dependency_is_changed() {
    let mut check = DependencyCheck::new(Rev(5));
    assert_eq!(check.observe(Ok(Rev(1))), None);
    assert_eq!(check.observe(Ok(Rev(6))), Some(DependencyStatus::Changed));
    assert_eq!(check.status(), DependencyStatus::Changed);
}

#[test]
fn failed_dependency_is_failed() {
    let mut check = DependencyCheck::new(Rev(5));
    assert_eq!(check.observe(Err(())), Some(DependencyStatus::Failed));
    assert_eq!(check.status(), DependencyStatus::Failed);
}

#[test]
fn first_deciding_outcome_decides() {
    let mut check = DependencyCheck::new(Rev(0));
    assert_eq!(check.observe(Ok(Rev(1))), Some(DependencyStatus::Changed));
    assert_eq!(check.observe(Err(())), Some(DependencyStatus::Changed));
    assert_eq!(check.status(), DependencyStatus::Changed);
    let mut check = DependencyCheck::new(Rev(0));
    assert_eq!(check.observe(Err(())), Some(DependencyStatus::Failed));
    assert_eq!(check.observe(Ok(Rev(1))), Some(DependencyStatus::Failed));
    assert_eq!(check.status(), DependencyStatus::Failed);
}

#[test]
fn nothing_observed_is_same() {
    let check = DependencyCheck::new(Rev(0));
    assert_eq!(check.status(), DependencyStatus::Same);
}

#[test]
fn finished_status_hands_out_copies() {
    let ok: Status<(), u32, String> = Status::Finished(Ok(Value { changed: Rev(4), value: 17 }));
    let out = ok.outcome().unwrap().unwrap();
    assert_eq!(out.changed, Rev(4));
    assert_eq!(out.value, 17);
    let failed: Status<(), u32, String> = Status::Finished(Err("no".to_string()));
    assert!(matches!(failed.outcome(), Some(Err(()))));
    let running: Status<(), u32, String> = Status::Running(());
    assert!(running.outcome().is_none());
}

#[test]
fn context_records_dependencies() {
    let (sender, _receiver) = tokio::sync::oneshot::channel::<()>();
    let mut ctx = Context::new(sender);
    ctx.record(vec![Key(1), Key(2)]);
    ctx.record(vec![Key(3)]);
    assert_eq!(ctx.into_depends(), vec![vec![Key(1), Key(2)], vec![Key(3)]]);
}

#[test]
fn new_context_has_no_dependencies() {
    let (sender, _receiver) = tokio::sync::oneshot::channel::<()>();
    assert!(Context::new(sender).into_depends().is_empty());
}

#[test]
fn lookup_waits_for_running_and_takes_finished() {
    let running: Status<&str, u32, String> = Status::Running("bell");
    assert!(matches!(running.on_lookup(), Lookup::Wait("bell")));
    let ok: Status<&str, u32, String> = Status::Finished(Ok(Value { changed: Rev(8), value: 3 }));
    match ok.on_lookup() {
        Lookup::Ready(Ok(v)) => {
            assert_eq!(v.changed, Rev(8));
            assert_eq!(v.value, 3);
        }
        _ => panic!("expected the finished value"),
    }
    let failed: Status<&str, u32, String> = Status::Finished(Err("x".to_string()));
    assert!(matches!(failed.on_lookup(), Lookup::Ready(Err(()))));
}
