use faros::date::{DueDate, checked_date, days_between_exec};
use faros::list::{CompleteOutcome, TodoList};
use faros::codec::{load, save};
use faros::resolve::{Resolution, parse_index, select_candidate};
use faros::task::{Completion, Priority, Task};
use faros::EngineError;

fn date(y: i32, mo: u32, d: u32, h: u32, mi: u32) -> DueDate {
    checked_date(y, mo, d, h, mi).unwrap()
}

fn add_task(list: &mut TodoList, name: &str, due: DueDate) -> u128 {
    list.add_top_level_task(name.as_bytes().to_vec(), b"d".to_vec(), Priority::Medium, due)
        .unwrap()
}

#[test]
fn flatten_is_preorder_depth_first() {
    // a node with children [c1, c2] where c1 has child g1 flattens to
    // [node, c1, g1, c2]
    let mut list = TodoList::new();
    let now = date(2026, 10, 11, 12, 0);
    let node = add_task(&mut list, "node", now);
    let c1 = list
        .add_subtask(node, &b"c1".to_vec(), &b"d".to_vec(), Priority::Medium, now)
        .unwrap();
    let c2 = list
        .add_subtask(node, &b"c2".to_vec(), &b"d".to_vec(), Priority::Medium, now)
        .unwrap();
    let g1 = list
        .add_subtask(c1, &b"g1".to_vec(), &b"d".to_vec(), Priority::Medium, now)
        .unwrap();
    let flat = list.flattened();
    let ids: Vec<u128> = flat.iter().map(|t| t.uuid).collect();
    assert_eq!(ids, vec![node, c1, g1, c2]);
}

#[test]
fn listing_bound_is_inclusive_with_no_lower_bound() {
    let mut list = TodoList::new();
    let now = date(2026, 10, 11, 12, 0);
    let overdue = add_task(&mut list, "overdue", date(2026, 10, 1, 12, 0));
    let far = add_task(&mut list, "far", date(2026, 10, 21, 12, 0));
    let edge = add_task(&mut list, "edge", date(2026, 10, 14, 12, 0));
    let shown = list.list(&now, false, false, false, 3, 1000);
    let ids: Vec<u128> = shown.iter().map(|t| t.uuid).collect();
    // a task due 10 days ago is included; in 10 days excluded; in exactly
    // 3 days included (boundary inclusive); sorted ascending by due date
    assert_eq!(ids, vec![overdue, edge]);
    assert!(!ids.contains(&far));
}

#[test]
fn listing_filters_by_priority_and_truncates() {
    let mut list = TodoList::new();
    let now = date(2026, 10, 11, 12, 0);
    let due = date(2026, 10, 12, 12, 0);
    let hi = list
        .add_top_level_task(b"h".to_vec(), b"d".to_vec(), Priority::High, due)
        .unwrap();
    let _lo = list
        .add_top_level_task(b"l".to_vec(), b"d".to_vec(), Priority::Low, due)
        .unwrap();
    let only_high = list.list(&now, true, false, false, 3, 1000);
    assert_eq!(only_high.len(), 1);
    assert_eq!(only_high[0].uuid, hi);
    let first_only = list.list(&now, false, false, false, 3, 1);
    assert_eq!(first_only.len(), 1);
}

#[test]
fn days_between_truncates_toward_zero() {
    let now = date(2026, 10, 11, 12, 0);
    assert_eq!(days_between_exec(&date(2026, 10, 14, 12, 0), &now), 3);
    assert_eq!(days_between_exec(&date(2026, 10, 14, 11, 0), &now), 2);
    assert_eq!(days_between_exec(&date(2026, 10, 1, 12, 0), &now), -10);
    assert_eq!(days_between_exec(&date(2026, 10, 11, 13, 0), &now), 0);
}

#[test]
fn disambiguation_cases() {
    let mut list = TodoList::new();
    let due = date(2026, 10, 12, 12, 0);
    match list.resolve_by_name(&b"review".to_vec()) {
        Resolution::NotFound => {}
        _ => panic!("expected no match"),
    }
    let first = add_task(&mut list, "review", due);
    match list.resolve_by_name(&b"review".to_vec()) {
        Resolution::One(u) => assert_eq!(u, first),
        _ => panic!("expected one match"),
    }
    let second = add_task(&mut list, "review", due);
    let third = add_task(&mut list, "review", due);
    match list.resolve_by_name(&b"review".to_vec()) {
        Resolution::Many(v) => {
            assert_eq!(v, vec![first, second, third]);
            assert_eq!(select_candidate(&v, 0), Ok(first));
            assert_eq!(select_candidate(&v, 2), Ok(third));
            assert_eq!(select_candidate(&v, 3), Err(EngineError::InvalidInput));
        }
        _ => panic!("expected several matches"),
    }
}

#[test]
fn parse_index_accepts_digits_only() {
    assert_eq!(parse_index(&b"2".to_vec()), Ok(2));
    assert_eq!(parse_index(&b"10".to_vec()), Ok(10));
    assert_eq!(parse_index(&b"".to_vec()), Err(EngineError::InvalidInput));
    assert_eq!(parse_index(&b"2x".to_vec()), Err(EngineError::InvalidInput));
    assert_eq!(
        parse_index(&b"99999999999999999999999999".to_vec()),
        Err(EngineError::InvalidInput)
    );
}

#[test]
fn completion_precondition_blocks_incomplete_children() {
    let mut list = TodoList::new();
    let due = date(2026, 10, 12, 12, 0);
    let parent = add_task(&mut list, "parent", due);
    let child = list
        .add_subtask(parent, &b"child".to_vec(), &b"d".to_vec(), Priority::Medium, due)
        .unwrap();
    assert_eq!(
        list.complete_by_uuid(parent),
        Err(EngineError::BlockedByIncompleteChildren)
    );
    assert_eq!(list.complete_by_uuid(child), Ok(CompleteOutcome::Completed));
    assert_eq!(list.complete_by_uuid(parent), Ok(CompleteOutcome::Completed));
    assert_eq!(
        list.complete_by_uuid(parent),
        Ok(CompleteOutcome::AlreadyComplete)
    );
    assert_eq!(list.complete_by_uuid(42), Err(EngineError::NotFound));
}

#[test]
fn end_to_end_scenario() {
    // add "A" due in 1 day, subtask "B" of "A" due in 2 days, complete B
    // then A; completing A discards its children, so a default listing
    // still shows A (the filter does not exclude complete nodes) and no B
    let mut list = TodoList::new();
    let now = date(2026, 10, 11, 12, 0);
    let a = add_task(&mut list, "A", date(2026, 10, 12, 12, 0));
    let a_resolved = match list.resolve_by_name(&b"A".to_vec()) {
        Resolution::One(u) => u,
        _ => panic!("expected one match"),
    };
    assert_eq!(a_resolved, a);
    let b = list
        .add_subtask(a, &b"B".to_vec(), &b"d".to_vec(), Priority::Medium, date(2026, 10, 13, 12, 0))
        .unwrap();
    assert_eq!(list.complete_by_uuid(b), Ok(CompleteOutcome::Completed));
    assert_eq!(list.complete_by_uuid(a), Ok(CompleteOutcome::Completed));
    let shown = list.list(&now, false, false, false, 3, 1000);
    let ids: Vec<u128> = shown.iter().map(|t| t.uuid).collect();
    assert_eq!(ids, vec![a]);
    assert!(!list.contains_uuid(b));
}

#[test]
fn removal_reaches_any_depth_and_the_top_level() {
    let mut list = TodoList::new();
    let due = date(2026, 10, 12, 12, 0);
    let top = add_task(&mut list, "top", due);
    let mid = list
        .add_subtask(top, &b"mid".to_vec(), &b"d".to_vec(), Priority::Medium, due)
        .unwrap();
    let leaf = list
        .add_subtask(mid, &b"leaf".to_vec(), &b"d".to_vec(), Priority::Medium, due)
        .unwrap();
    list.remove_by_uuid(mid);
    assert!(list.contains_uuid(top));
    assert!(!list.contains_uuid(mid));
    assert!(!list.contains_uuid(leaf));
    list.remove_by_uuid(top);
    assert!(!list.contains_uuid(top));
    assert_eq!(list.flattened().len(), 0);
}

#[test]
fn modify_substitutes_only_supplied_components() {
    let mut list = TodoList::new();
    let u = add_task(&mut list, "old", date(2026, 10, 12, 12, 30));
    let renamed = b"new".to_vec();
    list.modify_by_uuid(u, Some(&renamed), None, Some(11), None, None, None)
        .unwrap();
    let t = list.find_by_uuid(u).unwrap();
    assert_eq!(t.name, b"new".to_vec());
    assert_eq!(t.due_date, date(2026, 11, 12, 12, 30));
    // a month with too few days is rejected at the step that breaks it
    let err = list.modify_by_uuid(u, None, None, Some(2), Some(30), None, None);
    assert_eq!(err, Err(EngineError::InvalidInput));
    assert_eq!(
        list.modify_by_uuid(9999, None, None, None, None, None, None),
        Err(EngineError::NotFound)
    );
}

#[test]
fn add_subtask_reopens_a_complete_parent() {
    let mut list = TodoList::new();
    let due = date(2026, 10, 12, 12, 0);
    let parent = add_task(&mut list, "parent", due);
    assert_eq!(list.complete_by_uuid(parent), Ok(CompleteOutcome::Completed));
    let child = list
        .add_subtask(parent, &b"late".to_vec(), &b"d".to_vec(), Priority::Medium, due)
        .unwrap();
    let p = list.find_by_uuid(parent).unwrap();
    match &p.completion {
        Completion::Incomplete(ch) => {
            assert_eq!(ch.len(), 1);
            assert_eq!(ch[0].uuid, child);
        }
        Completion::Complete => panic!("parent should have been reopened"),
    }
    assert_eq!(
        list.add_subtask(777, &b"x".to_vec(), &b"d".to_vec(), Priority::Medium, due),
        Err(EngineError::NotFound)
    );
}

#[test]
fn identities_stay_unique_across_adds() {
    let mut list = TodoList::new();
    let due = date(2026, 10, 12, 12, 0);
    let mut seen: Vec<u128> = Vec::new();
    for k in 0..5 {
        let name = format!("t{}", k);
        let u = add_task(&mut list, &name, due);
        assert!(!seen.contains(&u));
        seen.push(u);
        let s = list
            .add_subtask(u, &b"s".to_vec(), &b"d".to_vec(), Priority::Medium, due)
            .unwrap();
        assert!(!seen.contains(&s));
        seen.push(s);
    }
    let flat = list.flattened();
    for a in 0..flat.len() {
        for b in 0..flat.len() {
            if a != b {
                assert_ne!(flat[a].uuid, flat[b].uuid);
            }
        }
    }
}

#[test]
fn save_load_round_trip() {
    let mut list = TodoList::new();
    let due = date(2026, 10, 12, 23, 59);
    let a = add_task(&mut list, "A", due);
    let b = list
        .add_subtask(a, &b"B".to_vec(), &b"desc of B".to_vec(), Priority::Low, date(2026, 12, 31, 0, 0))
        .unwrap();
    assert_eq!(list.complete_by_uuid(b), Ok(CompleteOutcome::Completed));
    let _tag = list.add_tag(b"someday".to_vec(), b"tag desc".to_vec());
    let bytes = save(&list);
    let back = load(&bytes).unwrap();
    let old_flat = list.flattened();
    let new_flat = back.flattened();
    assert_eq!(old_flat.len(), new_flat.len());
    for k in 0..old_flat.len() {
        assert_eq!(old_flat[k].uuid, new_flat[k].uuid);
        assert_eq!(old_flat[k].name, new_flat[k].name);
        assert_eq!(old_flat[k].description, new_flat[k].description);
        assert_eq!(old_flat[k].priority, new_flat[k].priority);
        assert_eq!(old_flat[k].due_date, new_flat[k].due_date);
        assert_eq!(
            matches!(old_flat[k].completion, Completion::Complete),
            matches!(new_flat[k].completion, Completion::Complete)
        );
    }
    assert_eq!(back.tags.len(), 1);
    assert_eq!(back.tags[0].name, b"someday".to_vec());
}

#[test]
fn load_accepts_empty_and_rejects_garbage() {
    let empty = load(&Vec::new()).unwrap();
    assert_eq!(empty.tasks.len(), 0);
    assert_eq!(empty.tags.len(), 0);
    assert!(matches!(
        load(&b"not a document".to_vec()),
        Err(EngineError::PersistenceFailure)
    ));
    let mut truncated = save(&empty);
    truncated.pop();
    assert!(matches!(load(&truncated), Err(EngineError::PersistenceFailure)));
}

#[test]
fn load_rejects_duplicate_identities() {
    let one = Task::new(
        b"one".to_vec(),
        b"d".to_vec(),
        Priority::Medium,
        checked_date(2026, 10, 12, 12, 0).unwrap(),
        7,
    );
    let two = Task::new(
        b"two".to_vec(),
        b"d".to_vec(),
        Priority::Medium,
        checked_date(2026, 10, 13, 12, 0).unwrap(),
        7,
    );
    let broken = TodoList { tasks: vec![one, two], tags: Vec::new() };
    let bytes = save(&broken);
    assert!(matches!(load(&bytes), Err(EngineError::PersistenceFailure)));
}

#[test]
fn checked_date_accepts_exactly_the_model_dates() {
    assert!(checked_date(2026, 2, 29, 0, 0).is_none());
    assert!(checked_date(2024, 2, 29, 0, 0).is_some());
    assert!(checked_date(2026, 13, 1, 0, 0).is_none());
    assert!(checked_date(2026, 1, 1, 24, 0).is_none());
    assert!(checked_date(-1, 1, 1, 0, 0).is_none());
    assert!(checked_date(0, 1, 1, 0, 0).is_some());
}

#[test]
fn new_task_starts_incomplete_and_childless() {
    let t = Task::new(
        b"n".to_vec(),
        b"d".to_vec(),
        Priority::High,
        checked_date(2026, 1, 2, 3, 4).unwrap(),
        7,
    );
    assert_eq!(t.uuid, 7);
    assert!(t.tags.is_empty());
    match &t.completion {
        Completion::Incomplete(ch) => assert!(ch.is_empty()),
        Completion::Complete => panic!("a new task must be incomplete"),
    }
    assert_eq!(t.flattened().len(), 1);
}
