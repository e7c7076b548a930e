use crep_indexer::watch::is_modify_event;
use crep_indexer::watch::merge_events;
use crep_indexer::watch::ChangeKind;
use crep_indexer::watch::Debouncer;
use crep_indexer::watch::FsEvent;
use crep_indexer::watch::FsEventType;

fn event(kind: FsEventType, paths: &[&str]) -> FsEvent {
    FsEvent {
        kind,
        paths: paths.iter().map(|p| p.to_string()).collect(),
    }
}

fn sorted(mut paths: Vec<String>) -> Vec<String> {
    paths.sort();
    paths
}

#[test]
fn creating_removing_writing_and_renaming_count() {
    assert!(is_modify_event(ChangeKind::Create));
    assert!(is_modify_event(ChangeKind::Remove));
    assert!(is_modify_event(ChangeKind::ModifyData));
    assert!(is_modify_event(ChangeKind::ModifyName));
    assert!(!is_modify_event(ChangeKind::Other));
}

#[test]
fn a_new_name_counts_as_a_new_file() {
    let paths = vec!["a.rs".to_string()];
    let kinds = [
        (ChangeKind::Create, Some(FsEventType::Create)),
        (ChangeKind::Remove, Some(FsEventType::Remove)),
        (ChangeKind::ModifyData, Some(FsEventType::Modify)),
        (ChangeKind::ModifyName, Some(FsEventType::Create)),
        (ChangeKind::Other, None),
    ];
    for (kind, expected) in kinds {
        let made = FsEvent::from(kind, paths.clone());
        assert_eq!(made.as_ref().map(|e| e.kind), expected);
        if let Some(e) = made {
            assert_eq!(e.paths, paths);
        }
    }
}

#[test]
fn the_first_change_starts_the_timer() {
    let mut debouncer = Debouncer::new(5);
    assert_eq!(
        debouncer.schedule_indexer_wakeup(event(FsEventType::Create, &["a"])),
        Some(5)
    );
    assert_eq!(
        debouncer.schedule_indexer_wakeup(event(FsEventType::Modify, &["a"])),
        None
    );
    assert!(debouncer.is_timer_set);
    debouncer.timer_fired();
    assert!(!debouncer.is_timer_set);
    let taken = debouncer.take_events();
    assert_eq!(taken.len(), 2);
    assert_eq!(taken[0].kind, FsEventType::Create);
    assert_eq!(taken[1].kind, FsEventType::Modify);
    assert!(debouncer.file_paths_modified.is_empty());
    // the next change starts a new timer
    assert_eq!(
        debouncer.schedule_indexer_wakeup(event(FsEventType::Remove, &["a"])),
        Some(5)
    );
    assert_eq!(debouncer.take_events().len(), 1);
    assert!(debouncer.take_events().is_empty());
}

#[test]
fn changes_of_a_while_are_taken_together() {
    let events = vec![
        event(FsEventType::Create, &["new.rs", "gone.rs"]),
        event(FsEventType::Modify, &["old.rs", "gone.rs", "old.rs"]),
        event(FsEventType::Remove, &["gone.rs", "dead.rs"]),
    ];
    // `gone.rs` was created and removed again: no need to look at it
    assert_eq!(
        sorted(merge_events(&events)),
        vec!["dead.rs".to_string(), "new.rs".to_string(), "old.rs".to_string()]
    );
    assert!(merge_events(&vec![]).is_empty());
    assert!(merge_events(&vec![event(FsEventType::Create, &[])]).is_empty());
}

#[test]
fn the_order_of_the_changes_counts() {
    // removed first, created then: the file is there
    let back = vec![
        event(FsEventType::Remove, &["a.rs"]),
        event(FsEventType::Create, &["a.rs"]),
    ];
    assert_eq!(merge_events(&back), vec!["a.rs".to_string()]);
    // created, removed and removed once more: the second removal is of a
    // file that was not created in between
    let twice = vec![
        event(FsEventType::Create, &["a.rs"]),
        event(FsEventType::Remove, &["a.rs", "a.rs"]),
    ];
    assert_eq!(merge_events(&twice), vec!["a.rs".to_string()]);
    // changed, created and removed: nothing is left to look at
    let none = vec![
        event(FsEventType::Modify, &["a.rs"]),
        event(FsEventType::Create, &["a.rs"]),
        event(FsEventType::Remove, &["a.rs"]),
    ];
    assert!(merge_events(&none).is_empty());
}
