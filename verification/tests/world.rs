use ra_ide_api::world::{FileId, WorldError, WorldState, INDEXING_THRESHOLD};

#[test]
fn new_state_has_no_files() {
    let state = WorldState::new();
    assert_eq!(state.file_text(FileId(0)), None);
    assert!(state.pending_updates().is_empty());
}

#[test]
fn read_after_change_gives_the_new_text() {
    let mut state = WorldState::new();
    state.change_file(FileId(1), Some("fn main() {}".to_string()));
    state.change_file(FileId(2), Some("struct S;".to_string()));
    state.change_file(FileId(1), Some("fn foo() {}".to_string()));
    assert_eq!(state.file_text(FileId(1)).map(|s| s.as_str()), Some("fn foo() {}"));
    assert_eq!(state.file_text(FileId(2)).map(|s| s.as_str()), Some("struct S;"));
    assert_eq!(state.pending_updates(), &vec![FileId(1), FileId(2), FileId(1)]);
}

#[test]
fn removed_file_is_unknown() {
    let mut state = WorldState::new();
    state.change_file(FileId(7), Some("mod a;".to_string()));
    state.change_file(FileId(7), None);
    assert_eq!(state.file_text(FileId(7)), None);
    let world = state.snapshot();
    assert_eq!(world.file_text(FileId(7)), Err(WorldError::UnknownFile(FileId(7))));
}

#[test]
fn change_files_applies_changes_in_order() {
    let mut state = WorldState::new();
    state.change_files(vec![
        (FileId(3), Some("a".to_string())),
        (FileId(4), Some("b".to_string())),
        (FileId(3), None),
        (FileId(4), Some("c".to_string())),
    ]);
    assert_eq!(state.file_text(FileId(3)), None);
    assert_eq!(state.file_text(FileId(4)).map(|s| s.as_str()), Some("c"));
    assert_eq!(
        state.pending_updates(),
        &vec![FileId(3), FileId(4), FileId(3), FileId(4)]
    );
}

#[test]
fn snapshot_keeps_files_and_clears_updates() {
    let mut state = WorldState::new();
    state.change_file(FileId(1), Some("x".to_string()));
    let world = state.snapshot();
    assert!(state.pending_updates().is_empty());
    assert_eq!(world.file_text(FileId(1)).map(|s| s.as_str()), Ok("x"));
    assert!(!world.is_index_stale());
    // Later changes do not reach an earlier snapshot.
    state.change_file(FileId(1), Some("y".to_string()));
    assert_eq!(world.file_text(FileId(1)).map(|s| s.as_str()), Ok("x"));
    assert_eq!(state.file_text(FileId(1)).map(|s| s.as_str()), Some("y"));
}

#[test]
fn many_pending_changes_make_the_index_stale() {
    assert_eq!(INDEXING_THRESHOLD, 128);
    let mut state = WorldState::new();
    for i in 0..(INDEXING_THRESHOLD as u32 - 1) {
        state.change_file(FileId(i), Some(format!("// {}", i)));
    }
    assert!(!state.snapshot().is_index_stale());
    for i in 0..(INDEXING_THRESHOLD as u32) {
        state.change_file(FileId(i), Some(format!("// {}", i)));
    }
    let world = state.snapshot();
    assert!(world.is_index_stale());
    assert_eq!(world.file_text(FileId(5)).map(|s| s.as_str()), Ok("// 5"));
}

#[test]
fn begin_reindex_reports_the_old_flag_and_marks_stale() {
    let mut state = WorldState::new();
    let mut world = state.snapshot();
    assert!(!world.begin_reindex());
    assert!(world.is_index_stale());
    assert!(world.begin_reindex());
    assert!(world.is_index_stale());
}

#[test]
fn cloned_world_has_same_files_and_flag() {
    let mut state = WorldState::new();
    state.change_file(FileId(9), Some("fn f() {}".to_string()));
    let mut world = state.snapshot();
    world.begin_reindex();
    let copy = world.clone();
    assert!(copy.is_index_stale());
    assert_eq!(copy.file_text(FileId(9)).map(|s| s.as_str()), Ok("fn f() {}"));
    assert_eq!(copy.file_text(FileId(8)), Err(WorldError::UnknownFile(FileId(8))));
}

#[test]
fn changes_in_two_batches_equal_one_batch() {
    let batch_a = vec![(FileId(1), Some("a".to_string())), (FileId(2), Some("b".to_string()))];
    let batch_b = vec![(FileId(1), None), (FileId(3), Some("c".to_string()))];
    let mut split = WorldState::new();
    split.change_files(batch_a.clone());
    split.change_files(batch_b.clone());
    let mut whole = WorldState::new();
    let mut all = batch_a;
    all.extend(batch_b);
    whole.change_files(all);
    for id in 0..5 {
        assert_eq!(split.file_text(FileId(id)), whole.file_text(FileId(id)));
    }
    assert_eq!(split.pending_updates(), whole.pending_updates());
}

#[test]
fn file_ids_lists_each_file_once() {
    let mut state = WorldState::new();
    state.change_files(vec![
        (FileId(4), Some("d".to_string())),
        (FileId(2), Some("b".to_string())),
        (FileId(4), Some("e".to_string())),
        (FileId(6), None),
    ]);
    let world = state.snapshot();
    let mut ids = world.file_ids();
    ids.sort();
    assert_eq!(ids, vec![FileId(2), FileId(4)]);
}

#[test]
fn unknown_file_error_message() {
    assert_eq!(WorldError::UnknownFile(FileId(3)).message(), "unknown file: FileId(3)");
    assert_eq!(WorldError::UnknownFile(FileId(0)).message(), "unknown file: FileId(0)");
    assert_eq!(
        WorldError::UnknownFile(FileId(4294967295)).message(),
        "unknown file: FileId(4294967295)"
    );
    let world = WorldState::new().snapshot();
    assert_eq!(world.file_text(FileId(120)).unwrap_err().message(), "unknown file: FileId(120)");
}
