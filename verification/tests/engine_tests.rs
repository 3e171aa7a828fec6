use better_remove::engine::{
    empty_trash, name_admissible, path_recordable, restore_one, trash_batch, trash_one,
    EmptyDecision, RestoreDecision, Target, TrashDecision, TrashState,
};
use better_remove::store::RecordStore;

fn state_with(names: &[&[u8]]) -> TrashState {
    TrashState::new(names.iter().map(|n| n.to_vec()).collect(), RecordStore::new())
}

fn file_target(basename: &[u8], canonical: &[u8], exists: bool) -> Target {
    Target {
        basename: basename.to_vec(),
        canonical_path: canonical.to_vec(),
        exists,
        is_dir: false,
        dir_confirmed: false,
    }
}

fn dir_target(basename: &[u8], canonical: &[u8], confirmed: bool) -> Target {
    Target {
        basename: basename.to_vec(),
        canonical_path: canonical.to_vec(),
        exists: true,
        is_dir: true,
        dir_confirmed: confirmed,
    }
}

#[test]
fn missing_target_is_not_found() {
    let mut st = state_with(&[]);
    let t = file_target(b"gone.txt", b"/home/gone.txt", false);
    let d = trash_one(&mut st, &t, false);
    assert!(matches!(d, TrashDecision::NotFound));
    assert_eq!(st.listing.len(), 0);
    assert_eq!(st.store.entries.len(), 0);
}

#[test]
fn unconfirmed_directory_is_skipped() {
    let mut st = state_with(&[]);
    let t = dir_target(b"mydir", b"/home/mydir", false);
    let d = trash_one(&mut st, &t, false);
    assert!(matches!(d, TrashDecision::Unconfirmed));
    assert_eq!(st.listing.len(), 0);
    assert_eq!(st.store.entries.len(), 0);
}

#[test]
fn force_trashing_directory_deletes_tree_and_writes_no_record() {
    let mut st = state_with(&[b"already.txt"]);
    let t = dir_target(b"mydir", b"/home/mydir", true);
    let d = trash_one(&mut st, &t, true);
    assert!(matches!(d, TrashDecision::DeleteTree));
    assert_eq!(st.listing.len(), 1);
    assert_eq!(st.store.entries.len(), 0);
}

#[test]
fn force_trashing_file_deletes_it_permanently() {
    let mut st = state_with(&[]);
    let t = file_target(b"a.txt", b"/home/a.txt", true);
    let d = trash_one(&mut st, &t, true);
    assert!(matches!(d, TrashDecision::DeleteFile));
    assert_eq!(st.listing.len(), 0);
    assert_eq!(st.store.entries.len(), 0);
}

#[test]
fn trashing_file_moves_and_records() {
    let mut st = state_with(&[]);
    let t = file_target(b"a.txt", b"/home/user/a.txt", true);
    let d = trash_one(&mut st, &t, false);
    match d {
        TrashDecision::MoveToTrash { dest } => assert_eq!(dest, b"a.txt".to_vec()),
        _ => panic!("expected a move into the trash"),
    }
    assert_eq!(st.listing, vec![b"a.txt".to_vec()]);
    assert_eq!(st.store.entries.len(), 1);
    assert_eq!(st.store.entries[0].name, b"a.txt".to_vec());
    assert_eq!(st.store.entries[0].original_path, b"/home/user/a.txt".to_vec());
}

#[test]
fn confirmed_directory_moves_and_records() {
    // directories are recorded exactly like files
    let mut st = state_with(&[]);
    let t = dir_target(b"mydir", b"/home/mydir", true);
    let d = trash_one(&mut st, &t, false);
    match d {
        TrashDecision::MoveToTrash { dest } => assert_eq!(dest, b"mydir".to_vec()),
        _ => panic!("expected a move into the trash"),
    }
    assert_eq!(st.store.entries.len(), 1);
    assert_eq!(st.store.entries[0].name, b"mydir".to_vec());
    assert_eq!(st.store.entries[0].original_path, b"/home/mydir".to_vec());
}

#[test]
fn colliding_name_gets_suffix_and_record_keyed_by_it() {
    // the trash already holds report.txt; a new report.txt becomes report.txt1
    let mut st = state_with(&[b"report.txt"]);
    let t = file_target(b"report.txt", b"/original/absolute/path/report.txt", true);
    let d = trash_one(&mut st, &t, false);
    match d {
        TrashDecision::MoveToTrash { dest } => assert_eq!(dest, b"report.txt1".to_vec()),
        _ => panic!("expected a move into the trash"),
    }
    assert_eq!(st.listing, vec![b"report.txt".to_vec(), b"report.txt1".to_vec()]);
    assert_eq!(st.store.entries.len(), 1);
    assert_eq!(st.store.entries[0].name, b"report.txt1".to_vec());
    assert_eq!(
        st.store.entries[0].original_path,
        b"/original/absolute/path/report.txt".to_vec()
    );

    // restoring report.txt1 moves it back and deletes the record
    let r = restore_one(&mut st, &b"report.txt1".to_vec(), false);
    match r {
        RestoreDecision::MoveBack { original_path } => {
            assert_eq!(original_path, b"/original/absolute/path/report.txt".to_vec());
        }
        _ => panic!("expected a move back"),
    }
    assert_eq!(st.listing, vec![b"report.txt".to_vec()]);
    assert_eq!(st.store.entries.len(), 0);
}

#[test]
fn trash_then_restore_returns_to_original_state() {
    let mut st = state_with(&[b"other"]);
    let t = file_target(b"a.txt", b"/home/user/a.txt", true);
    let d = trash_one(&mut st, &t, false);
    let dest = match d {
        TrashDecision::MoveToTrash { dest } => dest,
        _ => panic!("expected a move into the trash"),
    };
    let r = restore_one(&mut st, &dest, false);
    match r {
        RestoreDecision::MoveBack { original_path } => {
            assert_eq!(original_path, b"/home/user/a.txt".to_vec());
        }
        _ => panic!("expected a move back"),
    }
    assert_eq!(st.listing, vec![b"other".to_vec()]);
    assert_eq!(st.store.entries.len(), 0);
}

#[test]
fn restore_conflict_preserves_entry_and_record() {
    let mut st = state_with(&[]);
    let t = file_target(b"a.txt", b"/home/user/a.txt", true);
    trash_one(&mut st, &t, false);
    // the original path is occupied again
    let r = restore_one(&mut st, &b"a.txt".to_vec(), true);
    assert!(matches!(r, RestoreDecision::Conflict));
    assert_eq!(st.listing, vec![b"a.txt".to_vec()]);
    assert_eq!(st.store.entries.len(), 1);
    assert_eq!(st.store.entries[0].name, b"a.txt".to_vec());
}

#[test]
fn restore_without_record_changes_nothing() {
    let mut st = state_with(&[b"stray.txt"]);
    let r = restore_one(&mut st, &b"stray.txt".to_vec(), false);
    assert!(matches!(r, RestoreDecision::NoRecord));
    assert_eq!(st.listing, vec![b"stray.txt".to_vec()]);
    assert_eq!(st.store.entries.len(), 0);
}

#[test]
fn emptying_empty_trash_succeeds_with_zero_victims() {
    let mut st = state_with(&[]);
    let d = empty_trash(&mut st, true);
    match d {
        EmptyDecision::Emptied { victims } => assert_eq!(victims.len(), 0),
        _ => panic!("expected the trash to be emptied"),
    }
    assert_eq!(st.listing.len(), 0);
    assert_eq!(st.store.entries.len(), 0);
}

#[test]
fn emptying_deletes_every_entry_and_clears_records() {
    let mut st = state_with(&[b"keep.me"]);
    let t = file_target(b"a.txt", b"/home/a.txt", true);
    trash_one(&mut st, &t, false);
    let d = empty_trash(&mut st, true);
    match d {
        EmptyDecision::Emptied { victims } => {
            assert_eq!(victims, vec![b"keep.me".to_vec(), b"a.txt".to_vec()]);
        }
        _ => panic!("expected the trash to be emptied"),
    }
    assert_eq!(st.listing.len(), 0);
    assert_eq!(st.store.entries.len(), 0);
}

#[test]
fn emptying_unconfirmed_changes_nothing() {
    let mut st = state_with(&[b"a"]);
    let d = empty_trash(&mut st, false);
    assert!(matches!(d, EmptyDecision::Unconfirmed));
    assert_eq!(st.listing, vec![b"a".to_vec()]);
}

#[test]
fn batch_with_one_missing_item_trashes_the_others() {
    let mut st = state_with(&[]);
    let targets = vec![
        file_target(b"a.txt", b"/home/a.txt", true),
        file_target(b"gone.txt", b"/home/gone.txt", false),
        file_target(b"c.txt", b"/home/c.txt", true),
    ];
    let ds = trash_batch(&mut st, &targets, false);
    assert_eq!(ds.len(), 3);
    assert!(matches!(&ds[0], TrashDecision::MoveToTrash { dest } if *dest == b"a.txt".to_vec()));
    assert!(matches!(&ds[1], TrashDecision::NotFound));
    assert!(matches!(&ds[2], TrashDecision::MoveToTrash { dest } if *dest == b"c.txt".to_vec()));
    assert_eq!(st.listing, vec![b"a.txt".to_vec(), b"c.txt".to_vec()]);
    assert_eq!(st.store.entries.len(), 2);
}

#[test]
fn batch_of_equal_basenames_gets_distinct_names() {
    let mut st = state_with(&[]);
    let targets = vec![
        file_target(b"a.txt", b"/one/a.txt", true),
        file_target(b"a.txt", b"/two/a.txt", true),
        file_target(b"a.txt", b"/three/a.txt", true),
    ];
    let ds = trash_batch(&mut st, &targets, false);
    assert_eq!(ds.len(), 3);
    assert_eq!(st.listing, vec![b"a.txt".to_vec(), b"a.txt1".to_vec(), b"a.txt2".to_vec()]);
    assert_eq!(st.store.entries[1].name, b"a.txt1".to_vec());
    assert_eq!(st.store.entries[1].original_path, b"/two/a.txt".to_vec());
}

#[test]
fn admissibility_checks() {
    assert!(name_admissible(&b"report.txt".to_vec()));
    assert!(!name_admissible(&b"".to_vec()));
    assert!(!name_admissible(&b"a b".to_vec()));
    assert!(!name_admissible(&b"a/b".to_vec()));
    assert!(!name_admissible(&b"a\nb".to_vec()));
    assert!(path_recordable(&b"/home/user/a.txt".to_vec()));
    assert!(path_recordable(&b"/home/us er/a.txt".to_vec()));
    assert!(!path_recordable(&b"/home/o'brien/a.txt".to_vec()));
    assert!(!path_recordable(&b"/home\n/a.txt".to_vec()));
}
