use rollup_host::error::HostError;
use rollup_host::limits::MAX_VALUE_SIZE;
use rollup_host::path::Path;
use rollup_host::state::HostState;
use rollup_host::store::PathStore;

fn path(raw: &[u8]) -> Path {
    Path::from_bytes(raw).unwrap()
}

#[test]
fn write_then_read_returns_the_bytes() {
    let mut store = PathStore::new();
    let p = path(b"/a/b");
    assert_eq!(store.write(&p, 5, &[9, 8, 7]), Ok(()));
    assert_eq!(store.read(&p, 5, 3), Ok(vec![9, 8, 7]));
    assert_eq!(store.value_size(&p), Ok(8));
}

#[test]
fn write_past_the_end_fills_the_gap_with_zeros() {
    let mut store = PathStore::new();
    let p = path(b"/v");
    store.write(&p, 0, &[1, 2]).unwrap();
    store.write(&p, 4, &[5, 6]).unwrap();
    assert_eq!(store.read(&p, 0, 100), Ok(vec![1, 2, 0, 0, 5, 6]));
}

#[test]
fn write_inside_a_value_keeps_the_rest() {
    let mut store = PathStore::new();
    let p = path(b"/v");
    store.write(&p, 0, &[1, 2, 3, 4, 5]).unwrap();
    store.write(&p, 1, &[9, 9]).unwrap();
    assert_eq!(store.read(&p, 0, 100), Ok(vec![1, 9, 9, 4, 5]));
    assert_eq!(store.value_size(&p), Ok(5));
    store.write(&p, 4, &[7, 7]).unwrap();
    assert_eq!(store.read(&p, 0, 100), Ok(vec![1, 9, 9, 4, 7, 7]));
}

#[test]
fn empty_write_creates_an_empty_value() {
    let mut store = PathStore::new();
    let p = path(b"/v");
    assert_eq!(store.write(&p, 0, &[]), Ok(()));
    assert!(store.has(&p));
    assert_eq!(store.value_size(&p), Ok(0));
    assert_eq!(store.read(&p, 0, 4), Ok(vec![]));
    assert_eq!(store.write(&p, 3, &[]), Ok(()));
    assert_eq!(store.read(&p, 0, 4), Ok(vec![0, 0, 0]));
}

#[test]
fn read_windows() {
    let mut store = PathStore::new();
    let p = path(b"/v");
    store.write(&p, 0, &[10, 11, 12, 13]).unwrap();
    assert_eq!(store.read(&p, 1, 2), Ok(vec![11, 12]));
    assert_eq!(store.read(&p, 2, 10), Ok(vec![12, 13]));
    assert_eq!(store.read(&p, 4, 10), Ok(vec![]));
    assert_eq!(store.read(&p, 9, 10), Ok(vec![]));
    assert_eq!(store.read(&p, 0, 0), Ok(vec![]));
    assert_eq!(store.read(&p, 1, usize::MAX), Ok(vec![11, 12, 13]));
    assert_eq!(store.read(&p, usize::MAX, usize::MAX), Ok(vec![]));
}

#[test]
fn write_over_the_limit_is_refused_and_changes_nothing() {
    let mut store = PathStore::new();
    let p = path(b"/v");
    store.write(&p, 0, &[1]).unwrap();
    assert_eq!(store.write(&p, MAX_VALUE_SIZE, &[1]), Err(HostError::ValueTooLarge));
    assert_eq!(store.write(&p, usize::MAX, &[1, 2]), Err(HostError::ValueTooLarge));
    assert_eq!(store.write(&p, MAX_VALUE_SIZE + 1, &[]), Err(HostError::ValueTooLarge));
    assert_eq!(store.read(&p, 0, 10), Ok(vec![1]));
    let q = path(b"/w");
    assert_eq!(store.write(&q, MAX_VALUE_SIZE, &[1]), Err(HostError::ValueTooLarge));
    assert!(!store.has(&q));
}

#[test]
fn directory_only_path_is_there_but_is_no_value() {
    let mut store = PathStore::new();
    store.write(&path(b"/a/b/c"), 0, &[1]).unwrap();
    assert!(store.has(&path(b"/a")));
    assert!(store.has(&path(b"/a/b")));
    assert!(store.has(&path(b"")));
    assert!(!store.has(&path(b"/a/b/c/d")));
    assert!(!store.has(&path(b"/a/bb")));
    assert_eq!(store.read(&path(b"/a"), 0, 1), Err(HostError::NotAValue));
    assert_eq!(store.value_size(&path(b"/a/b")), Err(HostError::NotAValue));
}

#[test]
fn a_path_may_hold_a_value_and_have_values_below() {
    let mut store = PathStore::new();
    store.write(&path(b"/a"), 0, &[1]).unwrap();
    store.write(&path(b"/a/b"), 0, &[2]).unwrap();
    assert_eq!(store.read(&path(b"/a"), 0, 9), Ok(vec![1]));
    assert_eq!(store.read(&path(b"/a/b"), 0, 9), Ok(vec![2]));
    assert_eq!(store.list_size(&path(b"/a")), 1);
    assert_eq!(store.list_size(&path(b"")), 1);
}

#[test]
fn delete_removes_the_subtree() {
    let mut store = PathStore::new();
    store.write(&path(b"/a"), 0, &[1]).unwrap();
    store.write(&path(b"/a/b"), 0, &[2]).unwrap();
    store.write(&path(b"/a/b/c"), 0, &[3]).unwrap();
    store.write(&path(b"/ab"), 0, &[4]).unwrap();
    assert_eq!(store.delete(&path(b"/a")), Ok(()));
    assert!(!store.has(&path(b"/a")));
    assert!(!store.has(&path(b"/a/b/c")));
    assert_eq!(store.read(&path(b"/ab"), 0, 9), Ok(vec![4]));
    assert_eq!(store.delete(&path(b"/a")), Err(HostError::PathNotFound));
}

#[test]
fn delete_takes_one_child_from_the_parent() {
    let mut store = PathStore::new();
    store.write(&path(b"/d/x/1"), 0, &[1]).unwrap();
    store.write(&path(b"/d/x/2"), 0, &[1]).unwrap();
    store.write(&path(b"/d/y"), 0, &[1]).unwrap();
    store.write(&path(b"/d/z/deep/er"), 0, &[1]).unwrap();
    assert_eq!(store.list_size(&path(b"/d")), 3);
    assert_eq!(store.delete(&path(b"/d/x")), Ok(()));
    assert_eq!(store.list_size(&path(b"/d")), 2);
    assert_eq!(store.delete(&path(b"/d/z/deep")), Ok(()));
    assert_eq!(store.list_size(&path(b"/d")), 1);
    assert_eq!(store.list_size(&path(b"/d/y")), 0);
    assert_eq!(store.list_size(&path(b"/nothing")), 0);
}

#[test]
fn move_takes_the_subtree_along() {
    let mut store = PathStore::new();
    store.write(&path(b"/a"), 0, &[1]).unwrap();
    store.write(&path(b"/a/x"), 0, &[2]).unwrap();
    store.write(&path(b"/a/x/y"), 0, &[3]).unwrap();
    store.write(&path(b"/b/old"), 0, &[4]).unwrap();
    store.write(&path(b"/c"), 0, &[5]).unwrap();
    assert_eq!(store.move_subtree(&path(b"/a"), &path(b"/b")), Ok(()));
    assert!(!store.has(&path(b"/a")));
    assert_eq!(store.read(&path(b"/b"), 0, 9), Ok(vec![1]));
    assert_eq!(store.read(&path(b"/b/x"), 0, 9), Ok(vec![2]));
    assert_eq!(store.read(&path(b"/b/x/y"), 0, 9), Ok(vec![3]));
    assert!(!store.has(&path(b"/b/old")));
    assert_eq!(store.read(&path(b"/c"), 0, 9), Ok(vec![5]));
}

#[test]
fn move_of_nothing_is_refused() {
    let mut store = PathStore::new();
    store.write(&path(b"/b"), 0, &[4]).unwrap();
    assert_eq!(store.move_subtree(&path(b"/a"), &path(b"/b")), Err(HostError::PathNotFound));
    assert_eq!(store.copy_subtree(&path(b"/a"), &path(b"/b")), Err(HostError::PathNotFound));
    assert_eq!(store.read(&path(b"/b"), 0, 9), Ok(vec![4]));
}

#[test]
fn move_below_itself() {
    let mut store = PathStore::new();
    store.write(&path(b"/a"), 0, &[1]).unwrap();
    store.write(&path(b"/a/b"), 0, &[2]).unwrap();
    assert_eq!(store.move_subtree(&path(b"/a"), &path(b"/a/b")), Ok(()));
    assert_eq!(store.read(&path(b"/a/b"), 0, 9), Ok(vec![1]));
    assert_eq!(store.read(&path(b"/a/b/b"), 0, 9), Ok(vec![2]));
    assert_eq!(store.read(&path(b"/a"), 0, 9), Err(HostError::NotAValue));
    assert!(store.has(&path(b"/a")));
}

#[test]
fn copy_keeps_the_source() {
    let mut store = PathStore::new();
    store.write(&path(b"/a"), 0, &[1]).unwrap();
    store.write(&path(b"/a/x"), 0, &[2]).unwrap();
    store.write(&path(b"/b/old"), 0, &[4]).unwrap();
    assert_eq!(store.copy_subtree(&path(b"/a"), &path(b"/b")), Ok(()));
    assert_eq!(store.read(&path(b"/a"), 0, 9), Ok(vec![1]));
    assert_eq!(store.read(&path(b"/a/x"), 0, 9), Ok(vec![2]));
    assert_eq!(store.read(&path(b"/b"), 0, 9), Ok(vec![1]));
    assert_eq!(store.read(&path(b"/b/x"), 0, 9), Ok(vec![2]));
    assert!(!store.has(&path(b"/b/old")));
    store.write(&path(b"/b/x"), 0, &[7]).unwrap();
    assert_eq!(store.read(&path(b"/a/x"), 0, 9), Ok(vec![2]));
}

#[test]
fn copy_onto_itself_changes_nothing() {
    let mut store = PathStore::new();
    store.write(&path(b"/a"), 0, &[1]).unwrap();
    store.write(&path(b"/a/x"), 0, &[2]).unwrap();
    assert_eq!(store.copy_subtree(&path(b"/a"), &path(b"/a")), Ok(()));
    assert_eq!(store.move_subtree(&path(b"/a"), &path(b"/a")), Ok(()));
    assert_eq!(store.read(&path(b"/a"), 0, 9), Ok(vec![1]));
    assert_eq!(store.read(&path(b"/a/x"), 0, 9), Ok(vec![2]));
    assert_eq!(store.list_size(&path(b"")), 1);
}

#[test]
fn host_move_copy_delete_and_list() {
    let mut state = HostState::default();
    state.handle_store_write(b"/a/one", 0, b"1").unwrap();
    state.handle_store_write(b"/a/two", 0, b"22").unwrap();
    assert_eq!(state.handle_store_list_size(b"/a"), Ok(2));
    assert_eq!(state.handle_store_copy(b"/a", b"/b"), Ok(()));
    assert_eq!(state.handle_store_list_size(b""), Ok(2));
    assert_eq!(state.handle_store_move(b"/a/two", b"/c/d"), Ok(()));
    assert_eq!(state.handle_store_has(b"/a/two"), Ok(0));
    assert_eq!(state.handle_store_read(b"/c/d", 0, 9), Ok(b"22".to_vec()));
    assert_eq!(state.handle_store_read(b"/b/two", 1, 9), Ok(b"2".to_vec()));
    assert_eq!(state.handle_store_value_size(b"/b/two"), Ok(2));
    assert_eq!(state.handle_store_delete(b"/b"), Ok(()));
    assert_eq!(state.handle_store_delete(b"/b"), Err(HostError::PathNotFound));
    assert_eq!(state.handle_store_move(b"/b", b"/z"), Err(HostError::PathNotFound));
    assert_eq!(state.handle_store_list_size(b""), Ok(2));
    assert_eq!(
        state.handle_store_write(b"/a/one", MAX_VALUE_SIZE, b"1"),
        Err(HostError::ValueTooLarge)
    );
    assert_eq!(state.handle_store_read(b"/a/one", 0, 9), Ok(b"1".to_vec()));
}
