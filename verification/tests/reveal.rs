use rollup_host::digest::preimage_hash;
use rollup_host::error::HostError;
use rollup_host::limits::{MAX_DAC_LEVELS, MAX_FILE_CHUNK_SIZE, MAX_PAGE_SIZE};
use rollup_host::path::Path;
use rollup_host::preimage::{
    append_content, reveal_loop, write_kernel_page, PreimageTable, CONTENT_PAGE_TAG,
    HASHES_PAGE_TAG,
};
use rollup_host::state::{reveal_root_hash, HostState};
use rollup_host::store::PathStore;

fn content_page(content: &[u8]) -> Vec<u8> {
    let mut page = vec![CONTENT_PAGE_TAG];
    page.extend_from_slice(content);
    page
}

fn hashes_page(hashes: &[[u8; 32]]) -> Vec<u8> {
    let mut page = vec![HASHES_PAGE_TAG];
    for hash in hashes {
        page.extend_from_slice(hash);
    }
    page
}

fn boot() -> Path {
    Path::from_bytes(b"/kernel/boot").unwrap()
}

#[test]
fn hash_is_the_blake2b_digest_of_32_bytes() {
    let expected: [u8; 32] = [
        0x0e, 0x57, 0x51, 0xc0, 0x26, 0xe5, 0x43, 0xb2, 0xe8, 0xab, 0x2e, 0xb0, 0x60, 0x99,
        0xda, 0xa1, 0xd1, 0xe5, 0xdf, 0x47, 0x77, 0x8f, 0x77, 0x87, 0xfa, 0xab, 0x45, 0xcd,
        0xf1, 0x2f, 0xe3, 0xa8,
    ];
    assert_eq!(preimage_hash(b""), expected);
    assert_ne!(preimage_hash(&[0u8; 32]), [0u8; 32]);
    assert_ne!(preimage_hash(b"a"), preimage_hash(b"b"));
    assert_eq!(preimage_hash(b"abc"), preimage_hash(b"abc"));
}

#[test]
fn set_preimage_registers_under_the_hash() {
    let mut table = PreimageTable::new();
    let hash = table.set_preimage(vec![1, 2, 3]);
    assert_eq!(hash, preimage_hash(&[1, 2, 3]));
    assert_eq!(table.reveal_preimage(&hash, 10), Ok([1u8, 2, 3].as_slice()));
    assert_eq!(table.reveal_preimage(&hash, 2), Ok([1u8, 2].as_slice()));
    assert_eq!(table.reveal_preimage(&[7u8; 32], 2), Err(HostError::HashNotFound));
    table.insert(hash, vec![9]);
    assert_eq!(table.reveal_preimage(&hash, 10), Ok([9u8].as_slice()));
}

#[test]
fn single_content_page_is_rebuilt_exactly() {
    let mut state = HostState::default();
    let content: Vec<u8> = (0..3072u32).map(|i| (i % 251) as u8).collect();
    let root = state.set_preimage(content_page(&content));

    assert_eq!(reveal_root_hash(&mut state, &root, &boot()), Ok(()));

    assert_eq!(state.handle_store_value_size(b"/kernel/boot"), Ok(3072));
    assert_eq!(state.handle_store_read(b"/kernel/boot", 0, 4000), Ok(content));
}

#[test]
fn three_levels_are_rebuilt_in_listed_order() {
    let mut state = HostState::default();
    let first: Vec<u8> = vec![b'a'; 3000];
    let second: Vec<u8> = vec![b'b'; 10];
    let third: Vec<u8> = vec![b'c'; 4095];
    let fourth: Vec<u8> = vec![];
    let h1 = state.set_preimage(content_page(&first));
    let h2 = state.set_preimage(content_page(&second));
    let h3 = state.set_preimage(content_page(&third));
    let h4 = state.set_preimage(content_page(&fourth));
    let left = state.set_preimage(hashes_page(&[h1, h2]));
    let right = state.set_preimage(hashes_page(&[h3, h4, h2]));
    let root = state.set_preimage(hashes_page(&[left, right]));

    assert_eq!(reveal_root_hash(&mut state, &root, &boot()), Ok(()));

    let mut expected = first.clone();
    expected.extend_from_slice(&second);
    expected.extend_from_slice(&third);
    expected.extend_from_slice(&second);
    assert_eq!(state.handle_store_value_size(b"/kernel/boot"), Ok(expected.len()));
    assert_eq!(state.handle_store_read(b"/kernel/boot", 0, usize::MAX), Ok(expected));
}

#[test]
fn reveal_overwrites_from_the_first_byte_and_keeps_a_longer_tail() {
    let mut state = HostState::default();
    state.handle_store_write(b"/kernel/boot", 0, &[9, 9, 9, 9, 9]).unwrap();
    let root = state.set_preimage(content_page(&[1, 2, 3]));
    assert_eq!(reveal_root_hash(&mut state, &root, &boot()), Ok(()));
    assert_eq!(state.handle_store_read(b"/kernel/boot", 0, 10), Ok(vec![1, 2, 3, 9, 9]));
}

#[test]
fn empty_content_writes_nothing() {
    let mut state = HostState::default();
    let root = state.set_preimage(content_page(&[]));
    assert_eq!(reveal_root_hash(&mut state, &root, &boot()), Ok(()));
    assert_eq!(state.handle_store_has(b"/kernel/boot"), Ok(0));
    let none = state.set_preimage(hashes_page(&[]));
    assert_eq!(reveal_root_hash(&mut state, &none, &boot()), Ok(()));
    assert_eq!(state.handle_store_has(b"/kernel/boot"), Ok(0));
}

#[test]
fn missing_root_is_not_found() {
    let mut state = HostState::default();
    assert_eq!(
        reveal_root_hash(&mut state, &[3u8; 32], &boot()),
        Err(HostError::HashNotFound)
    );
    assert_eq!(state.handle_store_has(b""), Ok(0));
}

#[test]
fn missing_child_is_not_found_after_what_came_before_it() {
    let mut state = HostState::default();
    let h1 = state.set_preimage(content_page(&[1, 2]));
    let root = state.set_preimage(hashes_page(&[h1, [0u8; 32], h1]));
    assert_eq!(reveal_root_hash(&mut state, &root, &boot()), Err(HostError::HashNotFound));
    assert_eq!(state.handle_store_read(b"/kernel/boot", 0, 10), Ok(vec![1, 2]));
}

#[test]
fn nesting_deeper_than_allowed_is_refused() {
    let mut state = HostState::default();
    let mut hash = state.set_preimage(content_page(&[1]));
    for _ in 0..MAX_DAC_LEVELS - 1 {
        hash = state.set_preimage(hashes_page(&[hash]));
    }
    assert_eq!(reveal_root_hash(&mut state, &hash, &boot()), Ok(()));
    assert_eq!(state.handle_store_read(b"/kernel/boot", 0, 10), Ok(vec![1]));

    let mut deep = HostState::default();
    let mut hash = deep.set_preimage(content_page(&[1]));
    for _ in 0..MAX_DAC_LEVELS {
        hash = deep.set_preimage(hashes_page(&[hash]));
    }
    assert_eq!(
        reveal_root_hash(&mut deep, &hash, &boot()),
        Err(HostError::RevealDepthExceeded)
    );
    assert_eq!(deep.handle_store_has(b"/kernel/boot"), Ok(0));
}

#[test]
fn hashes_that_do_not_fill_whole_hashes_are_refused() {
    let mut state = HostState::default();
    let mut page = hashes_page(&[[0u8; 32]]);
    page.push(0);
    let root = state.set_preimage(page);
    assert_eq!(
        reveal_root_hash(&mut state, &root, &boot()),
        Err(HostError::InvalidHashLength)
    );
}

#[test]
fn unknown_tag_and_empty_page_are_refused() {
    let mut state = HostState::default();
    let unknown = state.set_preimage(vec![2, 1, 2, 3]);
    assert_eq!(reveal_root_hash(&mut state, &unknown, &boot()), Err(HostError::InvalidPage));
    let empty = state.set_preimage(vec![]);
    assert_eq!(reveal_root_hash(&mut state, &empty, &boot()), Err(HostError::InvalidPage));
}

#[test]
fn a_page_is_read_up_to_the_page_size() {
    let mut state = HostState::default();
    let root = state.set_preimage(content_page(&vec![5u8; MAX_PAGE_SIZE + 10]));
    assert_eq!(reveal_root_hash(&mut state, &root, &boot()), Ok(()));
    assert_eq!(state.handle_store_value_size(b"/kernel/boot"), Ok(MAX_PAGE_SIZE - 1));
}

#[test]
fn append_content_writes_after_what_was_appended() {
    let mut store = PathStore::new();
    let to = boot();
    let long = vec![4u8; 2 * MAX_FILE_CHUNK_SIZE + 17];
    assert_eq!(append_content(&mut store, 0, &[1, 2, 3], &to), Ok(3));
    assert_eq!(append_content(&mut store, 3, &long, &to), Ok(long.len()));
    assert_eq!(append_content(&mut store, 3 + long.len(), &[], &to), Ok(0));
    let mut expected = vec![1, 2, 3];
    expected.extend_from_slice(&long);
    assert_eq!(store.read(&to, 0, usize::MAX), Ok(expected));
}

#[test]
fn append_content_over_the_limit_is_refused() {
    let mut store = PathStore::new();
    let to = boot();
    assert_eq!(
        append_content(&mut store, 2147483647, &[1], &to),
        Err(HostError::ValueTooLarge)
    );
    assert_eq!(
        append_content(&mut store, usize::MAX, &[1], &to),
        Err(HostError::ValueTooLarge)
    );
    assert!(!store.has(&to));
}

#[test]
fn write_kernel_page_keeps_the_running_total() {
    let mut store = PathStore::new();
    let to = boot();
    let mut kernel_size = 0;
    assert_eq!(write_kernel_page(&mut store, &mut kernel_size, &[1, 2, 3], &to), Ok(()));
    assert_eq!(kernel_size, 3);
    assert_eq!(write_kernel_page(&mut store, &mut kernel_size, &[], &to), Ok(()));
    assert_eq!(kernel_size, 3);
    assert_eq!(write_kernel_page(&mut store, &mut kernel_size, &[4], &to), Ok(()));
    assert_eq!(kernel_size, 4);
    assert_eq!(store.read(&to, 0, 10), Ok(vec![1, 2, 3, 4]));
    let mut full = 2147483647;
    assert_eq!(
        write_kernel_page(&mut store, &mut full, &[5], &to),
        Err(HostError::ValueTooLarge)
    );
    assert_eq!(full, 2147483647);
    assert_eq!(store.read(&to, 0, 10), Ok(vec![1, 2, 3, 4]));
}

#[test]
fn reveal_loop_counts_levels_from_the_given_one() {
    let mut table = PreimageTable::new();
    let mut store = PathStore::new();
    let leaf = table.set_preimage(content_page(&[8, 9]));
    let root = table.set_preimage(hashes_page(&[leaf, leaf]));
    let to = boot();
    let mut kernel_size = 0;
    assert_eq!(
        reveal_loop(&table, &mut store, MAX_DAC_LEVELS - 2, &root, &to, &mut kernel_size),
        Ok(())
    );
    assert_eq!(kernel_size, 4);
    assert_eq!(store.read(&to, 0, 10), Ok(vec![8, 9, 8, 9]));
    assert_eq!(
        reveal_loop(&table, &mut store, MAX_DAC_LEVELS - 1, &root, &to, &mut kernel_size),
        Err(HostError::RevealDepthExceeded)
    );
    assert_eq!(
        reveal_loop(&table, &mut store, MAX_DAC_LEVELS, &leaf, &to, &mut kernel_size),
        Err(HostError::RevealDepthExceeded)
    );
    assert_eq!(kernel_size, 4);
    assert_eq!(
        reveal_loop(&table, &mut store, MAX_DAC_LEVELS - 1, &leaf, &to, &mut kernel_size),
        Ok(())
    );
    assert_eq!(kernel_size, 6);
    assert_eq!(store.read(&to, 0, 10), Ok(vec![8, 9, 8, 9, 8, 9]));
}

#[test]
fn a_failed_walk_keeps_the_count_of_what_it_appended() {
    let mut table = PreimageTable::new();
    let mut store = PathStore::new();
    let leaf = table.set_preimage(content_page(&[8, 9, 10]));
    let root = table.set_preimage(hashes_page(&[leaf, [1u8; 32]]));
    let to = boot();
    let mut kernel_size = 0;
    assert_eq!(
        reveal_loop(&table, &mut store, 0, &root, &to, &mut kernel_size),
        Err(HostError::HashNotFound)
    );
    assert_eq!(kernel_size, 3);
    assert_eq!(store.read(&to, 0, 10), Ok(vec![8, 9, 10]));
}

#[test]
fn a_walk_from_below_the_deepest_level_is_refused() {
    let mut table = PreimageTable::new();
    let mut store = PathStore::new();
    let leaf = table.set_preimage(content_page(&[1]));
    let to = boot();
    let mut kernel_size = 0;
    for level in [MAX_DAC_LEVELS, MAX_DAC_LEVELS + 1, usize::MAX] {
        assert_eq!(
            reveal_loop(&table, &mut store, level, &leaf, &to, &mut kernel_size),
            Err(HostError::RevealDepthExceeded)
        );
    }
    assert_eq!(kernel_size, 0);
    assert!(!store.has(&to));
}

#[test]
fn a_walk_that_starts_past_the_limit_appends_nothing() {
    let mut table = PreimageTable::new();
    let mut store = PathStore::new();
    let leaf = table.set_preimage(content_page(&[1]));
    let to = boot();
    let mut kernel_size = usize::MAX;
    assert_eq!(
        reveal_loop(&table, &mut store, 0, &leaf, &to, &mut kernel_size),
        Err(HostError::ValueTooLarge)
    );
    assert_eq!(kernel_size, usize::MAX);
    assert!(!store.has(&to));
}

#[test]
fn empty_content_is_appended_wherever_the_total_stands() {
    let mut store = PathStore::new();
    let to = boot();
    assert_eq!(append_content(&mut store, 2147483647, &[], &to), Ok(0));
    assert_eq!(append_content(&mut store, 2147483648, &[], &to), Ok(0));
    assert_eq!(append_content(&mut store, usize::MAX, &[], &to), Ok(0));
    assert!(!store.has(&to));
    let mut kernel_size = usize::MAX;
    assert_eq!(write_kernel_page(&mut store, &mut kernel_size, &[], &to), Ok(()));
    assert_eq!(kernel_size, usize::MAX);

    let mut table = PreimageTable::new();
    let empty = table.set_preimage(content_page(&[]));
    let root = table.set_preimage(hashes_page(&[empty, empty]));
    assert_eq!(reveal_loop(&table, &mut store, 0, &root, &to, &mut kernel_size), Ok(()));
    assert_eq!(kernel_size, usize::MAX);
    assert!(!store.has(&to));
}

#[test]
fn content_that_fits_to_the_last_byte_is_not_refused_before_the_write() {
    let mut store = PathStore::new();
    let to = boot();
    let content = vec![3u8; MAX_FILE_CHUNK_SIZE + 5];
    assert_eq!(append_content(&mut store, 7, &content, &to), Ok(content.len()));
    let mut expected = vec![0u8; 7];
    expected.extend_from_slice(&content);
    assert_eq!(store.read(&to, 0, usize::MAX), Ok(expected));
    assert_eq!(
        append_content(&mut store, 2147483647, &content, &to),
        Err(HostError::ValueTooLarge)
    );
    assert_eq!(store.value_size(&to), Ok(7 + content.len()));
}
