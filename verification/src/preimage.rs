//! Revealing preimages: the table of registered pages, the single-page
//! lookup, and the walk that rebuilds content of any size from a root hash.
//!
//! A page is one tag byte followed by a payload. Under the content tag the
//! payload is content; under the hashes tag it is a list of hashes of
//! further pages, one level deeper. The walk visits the pages depth first
//! and in listed order, and appends the content it meets to one value of
//! the store.

use vstd::prelude::*;
use crate::assoc::{as_map, distinct_keys, lemma_at, lemma_empty, lemma_push, lemma_remove};
use crate::digest::{blake2b_256, preimage_hash};
use crate::error::HostError;
use crate::limits::{
    MAX_DAC_LEVELS, MAX_FILE_CHUNK_SIZE, MAX_PAGE_SIZE, MAX_VALUE_SIZE, PREIMAGE_HASH_SIZE,
};
use crate::path::{bytes_eq, Path};
use crate::store::{after_write, value_or_empty, written, PathStore, StoreMap};

verus! {

/// The tag of a page whose payload is content.
pub const CONTENT_PAGE_TAG: u8 = 0;

/// The tag of a page whose payload lists the hashes of further pages.
pub const HASHES_PAGE_TAG: u8 = 1;

/// What a table holds: the page registered under each hash.
pub type PageMap = Map<Seq<u8>, Seq<u8>>;

/// The first `max_bytes` bytes of a page, or all of it where it is shorter.
pub open spec fn truncated(page: Seq<u8>, max_bytes: int) -> Seq<u8> {
    if page.len() <= max_bytes {
        page
    } else {
        page.take(max_bytes)
    }
}

/// What a lookup of at most `max_bytes` bytes yields: the start of the page
/// registered under the hash, or a refusal where none is.
pub open spec fn reveal_result(pages: PageMap, hash: Seq<u8>, max_bytes: int) -> Result<
    Seq<u8>,
    HostError,
> {
    if pages.contains_key(hash) {
        Ok(truncated(pages[hash], max_bytes))
    } else {
        Err(HostError::HashNotFound)
    }
}

/// The store after `bytes` were appended to the value under `p`, of which
/// `offset` bytes were appended before. Appending nothing changes nothing.
pub open spec fn appended(m: StoreMap, p: Seq<Seq<u8>>, offset: int, bytes: Seq<u8>) -> StoreMap {
    if bytes.len() == 0 {
        m
    } else {
        after_write(m, p, offset, bytes)
    }
}

/// How many of `len` bytes of content are written before a write is
/// refused, where `kernel_size` bytes were appended before: all of them
/// where all fit, and else the whole chunks that fit.
pub open spec fn accepted_prefix(kernel_size: int, len: int) -> int {
    if len == 0 || kernel_size + len <= MAX_VALUE_SIZE {
        len
    } else if kernel_size > MAX_VALUE_SIZE {
        0
    } else {
        (MAX_VALUE_SIZE - kernel_size) / (MAX_FILE_CHUNK_SIZE as int) * MAX_FILE_CHUNK_SIZE
    }
}

/// Whether `len` bytes of content are appended whole after `kernel_size`
/// bytes: no bytes always are, and else those that fit.
pub open spec fn content_fits(kernel_size: int, len: int) -> bool {
    len == 0 || kernel_size + len <= MAX_VALUE_SIZE
}

/// How a walk went: the content that it appended, in order, by how much
/// the running total grew, and the error that ended it, if one did. The
/// total counts whole pages only: of a page that was refused midway, the
/// chunks written before the refusal are appended and not counted.
pub struct Walk {
    pub bytes: Seq<u8>,
    pub counted: nat,
    pub error: Option<HostError>,
}

/// A walk that ends at once with an error.
pub open spec fn failed(e: HostError) -> Walk {
    Walk { bytes: Seq::empty(), counted: 0, error: Some(e) }
}

/// The walk over one page of content, after `offset` bytes.
pub open spec fn walk_content(content: Seq<u8>, offset: nat) -> Walk {
    if content_fits(offset as int, content.len() as int) {
        Walk { bytes: content, counted: content.len(), error: None }
    } else {
        Walk {
            bytes: content.take(accepted_prefix(offset as int, content.len() as int)),
            counted: 0,
            error: Some(HostError::ValueTooLarge),
        }
    }
}

/// The walk that starts at the page under `hash`, with `levels` levels of
/// pages still allowed and a running total of `offset` bytes.
pub open spec fn walk_page(pages: PageMap, hash: Seq<u8>, levels: nat, offset: nat) -> Walk
    decreases levels, 0nat,
{
    if levels == 0 {
        failed(HostError::RevealDepthExceeded)
    } else if !pages.contains_key(hash) {
        failed(HostError::HashNotFound)
    } else {
        let page = truncated(pages[hash], MAX_PAGE_SIZE as int);
        if page.len() == 0 {
            failed(HostError::InvalidPage)
        } else if page[0] == CONTENT_PAGE_TAG {
            walk_content(page.skip(1), offset)
        } else if page[0] == HASHES_PAGE_TAG {
            if (page.len() - 1) % (PREIMAGE_HASH_SIZE as int) != 0 {
                failed(HostError::InvalidHashLength)
            } else {
                walk_list(pages, page.skip(1), (levels - 1) as nat, offset)
            }
        } else {
            failed(HostError::InvalidPage)
        }
    }
}

/// The walk through the pages under the listed hashes, one after the
/// other, until one of them fails.
pub open spec fn walk_list(pages: PageMap, hashes: Seq<u8>, levels: nat, offset: nat) -> Walk
    decreases levels, 1 + hashes.len(),
{
    if hashes.len() < PREIMAGE_HASH_SIZE {
        Walk { bytes: Seq::empty(), counted: 0, error: None }
    } else {
        let first = walk_page(pages, hashes.take(PREIMAGE_HASH_SIZE as int), levels, offset);
        if first.error is Some {
            first
        } else {
            let rest = walk_list(
                pages,
                hashes.skip(PREIMAGE_HASH_SIZE as int),
                levels,
                offset + first.counted,
            );
            Walk {
                bytes: first.bytes + rest.bytes,
                counted: first.counted + rest.counted,
                error: rest.error,
            }
        }
    }
}

/// A walk that ends well has counted every byte that it appended.
pub proof fn lemma_walk_page_counts(pages: PageMap, hash: Seq<u8>, levels: nat, offset: nat)
    ensures
        walk_page(pages, hash, levels, offset).error is None ==> walk_page(
            pages,
            hash,
            levels,
            offset,
        ).counted == walk_page(pages, hash, levels, offset).bytes.len(),
    decreases levels, 0nat,
{
    if levels > 0 && pages.contains_key(hash) {
        let page = truncated(pages[hash], MAX_PAGE_SIZE as int);
        if page.len() > 0 && page[0] == HASHES_PAGE_TAG && (page.len() - 1) % (
        PREIMAGE_HASH_SIZE as int) == 0 {
            lemma_walk_list_counts(pages, page.skip(1), (levels - 1) as nat, offset);
        }
    }
}

/// A walk through a list that ends well has counted every byte that it
/// appended.
pub proof fn lemma_walk_list_counts(pages: PageMap, hashes: Seq<u8>, levels: nat, offset: nat)
    ensures
        walk_list(pages, hashes, levels, offset).error is None ==> walk_list(
            pages,
            hashes,
            levels,
            offset,
        ).counted == walk_list(pages, hashes, levels, offset).bytes.len(),
    decreases levels, 1 + hashes.len(),
{
    if hashes.len() >= PREIMAGE_HASH_SIZE {
        let first = walk_page(pages, hashes.take(PREIMAGE_HASH_SIZE as int), levels, offset);
        lemma_walk_page_counts(pages, hashes.take(PREIMAGE_HASH_SIZE as int), levels, offset);
        if first.error is None {
            lemma_walk_list_counts(
                pages,
                hashes.skip(PREIMAGE_HASH_SIZE as int),
                levels,
                offset + first.counted,
            );
        }
    }
}

/// Writing two runs of bytes one after the other is writing them as one.
pub proof fn lemma_written_twice(value: Seq<u8>, offset: int, a: Seq<u8>, b: Seq<u8>)
    requires
        0 <= offset,
    ensures
        written(written(value, offset, a), offset + a.len(), b) == written(value, offset, a + b),
{
    assert(written(written(value, offset, a), offset + a.len(), b) =~= written(
        value,
        offset,
        a + b,
    ));
}

/// Appending two runs of bytes one after the other is appending them as
/// one.
pub proof fn lemma_appended_twice(
    m: StoreMap,
    p: Seq<Seq<u8>>,
    offset: int,
    a: Seq<u8>,
    b: Seq<u8>,
)
    requires
        0 <= offset,
    ensures
        appended(appended(m, p, offset, a), p, offset + a.len(), b) == appended(
            m,
            p,
            offset,
            a + b,
        ),
{
    if a.len() == 0 {
        assert(a + b =~= b);
    } else if b.len() == 0 {
        assert(a + b =~= a);
    } else {
        lemma_written_twice(value_or_empty(m, p), offset, a, b);
        assert(appended(appended(m, p, offset, a), p, offset + a.len(), b) =~= appended(
            m,
            p,
            offset,
            a + b,
        ));
    }
}

/// Appending from the first byte puts the bytes in front of what the old
/// value held beyond them: onto a path without a value, or with a shorter
/// one, the value becomes the bytes exactly.
pub proof fn lemma_appended_from_start(m: StoreMap, p: Seq<Seq<u8>>, bytes: Seq<u8>)
    requires
        bytes.len() > 0,
    ensures
        appended(m, p, 0, bytes).contains_key(p),
        appended(m, p, 0, bytes)[p] == bytes + (if value_or_empty(m, p).len() > bytes.len() {
            value_or_empty(m, p).skip(bytes.len() as int)
        } else {
            Seq::empty()
        }),
        value_or_empty(m, p).len() <= bytes.len() ==> appended(m, p, 0, bytes)[p] == bytes,
        forall|k: Seq<Seq<u8>>|
            k != p ==> (#[trigger] appended(m, p, 0, bytes).contains_key(k) == m.contains_key(k))
                && appended(m, p, 0, bytes)[k] == m[k],
{
    let old_value = value_or_empty(m, p);
    let tail = if old_value.len() > bytes.len() {
        old_value.skip(bytes.len() as int)
    } else {
        Seq::empty()
    };
    assert(written(old_value, 0, bytes) =~= bytes + tail);
    assert(bytes + Seq::<u8>::empty() =~= bytes);
}

/// The walk from a content page that is read whole and fits the value
/// appends the payload of the page, counts it, and ends well.
pub proof fn lemma_walk_content_page(pages: PageMap, hash: Seq<u8>, levels: nat, offset: nat)
    requires
        levels > 0,
        pages.contains_key(hash),
        0 < pages[hash].len() <= MAX_PAGE_SIZE,
        pages[hash][0] == CONTENT_PAGE_TAG,
        offset + pages[hash].len() - 1 <= MAX_VALUE_SIZE,
    ensures
        walk_page(pages, hash, levels, offset) == (Walk {
            bytes: pages[hash].skip(1),
            counted: (pages[hash].len() - 1) as nat,
            error: None,
        }),
{
}

/// The walk through a list of hashes is the walk through its first part
/// followed, where that ends well, by the walk through the rest: content
/// comes in listed order.
pub proof fn lemma_walk_list_split(
    pages: PageMap,
    first: Seq<u8>,
    rest: Seq<u8>,
    levels: nat,
    offset: nat,
)
    requires
        first.len() % (PREIMAGE_HASH_SIZE as nat) == 0,
    ensures
        walk_list(pages, first + rest, levels, offset) == ({
            let head = walk_list(pages, first, levels, offset);
            if head.error is Some {
                head
            } else {
                let tail = walk_list(pages, rest, levels, offset + head.counted);
                Walk {
                    bytes: head.bytes + tail.bytes,
                    counted: head.counted + tail.counted,
                    error: tail.error,
                }
            }
        }),
    decreases first.len(),
{
    let size = PREIMAGE_HASH_SIZE as int;
    if first.len() == 0 {
        assert(first + rest =~= rest);
        let tail = walk_list(pages, rest, levels, offset);
        assert(Seq::<u8>::empty() + tail.bytes =~= tail.bytes);
    } else {
        assert(first.len() >= size);
        let one = walk_page(pages, first.take(size), levels, offset);
        assert((first + rest).take(size) =~= first.take(size));
        assert((first + rest).skip(size) =~= first.skip(size) + rest);
        if one.error is None {
            lemma_walk_list_split(pages, first.skip(size), rest, levels, offset + one.counted);
            let middle = walk_list(pages, first.skip(size), levels, offset + one.counted);
            if middle.error is None {
                let tail = walk_list(
                    pages,
                    rest,
                    levels,
                    offset + one.counted + middle.counted,
                );
                assert(one.bytes + (middle.bytes + tail.bytes) =~= (one.bytes + middle.bytes)
                    + tail.bytes);
            }
        }
    }
}

struct Page {
    hash: [u8; 32],
    bytes: Vec<u8>,
}

/// The pairs of hash and page that a sequence of pages stands for.
spec fn pages_model(pages: Seq<Page>) -> Seq<(Seq<u8>, Seq<u8>)> {
    Seq::new(pages.len(), |i: int| (pages[i].hash@, pages[i].bytes@))
}

/// The table of the pages that can be revealed, each under its hash.
pub struct PreimageTable {
    pages: Vec<Page>,
}

impl View for PreimageTable {
    type V = PageMap;

    closed spec fn view(&self) -> PageMap {
        as_map(pages_model(self.pages@))
    }
}

impl PreimageTable {
    /// The table's invariant: no hash is held twice.
    pub closed spec fn wf(&self) -> bool {
        distinct_keys(pages_model(self.pages@))
    }

    /// The empty table.
    pub fn new() -> (r: PreimageTable)
        ensures
            r.wf(),
            r@ == PageMap::empty(),
    {
        let r = PreimageTable { pages: Vec::new() };
        proof {
            lemma_empty(pages_model(r.pages@));
        }
        r
    }

    /// The position of the page registered under the hash.
    fn find(&self, hash: &[u8]) -> (r: Option<usize>)
        requires
            self.wf(),
        ensures
            r matches Some(i) ==> i < self.pages@.len() && self.pages@[i as int].hash@ == hash@
                && self@.contains_key(hash@) && self@[hash@] == self.pages@[i as int].bytes@,
            r is None ==> !self@.contains_key(hash@),
    {
        let mut i: usize = 0;
        while i < self.pages.len()
            invariant
                self.wf(),
                i <= self.pages.len(),
                forall|j: int| 0 <= j < i ==> (#[trigger] pages_model(self.pages@)[j]).0 != hash@,
            decreases self.pages.len() - i,
        {
            if bytes_eq(self.pages[i].hash.as_slice(), hash) {
                proof {
                    lemma_at(pages_model(self.pages@), i as int);
                }
                return Some(i);
            }
            proof {
                assert(pages_model(self.pages@)[i as int].0 == self.pages@[i as int].hash@);
            }
            i += 1;
        }
        None
    }

    /// Registers a page under a hash, in place of the page that was
    /// registered under it, if one was.
    pub fn insert(&mut self, hash: [u8; 32], page: Vec<u8>)
        requires
            old(self).wf(),
        ensures
            final(self).wf(),
            final(self)@ == old(self)@.insert(hash@, page@),
    {
        let ghost before = pages_model(self.pages@);
        match self.find(hash.as_slice()) {
            Some(i) => {
                let _ = self.pages.remove(i);
                proof {
                    assert(pages_model(self.pages@) =~= before.remove(i as int));
                    lemma_remove(before, i as int);
                }
            },
            None => {},
        }
        let ghost mid = pages_model(self.pages@);
        self.pages.push(Page { hash, bytes: page });
        proof {
            assert(pages_model(self.pages@) =~= mid.push((hash@, page@)));
            lemma_push(mid, hash@, page@);
            assert(self@ =~= old(self)@.insert(hash@, page@));
        }
    }

    /// Registers a preimage under its own hash, and returns the hash.
    pub fn set_preimage(&mut self, preimage: Vec<u8>) -> (hash: [u8; 32])
        requires
            old(self).wf(),
        ensures
            final(self).wf(),
            hash@ == blake2b_256(preimage@),
            final(self)@ == old(self)@.insert(hash@, preimage@),
    {
        let hash = preimage_hash(preimage.as_slice());
        self.insert(hash, preimage);
        hash
    }

    /// The first `max_bytes` bytes of the page registered under the hash, or
    /// all of it where it is shorter. Refused where no page is registered
    /// under the hash.
    pub fn reveal_preimage(&self, hash: &[u8], max_bytes: usize) -> (r: Result<&[u8], HostError>)
        requires
            self.wf(),
        ensures
            match r {
                Ok(bytes) => reveal_result(self@, hash@, max_bytes as int) == Ok::<
                    Seq<u8>,
                    HostError,
                >(bytes@),
                Err(e) => reveal_result(self@, hash@, max_bytes as int) == Err::<
                    Seq<u8>,
                    HostError,
                >(e),
            },
    {
        match self.find(hash) {
            Some(i) => {
                let page = self.pages[i].bytes.as_slice();
                if page.len() <= max_bytes {
                    Ok(page)
                } else {
                    Ok(vstd::slice::slice_subrange(page, 0, max_bytes))
                }
            },
            None => Err(HostError::HashNotFound),
        }
    }
}

/// Appends `content` to the value under `reveal_to`, of which `kernel_size`
/// bytes were appended before, in writes of at most one chunk each, and
/// returns the number of bytes appended. It stops at the first write that
/// the store refuses: the chunks written before it stay, and the value is
/// reported as too large.
pub fn append_content(
    store: &mut PathStore,
    kernel_size: usize,
    content: &[u8],
    reveal_to: &Path,
) -> (r: Result<usize, HostError>)
    requires
        old(store).wf(),
        reveal_to.wf(),
    ensures
        final(store).wf(),
        final(store)@ == appended(
            old(store)@,
            reveal_to@,
            kernel_size as int,
            content@.take(accepted_prefix(kernel_size as int, content@.len() as int)),
        ),
        r == (if content_fits(kernel_size as int, content@.len() as int) {
            Ok::<usize, HostError>(content@.len() as usize)
        } else {
            Err::<usize, HostError>(HostError::ValueTooLarge)
        }),
{
    let mut size_written: usize = 0;
    proof {
        assert(content@.take(0) =~= Seq::<u8>::empty());
    }
    while size_written < content.len()
        invariant
            store.wf(),
            reveal_to.wf(),
            size_written <= content.len(),
            size_written % MAX_FILE_CHUNK_SIZE == 0 || size_written == content.len(),
            size_written > 0 ==> kernel_size + size_written <= MAX_VALUE_SIZE,
            store@ == appended(
                old(store)@,
                reveal_to@,
                kernel_size as int,
                content@.take(size_written as int),
            ),
        decreases content.len() - size_written,
    {
        let left = content.len() - size_written;
        let num_to_write = if left < MAX_FILE_CHUNK_SIZE {
            left
        } else {
            MAX_FILE_CHUNK_SIZE
        };
        let bytes_to_write = vstd::slice::slice_subrange(
            content,
            size_written,
            size_written + num_to_write,
        );
        let ghost before = store@;
        proof {
            store.lemma_wf();
        }
        match store.write(reveal_to, kernel_size + size_written, bytes_to_write) {
            Ok(()) => {},
            Err(e) => {
                proof {
                    assert(kernel_size + size_written + num_to_write > MAX_VALUE_SIZE);
                    assert(size_written == accepted_prefix(
                        kernel_size as int,
                        content@.len() as int,
                    ));
                }
                return Err(e);
            },
        }
        proof {
            let done = content@.take(size_written as int);
            assert(store@ == appended(
                before,
                reveal_to@,
                kernel_size + done.len(),
                bytes_to_write@,
            ));
            lemma_appended_twice(
                old(store)@,
                reveal_to@,
                kernel_size as int,
                done,
                bytes_to_write@,
            );
            assert(done + bytes_to_write@ =~= content@.take(size_written + num_to_write));
        }
        size_written += num_to_write;
    }
    proof {
        assert(content@.take(size_written as int) =~= content@);
    }
    Ok(size_written)
}

/// Appends one page of content to the value under `reveal_to`, after the
/// `kernel_size` bytes appended before, and adds its length to
/// `kernel_size`. Where a write is refused, the chunks written before it
/// stay and `kernel_size` is as it was.
pub fn write_kernel_page(
    store: &mut PathStore,
    kernel_size: &mut usize,
    page: &[u8],
    reveal_to: &Path,
) -> (r: Result<(), HostError>)
    requires
        old(store).wf(),
        reveal_to.wf(),
    ensures
        final(store).wf(),
        final(store)@ == appended(
            old(store)@,
            reveal_to@,
            *old(kernel_size) as int,
            walk_content(page@, *old(kernel_size) as nat).bytes,
        ),
        *final(kernel_size) == *old(kernel_size) + walk_content(
            page@,
            *old(kernel_size) as nat,
        ).counted,
        r == (match walk_content(page@, *old(kernel_size) as nat).error {
            Some(e) => Err::<(), HostError>(e),
            None => Ok::<(), HostError>(()),
        }),
{
    proof {
        assert(page@.take(page@.len() as int) =~= page@);
    }
    match append_content(store, *kernel_size, page, reveal_to) {
        Ok(written) => {
            *kernel_size = *kernel_size + written;
            Ok(())
        },
        Err(e) => Err(e),
    }
}

/// The number of levels of pages that a walk may still visit from a page
/// that stands `level` levels below the root.
pub open spec fn levels_left(level: usize) -> nat {
    if level < MAX_DAC_LEVELS {
        (MAX_DAC_LEVELS - level) as nat
    } else {
        0
    }
}

/// Walks the pages from the one under `hash`, which stands `level` levels
/// below the root, and appends their content to the value under
/// `reveal_to`, after the `kernel_size` bytes appended before. Whether the
/// walk ends well or not, the store holds what was appended until it ended,
/// and `kernel_size` has grown by the pages that were appended whole.
pub fn reveal_loop(
    pages: &PreimageTable,
    store: &mut PathStore,
    level: usize,
    hash: &[u8],
    reveal_to: &Path,
    kernel_size: &mut usize,
) -> (r: Result<(), HostError>)
    requires
        pages.wf(),
        old(store).wf(),
        reveal_to.wf(),
    ensures
        final(store).wf(),
        ({
            let walk = walk_page(pages@, hash@, levels_left(level), *old(kernel_size) as nat);
            &&& final(store)@ == appended(
                old(store)@,
                reveal_to@,
                *old(kernel_size) as int,
                walk.bytes,
            )
            &&& *final(kernel_size) == *old(kernel_size) + walk.counted
            &&& *old(kernel_size) <= MAX_VALUE_SIZE ==> *final(kernel_size) <= MAX_VALUE_SIZE
            &&& r == (match walk.error {
                Some(e) => Err::<(), HostError>(e),
                None => Ok::<(), HostError>(()),
            })
        }),
    decreases levels_left(level),
{
    let ghost levels = levels_left(level);
    let ghost start = *kernel_size;
    if level >= MAX_DAC_LEVELS {
        return Err(HostError::RevealDepthExceeded);
    }
    let page = match pages.reveal_preimage(hash, MAX_PAGE_SIZE) {
        Ok(page) => page,
        Err(e) => {
            return Err(e);
        },
    };
    if page.len() == 0 {
        return Err(HostError::InvalidPage);
    }
    let tag = page[0];
    let payload = vstd::slice::slice_subrange(page, 1, page.len());
    proof {
        assert(payload@ =~= page@.skip(1));
    }
    if tag == CONTENT_PAGE_TAG {
        write_kernel_page(store, kernel_size, payload, reveal_to)
    } else if tag == HASHES_PAGE_TAG {
        if payload.len() % PREIMAGE_HASH_SIZE != 0 {
            return Err(HostError::InvalidHashLength);
        }
        let mut at: usize = 0;
        let ghost mut done: Seq<u8> = Seq::empty();
        proof {
            assert(payload@.skip(0) =~= payload@);
        }
        while at < payload.len()
            invariant
                pages.wf(),
                store.wf(),
                reveal_to.wf(),
                level < MAX_DAC_LEVELS,
                levels == levels_left(level),
                at <= payload.len(),
                at % PREIMAGE_HASH_SIZE == 0,
                payload.len() % PREIMAGE_HASH_SIZE == 0,
                start == *old(kernel_size),
                start <= MAX_VALUE_SIZE ==> *kernel_size <= MAX_VALUE_SIZE,
                *kernel_size == start + done.len(),
                walk_page(pages@, hash@, levels, start as nat) == walk_list(
                    pages@,
                    payload@,
                    (levels - 1) as nat,
                    start as nat,
                ),
                store@ == appended(old(store)@, reveal_to@, start as int, done),
                ({
                    let rest = walk_list(
                        pages@,
                        payload@.skip(at as int),
                        (levels - 1) as nat,
                        *kernel_size as nat,
                    );
                    walk_list(pages@, payload@, (levels - 1) as nat, start as nat) == (Walk {
                        bytes: done + rest.bytes,
                        counted: done.len() + rest.counted,
                        error: rest.error,
                    })
                }),
            decreases payload.len() - at,
        {
            let child = vstd::slice::slice_subrange(payload, at, at + PREIMAGE_HASH_SIZE);
            let ghost size_before = *kernel_size;
            let ghost first = walk_page(pages@, child@, (levels - 1) as nat, size_before as nat);
            let ghost here = walk_list(
                pages@,
                payload@.skip(at as int),
                (levels - 1) as nat,
                size_before as nat,
            );
            let ghost rest = walk_list(
                pages@,
                payload@.skip(at + PREIMAGE_HASH_SIZE),
                (levels - 1) as nat,
                (size_before + first.counted) as nat,
            );
            proof {
                assert(child@ =~= payload@.skip(at as int).take(PREIMAGE_HASH_SIZE as int));
                assert(payload@.skip(at as int).skip(PREIMAGE_HASH_SIZE as int) =~= payload@.skip(
                    at + PREIMAGE_HASH_SIZE,
                ));
                assert(here == if first.error is Some {
                    first
                } else {
                    Walk {
                        bytes: first.bytes + rest.bytes,
                        counted: first.counted + rest.counted,
                        error: rest.error,
                    }
                });
                lemma_walk_page_counts(pages@, child@, (levels - 1) as nat, size_before as nat);
                lemma_appended_twice(old(store)@, reveal_to@, start as int, done, first.bytes);
                assert((done + first.bytes) + rest.bytes =~= done + (first.bytes + rest.bytes));
            }
            let walked = reveal_loop(pages, store, level + 1, child, reveal_to, kernel_size);
            proof {
                done = done + first.bytes;
            }
            match walked {
                Ok(()) => {},
                Err(e) => {
                    return Err(e);
                },
            }
            at += PREIMAGE_HASH_SIZE;
        }
        proof {
            assert(payload@.skip(at as int).len() == 0);
            assert(done + Seq::<u8>::empty() =~= done);
        }
        Ok(())
    } else {
        Err(HostError::InvalidPage)
    }
}

} // verus!
