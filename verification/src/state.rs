//! The state of the host: the store, the inbox and outbox, the table of
//! preimages and the rollup's metadata, with the operations that a kernel
//! may call. Paths arrive in their written form and are read first.

use vstd::prelude::*;
use crate::error::HostError;
use crate::inbox::{Inbox, InboxView, Message, MessageView, Outbox};
use crate::limits::{MAX_DAC_LEVELS, PREIMAGE_HASH_SIZE};
use crate::metadata::{encode_metadata, RollupMetadata};
use crate::path::{is_path_bytes, segments_of, Path};
use crate::preimage::{
    appended, reveal_loop, reveal_result, truncated, walk_page, PageMap, PreimageTable,
};
use crate::digest::blake2b_256;
use crate::store::{
    after_write, children, has_below, has_entry, lemma_has_entry_parts, read_result,
    with_subtree_at, without_subtree, write_accepted, PathStore, StoreMap,
};

verus! {

/// The state of the host.
pub struct HostState {
    store: PathStore,
    inbox: Inbox,
    outbox: Outbox,
    preimages: PreimageTable,
    metadata: RollupMetadata,
}

/// There is nothing at the path or below it.
pub const VALUE_TYPE_NONE: i32 = 0;

/// The path holds a value, and nothing lies below it.
pub const VALUE_TYPE_VALUE: i32 = 1;

/// The path holds no value, and values lie below it.
pub const VALUE_TYPE_SUBTREE: i32 = 2;

/// The path holds a value, and values lie below it.
pub const VALUE_TYPE_VALUE_WITH_SUBTREE: i32 = 3;

/// What there is at a path, as one of the four kinds.
pub open spec fn value_type(m: StoreMap, p: Seq<Seq<u8>>) -> i32 {
    if m.contains_key(p) && has_below(m, p) {
        VALUE_TYPE_VALUE_WITH_SUBTREE
    } else if m.contains_key(p) {
        VALUE_TYPE_VALUE
    } else if has_below(m, p) {
        VALUE_TYPE_SUBTREE
    } else {
        VALUE_TYPE_NONE
    }
}

/// The path that raw bytes spell, or the refusal of bytes that spell none.
pub open spec fn path_result(raw: Seq<u8>) -> Result<Seq<Seq<u8>>, HostError> {
    if is_path_bytes(raw) {
        Ok(segments_of(raw))
    } else {
        Err(HostError::InvalidPath)
    }
}

/// Reads a path from its written form.
pub fn validate_path(raw_path: &[u8]) -> (r: Result<Path, HostError>)
    ensures
        match r {
            Ok(path) => path.wf() && path_result(raw_path@) == Ok::<Seq<Seq<u8>>, HostError>(
                path@,
            ),
            Err(e) => path_result(raw_path@) == Err::<Seq<Seq<u8>>, HostError>(e),
        },
{
    match Path::from_bytes(raw_path) {
        Some(path) => Ok(path),
        None => Err(HostError::InvalidPath),
    }
}

impl HostState {
    /// The durable store.
    pub closed spec fn store(&self) -> PathStore {
        self.store
    }

    /// The inbox of the current level.
    pub closed spec fn inbox(&self) -> Inbox {
        self.inbox
    }

    /// What the kernel has emitted.
    pub closed spec fn outbox(&self) -> Outbox {
        self.outbox
    }

    /// The pages that can be revealed.
    pub closed spec fn preimages(&self) -> PreimageTable {
        self.preimages
    }

    /// The rollup's metadata, fixed when the state is made.
    pub closed spec fn metadata(&self) -> RollupMetadata {
        self.metadata
    }

    /// The invariants of the parts.
    pub open spec fn wf(&self) -> bool {
        &&& self.store().wf()
        &&& self.inbox().wf()
        &&& self.outbox().wf()
        &&& self.preimages().wf()
    }

    /// Nothing but the store differs between the two states.
    pub open spec fn same_but_store(&self, other: &HostState) -> bool {
        &&& self.inbox() == other.inbox()
        &&& self.outbox() == other.outbox()
        &&& self.preimages() == other.preimages()
        &&& self.metadata() == other.metadata()
    }

    /// A state at level 0 with an empty store, no messages and no pages.
    pub fn default_with_metadata(metadata: RollupMetadata) -> (r: HostState)
        ensures
            r.wf(),
            r.metadata() == metadata,
            r.store()@ == StoreMap::empty(),
            r.inbox()@ == (InboxView { level: 0, messages: Seq::empty(), delivered: 0 }),
            r.outbox()@ == Seq::<Seq<u8>>::empty(),
            r.preimages()@ == PageMap::empty(),
    {
        HostState {
            store: PathStore::new(),
            inbox: Inbox::new(0),
            outbox: Outbox::new(),
            preimages: PreimageTable::new(),
            metadata,
        }
    }

    /// The rollup's metadata.
    pub fn get_metadata(&self) -> (r: &RollupMetadata)
        ensures
            *r == self.metadata(),
    {
        &self.metadata
    }

    /// The encoding of the rollup's metadata.
    pub fn reveal_metadata(&self) -> (r: [u8; 24])
        ensures
            r@ == encode_metadata(
                self.metadata().raw_rollup_address@,
                self.metadata().origination_level as int,
            ),
    {
        self.metadata.to_bytes()
    }

    /// The current level.
    pub fn level(&self) -> (r: u32)
        ensures
            r == self.inbox()@.level,
    {
        self.inbox.level()
    }

    /// Adds a message to the inbox of the current level. Refused, with the
    /// state unchanged, where the message is over the size limit.
    pub fn add_input(&mut self, input: Vec<u8>) -> (r: Result<(), HostError>)
        requires
            old(self).wf(),
        ensures
            final(self).wf(),
            final(self).store() == old(self).store(),
            final(self).outbox() == old(self).outbox(),
            final(self).preimages() == old(self).preimages(),
            final(self).metadata() == old(self).metadata(),
            r == old(self).inbox().add_input_result(input@),
            final(self).inbox()@ == (if r is Ok {
                old(self).inbox()@.after_add(input@)
            } else {
                old(self).inbox()@
            }),
    {
        self.inbox.add_input(input)
    }

    /// Moves on to the next level, which starts without messages.
    pub fn advance_level(&mut self)
        requires
            old(self).wf(),
            old(self).inbox()@.level < u32::MAX,
        ensures
            final(self).wf(),
            final(self).store() == old(self).store(),
            final(self).outbox() == old(self).outbox(),
            final(self).preimages() == old(self).preimages(),
            final(self).metadata() == old(self).metadata(),
            final(self).inbox()@ == old(self).inbox()@.after_advance(),
    {
        self.inbox.advance_level()
    }

    /// Registers a preimage under its own hash, and returns the hash.
    pub fn set_preimage(&mut self, preimage: Vec<u8>) -> (hash: [u8; 32])
        requires
            old(self).wf(),
        ensures
            final(self).wf(),
            final(self).store() == old(self).store(),
            final(self).inbox() == old(self).inbox(),
            final(self).outbox() == old(self).outbox(),
            final(self).metadata() == old(self).metadata(),
            hash@ == blake2b_256(preimage@),
            final(self).preimages()@ == old(self).preimages()@.insert(hash@, preimage@),
    {
        self.preimages.set_preimage(preimage)
    }

    /// Delivers the next message of the current level, cut to `max_bytes`
    /// bytes, or nothing once all are delivered.
    pub fn handle_read_input(&mut self, max_bytes: usize) -> (r: Option<Message>)
        requires
            old(self).wf(),
        ensures
            final(self).wf(),
            final(self).store() == old(self).store(),
            final(self).outbox() == old(self).outbox(),
            final(self).preimages() == old(self).preimages(),
            final(self).metadata() == old(self).metadata(),
            final(self).inbox()@ == old(self).inbox()@.after_read(),
            match r {
                Some(message) => old(self).inbox()@.next_message() matches Some(next) && message@
                    == (MessageView { payload: truncated(next.payload, max_bytes as int), ..next }),
                None => old(self).inbox()@.next_message() == None::<MessageView>,
            },
    {
        match self.inbox.read_input() {
            Some(message) => {
                let Message { level, id, payload } = message;
                let ghost whole = payload@;
                let mut payload = payload;
                payload.truncate(max_bytes);
                proof {
                    assert(payload@ =~= truncated(whole, max_bytes as int));
                }
                Some(Message { level, id, payload })
            },
            None => None,
        }
    }

    /// Appends a message to the outbox. Refused, with the state unchanged,
    /// where the message is over the size limit.
    pub fn handle_write_output(&mut self, output: Vec<u8>) -> (r: Result<(), HostError>)
        requires
            old(self).wf(),
        ensures
            final(self).wf(),
            final(self).store() == old(self).store(),
            final(self).inbox() == old(self).inbox(),
            final(self).preimages() == old(self).preimages(),
            final(self).metadata() == old(self).metadata(),
            r == old(self).outbox().write_output_result(output@),
            final(self).outbox()@ == (if r is Ok {
                old(self).outbox()@.push(output@)
            } else {
                old(self).outbox()@
            }),
    {
        self.outbox.write_output(output)
    }

    /// The number of messages emitted so far.
    pub fn outbox_len(&self) -> (r: usize)
        ensures
            r == self.outbox()@.len(),
    {
        self.outbox.len()
    }

    /// The message emitted at position `i`.
    pub fn outbox_message(&self, i: usize) -> (r: &[u8])
        requires
            i < self.outbox()@.len(),
        ensures
            r@ == self.outbox()@[i as int],
    {
        self.outbox.message(i)
    }

    /// What there is at the path: nothing, a value, values below it, or
    /// both. There is something exactly when the path, or some path below
    /// it, holds a value.
    pub fn handle_store_has(&self, raw_path: &[u8]) -> (r: Result<i32, HostError>)
        requires
            self.wf(),
        ensures
            r == (match path_result(raw_path@) {
                Ok(path) => Ok::<i32, HostError>(value_type(self.store()@, path)),
                Err(e) => Err::<i32, HostError>(e),
            }),
            r matches Ok(kind) ==> (kind != VALUE_TYPE_NONE) == has_entry(
                self.store()@,
                segments_of(raw_path@),
            ),
    {
        match validate_path(raw_path) {
            Ok(path) => {
                proof {
                    lemma_has_entry_parts(self.store()@, path@);
                }
                let value = self.store.has_value(&path);
                let subtree = self.store.has_subtree(&path);
                if value && subtree {
                    Ok(VALUE_TYPE_VALUE_WITH_SUBTREE)
                } else if value {
                    Ok(VALUE_TYPE_VALUE)
                } else if subtree {
                    Ok(VALUE_TYPE_SUBTREE)
                } else {
                    Ok(VALUE_TYPE_NONE)
                }
            },
            Err(e) => Err(e),
        }
    }

    /// Reads at most `max_bytes` bytes of the path's own value, starting at
    /// `offset`.
    pub fn handle_store_read(&self, raw_path: &[u8], offset: usize, max_bytes: usize) -> (r: Result<
        Vec<u8>,
        HostError,
    >)
        requires
            self.wf(),
        ensures
            match r {
                Ok(bytes) => path_result(raw_path@) matches Ok(path) && read_result(
                    self.store()@,
                    path,
                    offset as int,
                    max_bytes as int,
                ) == Ok::<Seq<u8>, HostError>(bytes@),
                Err(e) => match path_result(raw_path@) {
                    Ok(path) => read_result(self.store()@, path, offset as int, max_bytes as int)
                        == Err::<Seq<u8>, HostError>(e),
                    Err(invalid) => e == invalid,
                },
            },
    {
        match validate_path(raw_path) {
            Ok(path) => self.store.read(&path, offset, max_bytes),
            Err(e) => Err(e),
        }
    }

    /// Writes `bytes` into the path's own value at `offset`, creating the
    /// value where the path has none. A refusal leaves the state unchanged.
    pub fn handle_store_write(&mut self, raw_path: &[u8], offset: usize, bytes: &[u8]) -> (r:
        Result<(), HostError>)
        requires
            old(self).wf(),
        ensures
            final(self).wf(),
            final(self).same_but_store(old(self)),
            match path_result(raw_path@) {
                Ok(path) => if write_accepted(
                    old(self).store()@,
                    path,
                    offset as int,
                    bytes@.len() as int,
                ) {
                    r == Ok::<(), HostError>(()) && final(self).store()@ == after_write(
                        old(self).store()@,
                        path,
                        offset as int,
                        bytes@,
                    )
                } else {
                    r == Err::<(), HostError>(HostError::ValueTooLarge) && final(self).store()@
                        == old(self).store()@
                },
                Err(e) => r == Err::<(), HostError>(e) && final(self).store()@ == old(
                    self,
                ).store()@,
            },
    {
        match validate_path(raw_path) {
            Ok(path) => self.store.write(&path, offset, bytes),
            Err(e) => Err(e),
        }
    }

    /// Removes the path's own value and every value below the path. A
    /// refusal leaves the state unchanged.
    pub fn handle_store_delete(&mut self, raw_path: &[u8]) -> (r: Result<(), HostError>)
        requires
            old(self).wf(),
        ensures
            final(self).wf(),
            final(self).same_but_store(old(self)),
            match path_result(raw_path@) {
                Ok(path) => if has_entry(old(self).store()@, path) {
                    r == Ok::<(), HostError>(()) && final(self).store()@ == without_subtree(
                        old(self).store()@,
                        path,
                    )
                } else {
                    r == Err::<(), HostError>(HostError::PathNotFound) && final(self).store()@
                        == old(self).store()@
                },
                Err(e) => r == Err::<(), HostError>(e) && final(self).store()@ == old(
                    self,
                ).store()@,
            },
    {
        match validate_path(raw_path) {
            Ok(path) => self.store.delete(&path),
            Err(e) => Err(e),
        }
    }

    /// The number of distinct segments directly below the path that lead to
    /// a value.
    pub fn handle_store_list_size(&self, raw_path: &[u8]) -> (r: Result<usize, HostError>)
        requires
            self.wf(),
        ensures
            match r {
                Ok(count) => path_result(raw_path@) matches Ok(path) && count == children(
                    self.store()@,
                    path,
                ).len(),
                Err(e) => path_result(raw_path@) == Err::<Seq<Seq<u8>>, HostError>(e),
            },
    {
        match validate_path(raw_path) {
            Ok(path) => Ok(self.store.list_size(&path)),
            Err(e) => Err(e),
        }
    }

    /// Moves the value at `from_path` and every value below it to
    /// `to_path`, replacing what was there. A refusal leaves the state
    /// unchanged.
    pub fn handle_store_move(&mut self, from_path: &[u8], to_path: &[u8]) -> (r: Result<
        (),
        HostError,
    >)
        requires
            old(self).wf(),
        ensures
            final(self).wf(),
            final(self).same_but_store(old(self)),
            r == transfer_result(old(self).store()@, from_path@, to_path@),
            final(self).store()@ == (if r is Ok {
                with_subtree_at(
                    old(self).store()@,
                    segments_of(from_path@),
                    segments_of(to_path@),
                    false,
                )
            } else {
                old(self).store()@
            }),
    {
        let from = match validate_path(from_path) {
            Ok(path) => path,
            Err(e) => {
                return Err(e);
            },
        };
        let to = match validate_path(to_path) {
            Ok(path) => path,
            Err(e) => {
                return Err(e);
            },
        };
        self.store.move_subtree(&from, &to)
    }

    /// Copies the value at `from_path` and every value below it to
    /// `to_path`, replacing what was there. A refusal leaves the state
    /// unchanged.
    pub fn handle_store_copy(&mut self, from_path: &[u8], to_path: &[u8]) -> (r: Result<
        (),
        HostError,
    >)
        requires
            old(self).wf(),
        ensures
            final(self).wf(),
            final(self).same_but_store(old(self)),
            r == transfer_result(old(self).store()@, from_path@, to_path@),
            final(self).store()@ == (if r is Ok {
                with_subtree_at(
                    old(self).store()@,
                    segments_of(from_path@),
                    segments_of(to_path@),
                    true,
                )
            } else {
                old(self).store()@
            }),
    {
        let from = match validate_path(from_path) {
            Ok(path) => path,
            Err(e) => {
                return Err(e);
            },
        };
        let to = match validate_path(to_path) {
            Ok(path) => path,
            Err(e) => {
                return Err(e);
            },
        };
        self.store.copy_subtree(&from, &to)
    }

    /// The length of the path's own value.
    pub fn handle_store_value_size(&self, raw_path: &[u8]) -> (r: Result<usize, HostError>)
        requires
            self.wf(),
        ensures
            r == (match path_result(raw_path@) {
                Ok(path) => if self.store()@.contains_key(path) {
                    Ok::<usize, HostError>(self.store()@[path].len() as usize)
                } else {
                    Err::<usize, HostError>(HostError::NotAValue)
                },
                Err(e) => Err::<usize, HostError>(e),
            }),
            r matches Ok(size) ==> size == self.store()@[segments_of(raw_path@)].len(),
    {
        match validate_path(raw_path) {
            Ok(path) => self.store.value_size(&path),
            Err(e) => Err(e),
        }
    }

    /// The first `max_bytes` bytes of the page registered under the hash, or
    /// all of it where it is shorter. Refused where the hash has not the
    /// length of a hash, or no page is registered under it.
    pub fn handle_reveal_preimage(&self, hash: &[u8], max_bytes: usize) -> (r: Result<
        Vec<u8>,
        HostError,
    >)
        requires
            self.wf(),
        ensures
            match r {
                Ok(bytes) => hash@.len() == PREIMAGE_HASH_SIZE && reveal_result(
                    self.preimages()@,
                    hash@,
                    max_bytes as int,
                ) == Ok::<Seq<u8>, HostError>(bytes@),
                Err(e) => if hash@.len() == PREIMAGE_HASH_SIZE {
                    reveal_result(self.preimages()@, hash@, max_bytes as int) == Err::<
                        Seq<u8>,
                        HostError,
                    >(e)
                } else {
                    e == HostError::InvalidHashLength
                },
            },
    {
        if hash.len() != PREIMAGE_HASH_SIZE {
            return Err(HostError::InvalidHashLength);
        }
        match self.preimages.reveal_preimage(hash, max_bytes) {
            Ok(bytes) => Ok(vstd::slice::slice_to_vec(bytes)),
            Err(e) => Err(e),
        }
    }
}

/// Whether a move or copy between two written paths is carried out: it is
/// refused where either spells no path, `from` first, and where `from` has
/// neither a value nor a value below it.
pub open spec fn transfer_result(m: StoreMap, from: Seq<u8>, to: Seq<u8>) -> Result<(), HostError> {
    if !is_path_bytes(from) || !is_path_bytes(to) {
        Err(HostError::InvalidPath)
    } else if !has_entry(m, segments_of(from)) {
        Err(HostError::PathNotFound)
    } else {
        Ok(())
    }
}

/// Rebuilds the content below a root hash and appends it, in the order of
/// the walk, to the value under `reveal_to`, starting at its first byte.
/// The walk goes at most as deep as reveals may nest. Whether it ends well
/// or not, the store holds what was appended until it ended, and nothing
/// else of the state has changed.
pub fn reveal_root_hash(host: &mut HostState, root_hash: &[u8; 32], reveal_to: &Path) -> (r: Result<
    (),
    HostError,
>)
    requires
        old(host).wf(),
        reveal_to.wf(),
    ensures
        final(host).wf(),
        final(host).same_but_store(old(host)),
        ({
            let walk = walk_page(old(host).preimages()@, root_hash@, MAX_DAC_LEVELS as nat, 0);
            &&& final(host).store()@ == appended(old(host).store()@, reveal_to@, 0, walk.bytes)
            &&& r == (match walk.error {
                Some(e) => Err::<(), HostError>(e),
                None => Ok::<(), HostError>(()),
            })
        }),
{
    let mut kernel_size: usize = 0;
    reveal_loop(
        &host.preimages,
        &mut host.store,
        0,
        root_hash.as_slice(),
        reveal_to,
        &mut kernel_size,
    )
}

impl Default for HostState {
    /// A state at level 0, empty but for the metadata of a rollup with the
    /// zero address, originated at level 0.
    fn default() -> (r: HostState)
        ensures
            r.wf(),
            r.metadata().raw_rollup_address@ == Seq::new(20, |i: int| 0u8),
            r.metadata().origination_level == 0,
            r.store()@ == StoreMap::empty(),
            r.inbox()@ == (InboxView { level: 0, messages: Seq::empty(), delivered: 0 }),
            r.outbox()@ == Seq::<Seq<u8>>::empty(),
            r.preimages()@ == PageMap::empty(),
    {
        let address = [0u8; 20];
        assert(address@ =~= Seq::new(20, |i: int| 0u8));
        HostState::default_with_metadata(
            RollupMetadata { raw_rollup_address: address, origination_level: 0 },
        )
    }
}

} // verus!
