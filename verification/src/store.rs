//! The durable store: values held under paths.
//!
//! A path may hold a value of its own and, at the same time, have paths
//! below it that hold values: the two are independent.

use vstd::prelude::*;
use crate::assoc::{
    as_map, distinct_keys, has_key, index_of, lemma_at, lemma_empty, lemma_finite, lemma_push,
    lemma_remove,
};
use crate::error::HostError;
use crate::limits::MAX_VALUE_SIZE;
use crate::path::{bytes_eq, is_ancestor_or_self, lemma_rebase_inverse, rebased, valid_path, Path};

verus! {

/// What a store holds: the value under each path that has one.
pub type StoreMap = Map<Seq<Seq<u8>>, Seq<u8>>;

/// The path, or some path below it, holds a value.
pub open spec fn has_entry(m: StoreMap, p: Seq<Seq<u8>>) -> bool {
    exists|k: Seq<Seq<u8>>| m.contains_key(k) && #[trigger] is_ancestor_or_self(p, k)
}

/// Some path below the path, not the path itself, holds a value.
pub open spec fn has_below(m: StoreMap, p: Seq<Seq<u8>>) -> bool {
    exists|k: Seq<Seq<u8>>|
        m.contains_key(k) && #[trigger] is_ancestor_or_self(p, k) && k.len() > p.len()
}

/// The value under the path, or no bytes where it holds none.
pub open spec fn value_or_empty(m: StoreMap, p: Seq<Seq<u8>>) -> Seq<u8> {
    if m.contains_key(p) {
        m[p]
    } else {
        Seq::empty()
    }
}

/// The length of a value after `count` bytes are written at `offset`.
pub open spec fn written_len(old_len: int, offset: int, count: int) -> int {
    if old_len >= offset + count {
        old_len
    } else {
        offset + count
    }
}

/// A value after `bytes` are written at `offset`: the bytes stand at
/// `offset`, the rest of the old value stays, and a gap between the old end
/// and `offset` holds zeros.
pub open spec fn written(old_value: Seq<u8>, offset: int, bytes: Seq<u8>) -> Seq<u8> {
    Seq::new(
        written_len(old_value.len() as int, offset, bytes.len() as int) as nat,
        |i: int|
            if offset <= i < offset + bytes.len() {
                bytes[i - offset]
            } else if i < old_value.len() {
                old_value[i]
            } else {
                0u8
            },
    )
}

/// The bytes that a read of at most `max_len` bytes at `offset` yields: those
/// of the value that lie in the window, none where the window starts past
/// its end.
pub open spec fn read_slice(value: Seq<u8>, offset: int, max_len: int) -> Seq<u8> {
    let start = if offset < value.len() {
        offset
    } else {
        value.len() as int
    };
    let end = if offset + max_len < value.len() {
        offset + max_len
    } else {
        value.len() as int
    };
    value.subrange(start, end)
}

/// What a read of the path yields: the window of its own value, or a refusal
/// where it has none.
pub open spec fn read_result(m: StoreMap, p: Seq<Seq<u8>>, offset: int, max_len: int) -> Result<
    Seq<u8>,
    HostError,
> {
    if m.contains_key(p) {
        Ok(read_slice(m[p], offset, max_len))
    } else {
        Err(HostError::NotAValue)
    }
}

/// A write of `count` bytes at `offset` is accepted where it leaves the value
/// no longer than the store admits.
pub open spec fn write_accepted(m: StoreMap, p: Seq<Seq<u8>>, offset: int, count: int) -> bool {
    written_len(value_or_empty(m, p).len() as int, offset, count) <= MAX_VALUE_SIZE
}

/// The store after an accepted write.
pub open spec fn after_write(
    m: StoreMap,
    p: Seq<Seq<u8>>,
    offset: int,
    bytes: Seq<u8>,
) -> StoreMap {
    m.insert(p, written(value_or_empty(m, p), offset, bytes))
}

/// The store without the path and without everything below it.
pub open spec fn without_subtree(m: StoreMap, p: Seq<Seq<u8>>) -> StoreMap {
    Map::new(
        |k: Seq<Seq<u8>>| m.contains_key(k) && !is_ancestor_or_self(p, k),
        |k: Seq<Seq<u8>>| m[k],
    )
}

/// The store after the subtree at `from` has been put at `to`, replacing
/// whatever was at `to` and below. With `keep_source` the subtree also stays
/// where it was (a copy); without, it leaves (a move).
pub open spec fn with_subtree_at(
    m: StoreMap,
    from: Seq<Seq<u8>>,
    to: Seq<Seq<u8>>,
    keep_source: bool,
) -> StoreMap {
    Map::new(
        |k: Seq<Seq<u8>>|
            if is_ancestor_or_self(to, k) {
                m.contains_key(rebased(k, to.len() as int, from))
            } else {
                m.contains_key(k) && (keep_source || !is_ancestor_or_self(from, k))
            },
        |k: Seq<Seq<u8>>|
            if is_ancestor_or_self(to, k) {
                m[rebased(k, to.len() as int, from)]
            } else {
                m[k]
            },
    )
}

/// The segments that, appended to `p`, lead to a value: the names of the
/// children of `p`.
pub open spec fn children(m: StoreMap, p: Seq<Seq<u8>>) -> Set<Seq<u8>> {
    Set::new(
        |c: Seq<u8>|
            exists|k: Seq<Seq<u8>>|
                m.contains_key(k) && #[trigger] is_ancestor_or_self(p, k) && k.len() > p.len()
                    && k[p.len() as int] == c,
    )
}

struct Entry {
    path: Path,
    value: Vec<u8>,
}

/// The pairs of path and value that a sequence of entries stands for.
spec fn entries_model(entries: Seq<Entry>) -> Seq<(Seq<Seq<u8>>, Seq<u8>)> {
    Seq::new(entries.len(), |i: int| (entries[i].path@, entries[i].value@))
}

/// Every entry has a valid path and a value that the store admits.
spec fn entries_bounded(entries: Seq<Entry>) -> bool {
    forall|i: int|
        0 <= i < entries.len() ==> (#[trigger] entries[i]).path.wf() && entries[i].value@.len()
            <= MAX_VALUE_SIZE
}

/// The durable store.
pub struct PathStore {
    entries: Vec<Entry>,
}

impl View for PathStore {
    type V = StoreMap;

    closed spec fn view(&self) -> StoreMap {
        as_map(self.model())
    }
}

/// Writes `bytes` into `value` at `offset`, growing it as needed.
fn write_at(value: &mut Vec<u8>, offset: usize, bytes: &[u8])
    requires
        offset + bytes.len() <= usize::MAX,
    ensures
        final(value)@ == written(old(value)@, offset as int, bytes@),
{
    let ghost before = value@;
    while value.len() < offset
        invariant
            before.len() <= value.len(),
            value.len() <= offset || value.len() == before.len(),
            forall|i: int| 0 <= i < before.len() ==> value@[i] == before[i],
            forall|i: int| before.len() <= i < value.len() ==> value@[i] == 0u8,
        decreases offset - value.len(),
    {
        value.push(0u8);
    }
    let mut i: usize = 0;
    while i < bytes.len()
        invariant
            i <= bytes.len(),
            offset + bytes.len() <= usize::MAX,
            value.len() >= offset,
            value.len() == written_len(before.len() as int, offset as int, i as int),
            forall|j: int| 0 <= j < offset && j < before.len() ==> value@[j] == before[j],
            forall|j: int| before.len() <= j < offset ==> value@[j] == 0u8,
            forall|j: int| offset <= j < offset + i ==> value@[j] == bytes@[j - offset],
            forall|j: int|
                offset + i <= j < value.len() ==> j < before.len() && value@[j] == before[j],
        decreases bytes.len() - i,
    {
        if offset + i < value.len() {
            value[offset + i] = bytes[i];
        } else {
            value.push(bytes[i]);
        }
        i += 1;
    }
    assert(value@ =~= written(before, offset as int, bytes@));
}

impl PathStore {
    closed spec fn model(&self) -> Seq<(Seq<Seq<u8>>, Seq<u8>)> {
        entries_model(self.entries@)
    }

    /// The store's invariant: no path is held twice, every path is valid, and
    /// no value is longer than the store admits.
    pub closed spec fn wf(&self) -> bool {
        &&& distinct_keys(self.model())
        &&& entries_bounded(self.entries@)
    }

    /// What the invariant says of the store's contents.
    pub proof fn lemma_wf(&self)
        requires
            self.wf(),
        ensures
            self@.dom().finite(),
            forall|k: Seq<Seq<u8>>|
                self@.contains_key(k) ==> valid_path(k) && (#[trigger] self@[k]).len()
                    <= MAX_VALUE_SIZE,
    {
        lemma_finite(self.model());
        assert forall|k: Seq<Seq<u8>>| self@.contains_key(k) implies valid_path(k) && (
        #[trigger] self@[k]).len() <= MAX_VALUE_SIZE by {
            let i = index_of(self.model(), k);
            lemma_at(self.model(), i);
            assert(self.entries@[i].path.wf());
        }
    }

    /// The empty store.
    pub fn new() -> (r: PathStore)
        ensures
            r.wf(),
            r@ == StoreMap::empty(),
    {
        let r = PathStore { entries: Vec::new() };
        proof {
            lemma_empty(r.model());
        }
        r
    }

    /// The position of the entry that holds the path's own value.
    fn find(&self, path: &Path) -> (r: Option<usize>)
        requires
            self.wf(),
        ensures
            r matches Some(i) ==> i < self.entries@.len() && self.entries@[i as int].path@ == path@
                && self@.contains_key(path@) && self@[path@] == self.entries@[i as int].value@,
            r is None ==> !self@.contains_key(path@),
    {
        let mut i: usize = 0;
        while i < self.entries.len()
            invariant
                self.wf(),
                i <= self.entries.len(),
                forall|j: int| 0 <= j < i ==> (#[trigger] self.model()[j]).0 != path@,
            decreases self.entries.len() - i,
        {
            if self.entries[i].path.same_as(path) {
                proof {
                    lemma_at(self.model(), i as int);
                }
                return Some(i);
            }
            proof {
                assert(self.model()[i as int].0 == self.entries@[i as int].path@);
            }
            i += 1;
        }
        None
    }

    /// Whether the path, or some path below it, holds a value.
    pub fn has(&self, path: &Path) -> (r: bool)
        requires
            self.wf(),
        ensures
            r == has_entry(self@, path@),
    {
        let mut i: usize = 0;
        while i < self.entries.len()
            invariant
                self.wf(),
                i <= self.entries.len(),
                forall|j: int|
                    0 <= j < i ==> !is_ancestor_or_self(path@, (#[trigger] self.model()[j]).0),
            decreases self.entries.len() - i,
        {
            if self.entries[i].path.starts_with(path) {
                proof {
                    lemma_at(self.model(), i as int);
                    assert(is_ancestor_or_self(path@, self.model()[i as int].0));
                }
                return true;
            }
            proof {
                assert(self.model()[i as int].0 == self.entries@[i as int].path@);
            }
            i += 1;
        }
        proof {
            if has_entry(self@, path@) {
                let k = choose|k: Seq<Seq<u8>>|
                    self@.contains_key(k) && #[trigger] is_ancestor_or_self(path@, k);
                let j = index_of(self.model(), k);
                assert(self.model()[j].0 == k);
            }
        }
        false
    }

    /// Whether the path holds a value of its own.
    pub fn has_value(&self, path: &Path) -> (r: bool)
        requires
            self.wf(),
        ensures
            r == self@.contains_key(path@),
    {
        self.find(path).is_some()
    }

    /// Whether some path below the path holds a value.
    pub fn has_subtree(&self, path: &Path) -> (r: bool)
        requires
            self.wf(),
        ensures
            r == has_below(self@, path@),
    {
        let depth = path.len();
        let mut i: usize = 0;
        while i < self.entries.len()
            invariant
                self.wf(),
                depth == path@.len(),
                i <= self.entries.len(),
                forall|j: int|
                    0 <= j < i ==> !(is_ancestor_or_self(path@, (#[trigger] self.model()[j]).0)
                        && self.model()[j].0.len() > depth),
            decreases self.entries.len() - i,
        {
            let key = &self.entries[i].path;
            proof {
                assert(self.model()[i as int].0 == key@);
            }
            if key.len() > depth && key.starts_with(path) {
                proof {
                    lemma_at(self.model(), i as int);
                    assert(is_ancestor_or_self(path@, self.model()[i as int].0));
                }
                return true;
            }
            i += 1;
        }
        proof {
            if has_below(self@, path@) {
                let k = choose|k: Seq<Seq<u8>>|
                    self@.contains_key(k) && #[trigger] is_ancestor_or_self(path@, k) && k.len()
                        > path@.len();
                let j = index_of(self.model(), k);
                assert(self.model()[j].0 == k);
            }
        }
        false
    }

    /// The length of the path's own value.
    pub fn value_size(&self, path: &Path) -> (r: Result<usize, HostError>)
        requires
            self.wf(),
        ensures
            r == (if self@.contains_key(path@) {
                Ok::<usize, HostError>(self@[path@].len() as usize)
            } else {
                Err::<usize, HostError>(HostError::NotAValue)
            }),
            r matches Ok(n) ==> n == self@[path@].len() && n <= MAX_VALUE_SIZE,
    {
        match self.find(path) {
            Some(i) => Ok(self.entries[i].value.len()),
            None => Err(HostError::NotAValue),
        }
    }

    /// Reads at most `max_len` bytes of the path's own value, starting at
    /// `offset`. A window that reaches past the end yields the bytes that are
    /// there; one that starts past the end yields none.
    pub fn read(&self, path: &Path, offset: usize, max_len: usize) -> (r: Result<
        Vec<u8>,
        HostError,
    >)
        requires
            self.wf(),
        ensures
            match r {
                Ok(bytes) => read_result(self@, path@, offset as int, max_len as int) == Ok::<
                    Seq<u8>,
                    HostError,
                >(bytes@),
                Err(e) => read_result(self@, path@, offset as int, max_len as int) == Err::<
                    Seq<u8>,
                    HostError,
                >(e),
            },
    {
        match self.find(path) {
            Some(i) => {
                let value = &self.entries[i].value;
                let len = value.len();
                let start = if offset < len {
                    offset
                } else {
                    len
                };
                let end = if max_len < len - start {
                    start + max_len
                } else {
                    len
                };
                let window = vstd::slice::slice_subrange(value.as_slice(), start, end);
                Ok(vstd::slice::slice_to_vec(window))
            },
            None => Err(HostError::NotAValue),
        }
    }

    /// Writes `bytes` into the path's own value at `offset`, creating the
    /// value where the path has none. Refused, with the store unchanged,
    /// where the value would become longer than the store admits.
    pub fn write(&mut self, path: &Path, offset: usize, bytes: &[u8]) -> (r: Result<(), HostError>)
        requires
            old(self).wf(),
            path.wf(),
        ensures
            final(self).wf(),
            !write_accepted(old(self)@, path@, offset as int, bytes@.len() as int) ==> r == Err::<
                (),
                HostError,
            >(HostError::ValueTooLarge) && final(self)@ == old(self)@,
            write_accepted(old(self)@, path@, offset as int, bytes@.len() as int) ==> r == Ok::<
                (),
                HostError,
            >(()) && final(self)@ == after_write(old(self)@, path@, offset as int, bytes@),
    {
        if offset > MAX_VALUE_SIZE || bytes.len() > MAX_VALUE_SIZE - offset {
            proof {
                self.lemma_wf();
            }
            return Err(HostError::ValueTooLarge);
        }
        let ghost before = self.model();
        match self.find(path) {
            Some(i) => {
                let entry = self.entries.remove(i);
                proof {
                    assert(self.model() =~= before.remove(i as int));
                    lemma_remove(before, i as int);
                }
                let Entry { path: key, value } = entry;
                let mut value = value;
                write_at(&mut value, offset, bytes);
                let ghost mid = self.model();
                self.entries.push(Entry { path: key, value });
                proof {
                    assert(self.model() =~= mid.push((path@, value@)));
                    lemma_push(mid, path@, value@);
                    assert(self@ =~= old(self)@.insert(path@, value@));
                }
            },
            None => {
                let mut value: Vec<u8> = Vec::new();
                write_at(&mut value, offset, bytes);
                self.entries.push(Entry { path: path.clone(), value });
                proof {
                    assert(self.model() =~= before.push((path@, value@)));
                    lemma_push(before, path@, value@);
                }
            },
        }
        Ok(())
    }

    /// Takes out every entry at or below the path; says whether there was one.
    fn remove_subtree(&mut self, path: &Path) -> (removed: bool)
        requires
            old(self).wf(),
        ensures
            final(self).wf(),
            final(self)@ == without_subtree(old(self)@, path@),
            removed == has_entry(old(self)@, path@),
            !removed ==> final(self)@ == old(self)@,
    {
        let mut removed = false;
        let mut i: usize = 0;
        while i < self.entries.len()
            invariant
                self.wf(),
                i <= self.entries.len(),
                forall|j: int|
                    0 <= j < i ==> !is_ancestor_or_self(path@, (#[trigger] self.model()[j]).0),
                forall|k: Seq<Seq<u8>>| #[trigger]
                    self@.contains_key(k) ==> old(self)@.contains_key(k) && self@[k] == old(
                        self,
                    )@[k],
                forall|k: Seq<Seq<u8>>|
                    old(self)@.contains_key(k) && !is_ancestor_or_self(path@, k)
                        ==> #[trigger] self@.contains_key(k),
                removed ==> has_entry(old(self)@, path@),
                !removed ==> self@ == old(self)@,
            decreases self.entries.len() - i,
        {
            let ghost before = self.model();
            let ghost before_map = self@;
            proof {
                assert(before[i as int].0 == self.entries@[i as int].path@);
            }
            if self.entries[i].path.starts_with(path) {
                proof {
                    lemma_at(before, i as int);
                    assert(is_ancestor_or_self(path@, before[i as int].0));
                }
                let _ = self.entries.remove(i);
                proof {
                    assert(self.model() =~= before.remove(i as int));
                    lemma_remove(before, i as int);
                    assert(self@ == before_map.remove(before[i as int].0));
                    assert forall|j: int| 0 <= j < i implies !is_ancestor_or_self(
                        path@,
                        (#[trigger] self.model()[j]).0,
                    ) by {
                        assert(self.model()[j] == before[j]);
                    }
                }
                removed = true;
            } else {
                i += 1;
            }
        }
        proof {
            let target = without_subtree(old(self)@, path@);
            assert forall|k: Seq<Seq<u8>>| self@.contains_key(k) implies !is_ancestor_or_self(
                path@,
                k,
            ) by {
                let j = index_of(self.model(), k);
                assert(self.model()[j].0 == k);
            }
            assert(self@ =~= target);
            if !removed {
                if has_entry(old(self)@, path@) {
                    let k = choose|k: Seq<Seq<u8>>|
                        old(self)@.contains_key(k) && #[trigger] is_ancestor_or_self(path@, k);
                    assert(self@.contains_key(k));
                }
            }
        }
        removed
    }

    /// Removes the path's own value and every value below the path. Refused
    /// where there is none of either.
    pub fn delete(&mut self, path: &Path) -> (r: Result<(), HostError>)
        requires
            old(self).wf(),
        ensures
            final(self).wf(),
            !has_entry(old(self)@, path@) ==> r == Err::<(), HostError>(HostError::PathNotFound)
                && final(self)@ == old(self)@,
            has_entry(old(self)@, path@) ==> r == Ok::<(), HostError>(()) && final(self)@
                == without_subtree(old(self)@, path@),
    {
        if self.remove_subtree(path) {
            Ok(())
        } else {
            Err(HostError::PathNotFound)
        }
    }

    /// The number of distinct segments that, appended to the path, lead to a
    /// value: those directly below the path, whatever lies deeper.
    pub fn list_size(&self, path: &Path) -> (r: usize)
        requires
            self.wf(),
        ensures
            children(self@, path@).finite(),
            r == children(self@, path@).len(),
    {
        let depth = path.len();
        let mut firsts: Vec<usize> = Vec::new();
        let ghost mut names: Seq<Seq<u8>> = Seq::empty();
        let mut i: usize = 0;
        while i < self.entries.len()
            invariant
                self.wf(),
                depth == path@.len(),
                i <= self.entries.len(),
                names.len() == firsts.len(),
                names.no_duplicates(),
                forall|a: int|
                    0 <= a < firsts.len() ==> {
                        &&& (#[trigger] firsts@[a]) < i
                        &&& self.model()[firsts@[a] as int].0.len() > depth
                        &&& is_ancestor_or_self(path@, self.model()[firsts@[a] as int].0)
                        &&& names[a] == self.model()[firsts@[a] as int].0[depth as int]
                    },
                forall|j: int|
                    0 <= j < i && (#[trigger] self.model()[j]).0.len() > depth
                        && is_ancestor_or_self(path@, self.model()[j].0) ==> names.contains(
                        self.model()[j].0[depth as int],
                    ),
            decreases self.entries.len() - i,
        {
            let key = &self.entries[i].path;
            proof {
                assert(self.model()[i as int].0 == key@);
            }
            if key.len() > depth && key.starts_with(path) {
                let child = key.segment(depth);
                let mut seen = false;
                let mut a: usize = 0;
                while a < firsts.len() && !seen
                    invariant
                        self.wf(),
                        a <= firsts.len(),
                        names.len() == firsts.len(),
                        depth == path@.len(),
                        i < self.entries.len(),
                        forall|b: int|
                            0 <= b < firsts.len() ==> {
                                &&& (#[trigger] firsts@[b]) < i
                                &&& self.model()[firsts@[b] as int].0.len() > depth
                                &&& names[b] == self.model()[firsts@[b] as int].0[depth as int]
                            },
                        !seen ==> forall|b: int| 0 <= b < a ==> names[b] != child@,
                        seen ==> names.contains(child@),
                    decreases firsts.len() - a + (if seen { 0int } else { 1int }),
                {
                    let other = &self.entries[firsts[a]].path;
                    proof {
                        assert(self.model()[firsts@[a as int] as int].0 == other@);
                    }
                    if bytes_eq(other.segment(depth), child) {
                        proof {
                            assert(names[a as int] == child@);
                        }
                        seen = true;
                    } else {
                        a += 1;
                    }
                }
                if !seen {
                    firsts.push(i);
                    proof {
                        let grown = names.push(child@);
                        assert forall|x: int, y: int|
                            0 <= x < y < grown.len() implies grown[x] != grown[y] by {
                            if y < names.len() {
                                assert(names[x] != names[y]);
                            }
                        }
                        assert forall|j: int|
                            0 <= j < i + 1 && (#[trigger] self.model()[j]).0.len() > depth
                                && is_ancestor_or_self(
                                path@,
                                self.model()[j].0,
                            ) implies grown.contains(self.model()[j].0[depth as int]) by {
                            if j < i {
                                let c = self.model()[j].0[depth as int];
                                assert(names.contains(c));
                                let b = choose|b: int| 0 <= b < names.len() && names[b] == c;
                                assert(grown[b] == c);
                            } else {
                                assert(grown[names.len() as int] == child@);
                            }
                        }
                        names = grown;
                    }
                }
            }
            i += 1;
        }
        proof {
            let kids = children(self@, path@);
            assert forall|c: Seq<u8>| kids.contains(c) <==> names.to_set().contains(c) by {
                if kids.contains(c) {
                    let k = choose|k: Seq<Seq<u8>>|
                        self@.contains_key(k) && #[trigger] is_ancestor_or_self(path@, k) && k.len()
                            > path@.len() && k[path@.len() as int] == c;
                    let j = index_of(self.model(), k);
                    assert(self.model()[j].0 == k);
                    assert(names.contains(c));
                }
                if names.contains(c) {
                    let b = choose|b: int| 0 <= b < names.len() && names[b] == c;
                    let j = firsts@[b] as int;
                    lemma_at(self.model(), j);
                    assert(is_ancestor_or_self(path@, self.model()[j].0));
                }
            }
            assert(kids =~= names.to_set());
            vstd::seq_lib::seq_to_set_is_finite(names);
            names.unique_seq_to_set();
        }
        firsts.len()
    }

    /// Puts the subtree at `from` at `to`, and takes it away from `from`
    /// unless `keep_source` is set.
    #[verifier::loop_isolation(false)]
    fn transfer(&mut self, from: &Path, to: &Path, keep_source: bool) -> (r: Result<(), HostError>)
        requires
            old(self).wf(),
            from.wf(),
            to.wf(),
        ensures
            final(self).wf(),
            !has_entry(old(self)@, from@) ==> r == Err::<(), HostError>(HostError::PathNotFound)
                && final(self)@ == old(self)@,
            has_entry(old(self)@, from@) ==> r == Ok::<(), HostError>(()) && final(self)@
                == with_subtree_at(old(self)@, from@, to@, keep_source),
    {
        let depth = from.len();
        let ghost m0 = self@;
        let ghost source = self.model();
        // Gather the subtree at `from`, each entry under the path it will have.
        let mut moved: Vec<Entry> = Vec::new();
        let ghost mut origin: Seq<int> = Seq::empty();
        let mut i: usize = 0;
        while i < self.entries.len()
            invariant
                i <= self.entries.len(),
                self.model() == source,
                self.entries@ == old(self).entries@,
                origin.len() == moved.len(),
                entries_bounded(moved@),
                forall|j: int|
                    0 <= j < moved.len() ==> {
                        &&& 0 <= (#[trigger] origin[j]) < i
                        &&& is_ancestor_or_self(from@, source[origin[j]].0)
                        &&& entries_model(moved@)[j] == (
                            rebased(source[origin[j]].0, depth as int, to@),
                            source[origin[j]].1,
                        )
                    },
                forall|a: int, b: int| 0 <= a < b < origin.len() ==> origin[a] < origin[b],
                forall|idx: int|
                    0 <= idx < i && is_ancestor_or_self(from@, (#[trigger] source[idx]).0)
                        ==> origin.contains(idx),
            decreases self.entries.len() - i,
        {
            let entry = &self.entries[i];
            proof {
                assert(source[i as int] == (entry.path@, entry.value@));
            }
            if entry.path.starts_with(from) {
                let path = entry.path.rebase(depth, to);
                let value = vstd::slice::slice_to_vec(entry.value.as_slice());
                let ghost before = entries_model(moved@);
                let ghost before_origin = origin;
                moved.push(Entry { path, value });
                proof {
                    origin = origin.push(i as int);
                    assert(entries_model(moved@) =~= before.push((path@, value@)));
                    assert forall|idx: int|
                        0 <= idx < i + 1 && is_ancestor_or_self(
                            from@,
                            (#[trigger] source[idx]).0,
                        ) implies origin.contains(idx) by {
                        if idx < i {
                            let a = choose|a: int|
                                0 <= a < before_origin.len() && before_origin[a] == idx;
                            assert(origin[a] == idx);
                        } else {
                            assert(origin[before_origin.len() as int] == idx);
                        }
                    }
                }
            }
            i += 1;
        }
        let ghost mm = entries_model(moved@);
        let ghost moved_map = as_map(mm);
        proof {
            assert forall|a: int, b: int| 0 <= a < b < mm.len() implies (#[trigger] mm[a]).0 != (
            #[trigger] mm[b]).0 by {
                lemma_rebase_inverse(source[origin[a]].0, from@, to@);
                lemma_rebase_inverse(source[origin[b]].0, from@, to@);
                assert(origin[a] < origin[b]);
                assert(source[origin[a]].0 != source[origin[b]].0);
            }
            assert forall|k: Seq<Seq<u8>>| #[trigger] moved_map.contains_key(k) implies {
                &&& is_ancestor_or_self(to@, k)
                &&& m0.contains_key(rebased(k, to@.len() as int, from@))
                &&& moved_map[k] == m0[rebased(k, to@.len() as int, from@)]
            } by {
                let j = index_of(mm, k);
                lemma_at(mm, j);
                lemma_at(source, origin[j]);
                lemma_rebase_inverse(source[origin[j]].0, from@, to@);
            }
            assert forall|k: Seq<Seq<u8>>|
                is_ancestor_or_self(to@, k) && m0.contains_key(
                    rebased(k, to@.len() as int, from@),
                ) implies #[trigger] moved_map.contains_key(k) by {
                let kk = rebased(k, to@.len() as int, from@);
                lemma_rebase_inverse(k, to@, from@);
                let idx = index_of(source, kk);
                assert(source[idx].0 == kk);
                assert(origin.contains(idx));
                let j = choose|j: int| 0 <= j < origin.len() && origin[j] == idx;
                assert(mm[j].0 == k);
            }
        }
        if moved.len() == 0 {
            proof {
                if has_entry(m0, from@) {
                    let k = choose|k: Seq<Seq<u8>>|
                        m0.contains_key(k) && #[trigger] is_ancestor_or_self(from@, k);
                    let idx = index_of(source, k);
                    assert(source[idx].0 == k);
                    assert(origin.contains(idx));
                }
            }
            return Err(HostError::PathNotFound);
        }
        proof {
            lemma_at(source, origin[0]);
            assert(is_ancestor_or_self(from@, source[origin[0]].0));
        }
        // Clear the place at `to`, and the source where it is to leave.
        let _ = self.remove_subtree(to);
        if !keep_source {
            let _ = self.remove_subtree(from);
        }
        let ghost m1 = self@;
        assert forall|k: Seq<Seq<u8>>| #[trigger]
            m1.contains_key(k) <==> m0.contains_key(k) && !is_ancestor_or_self(to@, k) && (
            keep_source || !is_ancestor_or_self(from@, k)) by {}
        assert forall|k: Seq<Seq<u8>>| #[trigger] m1.contains_key(k) implies m1[k] == m0[k] by {}
        assert(mm.take(moved.len() as int) =~= mm);
        // Put the gathered entries in; none of their paths is held any more.
        while moved.len() > 0
            invariant
                self.wf(),
                moved.len() <= mm.len(),
                entries_model(moved@) == mm.take(moved.len() as int),
                entries_bounded(moved@),
                forall|k: Seq<Seq<u8>>| #[trigger]
                    self@.contains_key(k) <==> m1.contains_key(k) || (moved_map.contains_key(k)
                        && !has_key(mm.take(moved.len() as int), k)),
                forall|k: Seq<Seq<u8>>|
                    m1.contains_key(k) ==> #[trigger] self@[k] == m1[k],
                forall|k: Seq<Seq<u8>>|
                    moved_map.contains_key(k) && !has_key(mm.take(moved.len() as int), k)
                        ==> #[trigger] self@[k] == moved_map[k],
            decreases moved.len(),
        {
            let ghost rest = moved.len() - 1;
            let ghost before = self.model();
            let ghost before_map = self@;
            let ghost last = moved@[rest];
            let entry = moved.pop().unwrap();
            proof {
                assert(entry == last);
                assert(mm.take(rest + 1)[rest] == mm[rest]);
                assert(mm[rest] == (entry.path@, entry.value@));
                lemma_at(mm, rest);
                assert(!m1.contains_key(entry.path@));
                assert(has_key(mm.take(rest + 1), entry.path@));
                assert(!before_map.contains_key(entry.path@));
                assert(entries_model(moved@) =~= mm.take(rest));
            }
            self.entries.push(entry);
            proof {
                assert(self.model() =~= before.push((entry.path@, entry.value@)));
                lemma_push(before, entry.path@, entry.value@);
                assert forall|k: Seq<Seq<u8>>|
                    has_key(mm.take(rest + 1), k) <==> has_key(mm.take(rest), k) || k
                        == entry.path@ by {
                    if has_key(mm.take(rest + 1), k) {
                        let j = index_of(mm.take(rest + 1), k);
                        if j < rest {
                            assert(mm.take(rest)[j].0 == k);
                        }
                    }
                    if has_key(mm.take(rest), k) {
                        let j = index_of(mm.take(rest), k);
                        assert(mm.take(rest + 1)[j].0 == k);
                    }
                }
                assert(!has_key(mm.take(rest), entry.path@)) by {
                    if has_key(mm.take(rest), entry.path@) {
                        let j = index_of(mm.take(rest), entry.path@);
                        assert(mm[j].0 == mm[rest].0);
                    }
                }
            }
        }
        proof {
            assert forall|k: Seq<Seq<u8>>| !has_key(mm.take(0), k) by {}
            assert(self@ =~= with_subtree_at(m0, from@, to@, keep_source));
        }
        Ok(())
    }

    /// Moves the value at `from` and every value below it to `to`, replacing
    /// what was at `to` and below. Refused, with the store unchanged, where
    /// `from` has neither.
    pub fn move_subtree(&mut self, from: &Path, to: &Path) -> (r: Result<(), HostError>)
        requires
            old(self).wf(),
            from.wf(),
            to.wf(),
        ensures
            final(self).wf(),
            !has_entry(old(self)@, from@) ==> r == Err::<(), HostError>(HostError::PathNotFound)
                && final(self)@ == old(self)@,
            has_entry(old(self)@, from@) ==> r == Ok::<(), HostError>(()) && final(self)@
                == with_subtree_at(old(self)@, from@, to@, false),
    {
        self.transfer(from, to, false)
    }

    /// Copies the value at `from` and every value below it to `to`, replacing
    /// what was at `to` and below. Refused, with the store unchanged, where
    /// `from` has neither.
    pub fn copy_subtree(&mut self, from: &Path, to: &Path) -> (r: Result<(), HostError>)
        requires
            old(self).wf(),
            from.wf(),
            to.wf(),
        ensures
            final(self).wf(),
            !has_entry(old(self)@, from@) ==> r == Err::<(), HostError>(HostError::PathNotFound)
                && final(self)@ == old(self)@,
            has_entry(old(self)@, from@) ==> r == Ok::<(), HostError>(()) && final(self)@
                == with_subtree_at(old(self)@, from@, to@, true),
    {
        self.transfer(from, to, true)
    }
}

/// A read of as many bytes as an accepted write carried, at the offset of
/// that write, yields the written bytes.
pub proof fn lemma_read_after_write(m: StoreMap, p: Seq<Seq<u8>>, offset: nat, bytes: Seq<u8>)
    requires
        write_accepted(m, p, offset as int, bytes.len() as int),
    ensures
        read_result(after_write(m, p, offset as int, bytes), p, offset as int, bytes.len() as int)
            == Ok::<Seq<u8>, HostError>(bytes),
        after_write(m, p, offset as int, bytes)[p].len() == written_len(
            value_or_empty(m, p).len() as int,
            offset as int,
            bytes.len() as int,
        ),
{
    let value = after_write(m, p, offset as int, bytes)[p];
    assert(read_slice(value, offset as int, bytes.len() as int) =~= bytes);
}

/// A path is there exactly when it holds a value of its own or a path
/// below it holds one.
pub proof fn lemma_has_entry_parts(m: StoreMap, p: Seq<Seq<u8>>)
    ensures
        has_entry(m, p) == (m.contains_key(p) || has_below(m, p)),
{
    if has_entry(m, p) {
        let k = choose|k: Seq<Seq<u8>>| m.contains_key(k) && #[trigger] is_ancestor_or_self(p, k);
        if k.len() == p.len() {
            assert(k.take(p.len() as int) =~= k);
        } else {
            assert(is_ancestor_or_self(p, k) && k.len() > p.len());
        }
    }
    if m.contains_key(p) {
        assert(p.take(p.len() as int) =~= p);
        assert(is_ancestor_or_self(p, p));
    }
    if has_below(m, p) {
        let k = choose|k: Seq<Seq<u8>>|
            m.contains_key(k) && #[trigger] is_ancestor_or_self(p, k) && k.len() > p.len();
        assert(is_ancestor_or_self(p, k));
    }
}

/// A path that was written to is there afterwards.
pub proof fn lemma_has_after_write(m: StoreMap, p: Seq<Seq<u8>>, offset: nat, bytes: Seq<u8>)
    ensures
        has_entry(after_write(m, p, offset as int, bytes), p),
{
    assert(p.take(p.len() as int) =~= p);
    assert(is_ancestor_or_self(p, p));
    assert(after_write(m, p, offset as int, bytes).contains_key(p));
}

/// A path that holds no value of its own but has a value below it is there,
/// and a read of it is refused as not a value.
pub proof fn lemma_directory_only(
    m: StoreMap,
    p: Seq<Seq<u8>>,
    below: Seq<Seq<u8>>,
    offset: nat,
    max_len: nat,
)
    requires
        !m.contains_key(p),
        m.contains_key(below),
        is_ancestor_or_self(p, below),
    ensures
        has_entry(m, p),
        read_result(m, p, offset as int, max_len as int) == Err::<Seq<u8>, HostError>(
            HostError::NotAValue,
        ),
{
}

/// Two ancestors of one path are ancestors of each other, one way or the
/// other.
pub proof fn lemma_ancestors_comparable(a: Seq<Seq<u8>>, b: Seq<Seq<u8>>, k: Seq<Seq<u8>>)
    requires
        is_ancestor_or_self(a, k),
        is_ancestor_or_self(b, k),
    ensures
        is_ancestor_or_self(a, b) || is_ancestor_or_self(b, a),
{
    if a.len() <= b.len() {
        assert(b.take(a.len() as int) =~= k.take(b.len() as int).take(a.len() as int));
        assert(k.take(b.len() as int).take(a.len() as int) =~= k.take(a.len() as int));
    } else {
        assert(a.take(b.len() as int) =~= k.take(a.len() as int).take(b.len() as int));
        assert(k.take(a.len() as int).take(b.len() as int) =~= k.take(b.len() as int));
    }
}

/// After a move from `a` to `b`, neither of them at or below the other,
/// nothing is left at or below `a`, and `b` holds what `a` held: its own
/// value, and below `b` every value that was below `a`, under the same
/// remaining segments.
pub proof fn lemma_move(m: StoreMap, a: Seq<Seq<u8>>, b: Seq<Seq<u8>>)
    requires
        !is_ancestor_or_self(a, b),
        !is_ancestor_or_self(b, a),
    ensures
        !has_entry(with_subtree_at(m, a, b, false), a),
        forall|rest: Seq<Seq<u8>>|
            with_subtree_at(m, a, b, false).contains_key(#[trigger] (b + rest)) == m.contains_key(
                a + rest,
            ),
        forall|rest: Seq<Seq<u8>>|
            m.contains_key(a + rest) ==> with_subtree_at(m, a, b, false)[#[trigger] (b + rest)]
                == m[a + rest],
        forall|rest: Seq<Seq<u8>>, offset: int, max_len: int|
            #[trigger] read_result(with_subtree_at(m, a, b, false), b + rest, offset, max_len)
                == read_result(m, a + rest, offset, max_len),
{
    let after = with_subtree_at(m, a, b, false);
    assert forall|k: Seq<Seq<u8>>| after.contains_key(k) implies !is_ancestor_or_self(a, k) by {
        if is_ancestor_or_self(a, k) && is_ancestor_or_self(b, k) {
            lemma_ancestors_comparable(a, b, k);
        }
    }
    assert forall|rest: Seq<Seq<u8>>|
        is_ancestor_or_self(b, #[trigger] (b + rest)) && rebased(b + rest, b.len() as int, a) == a
            + rest by {
        assert((b + rest).take(b.len() as int) =~= b);
        assert((b + rest).skip(b.len() as int) =~= rest);
    }
}

/// After a copy from `a` to `b`, `b` holds what `a` held, as after a move,
/// and every path that is not at or below `b` holds what it held.
pub proof fn lemma_copy(m: StoreMap, a: Seq<Seq<u8>>, b: Seq<Seq<u8>>)
    ensures
        forall|rest: Seq<Seq<u8>>, offset: int, max_len: int|
            #[trigger] read_result(with_subtree_at(m, a, b, true), b + rest, offset, max_len)
                == read_result(m, a + rest, offset, max_len),
        forall|k: Seq<Seq<u8>>, offset: int, max_len: int|
            !is_ancestor_or_self(b, k) ==> #[trigger] read_result(
                with_subtree_at(m, a, b, true),
                k,
                offset,
                max_len,
            ) == read_result(m, k, offset, max_len),
{
    assert forall|rest: Seq<Seq<u8>>|
        is_ancestor_or_self(b, #[trigger] (b + rest)) && rebased(b + rest, b.len() as int, a) == a
            + rest by {
        assert((b + rest).take(b.len() as int) =~= b);
        assert((b + rest).skip(b.len() as int) =~= rest);
    }
}

/// A store with finitely many values gives every path finitely many
/// children.
pub proof fn lemma_children_finite(m: StoreMap, p: Seq<Seq<u8>>)
    requires
        m.dom().finite(),
    ensures
        children(m, p).finite(),
{
    let first = |k: Seq<Seq<u8>>| k[p.len() as int];
    m.dom().lemma_map_finite(first);
    assert forall|c: Seq<u8>| children(m, p).contains(c) implies m.dom().map(first).contains(
        c,
    ) by {
        let k = choose|k: Seq<Seq<u8>>|
            m.contains_key(k) && #[trigger] is_ancestor_or_self(p, k) && k.len() > p.len()
                && k[p.len() as int] == c;
        assert(m.dom().contains(k) && c == first(k));
    }
    vstd::set_lib::lemma_set_subset_finite(m.dom().map(first), children(m, p));
}

/// Deleting a path that is there takes its last segment, and nothing else,
/// out of the children of its parent: their number goes down by one.
pub proof fn lemma_delete_child(m: StoreMap, p: Seq<Seq<u8>>)
    requires
        m.dom().finite(),
        p.len() > 0,
        has_entry(m, p),
    ensures
        children(m, p.drop_last()).finite(),
        children(m, p.drop_last()).contains(p.last()),
        children(without_subtree(m, p), p.drop_last()) == children(m, p.drop_last()).remove(
            p.last(),
        ),
        children(without_subtree(m, p), p.drop_last()).len() == children(m, p.drop_last()).len()
            - 1,
{
    let parent = p.drop_last();
    let before = children(m, parent);
    let after = children(without_subtree(m, p), parent);
    lemma_children_finite(m, parent);
    let below = choose|k: Seq<Seq<u8>>| m.contains_key(k) && #[trigger] is_ancestor_or_self(p, k);
    assert(is_ancestor_or_self(parent, below) && below[parent.len() as int] == p.last()) by {
        assert(below.take(parent.len() as int) =~= below.take(p.len() as int).take(
            parent.len() as int,
        ));
        assert(below.take(p.len() as int)[parent.len() as int] == below[parent.len() as int]);
    }
    assert forall|c: Seq<u8>| after.contains(c) <==> before.remove(p.last()).contains(c) by {
        if after.contains(c) {
            let k = choose|k: Seq<Seq<u8>>|
                without_subtree(m, p).contains_key(k) && #[trigger] is_ancestor_or_self(parent, k)
                    && k.len() > parent.len() && k[parent.len() as int] == c;
            assert(is_ancestor_or_self(parent, k));
            if c == p.last() {
                assert(k.take(p.len() as int) =~= k.take(parent.len() as int).push(
                    k[parent.len() as int],
                ));
                assert(p =~= parent.push(p.last()));
            }
        }
        if before.contains(c) && c != p.last() {
            let k = choose|k: Seq<Seq<u8>>|
                m.contains_key(k) && #[trigger] is_ancestor_or_self(parent, k) && k.len()
                    > parent.len() && k[parent.len() as int] == c;
            if is_ancestor_or_self(p, k) {
                assert(k.take(p.len() as int)[parent.len() as int] == k[parent.len() as int]);
            }
            assert(without_subtree(m, p).contains_key(k));
            assert(is_ancestor_or_self(parent, k));
        }
    }
    assert(after =~= before.remove(p.last()));
}

} // verus!
