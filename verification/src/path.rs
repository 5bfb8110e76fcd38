//! Store paths: sequences of non-empty ASCII segments, written `/seg1/seg2`.

use vstd::prelude::*;

verus! {

/// The byte that precedes every segment in the written form of a path.
pub const SEPARATOR: u8 = 47;

/// A segment is a non-empty run of ASCII bytes without a separator.
pub open spec fn valid_segment(s: Seq<u8>) -> bool {
    &&& s.len() > 0
    &&& forall|i: int| 0 <= i < s.len() ==> #[trigger] s[i] < 128 && s[i] != SEPARATOR
}

/// A path is any sequence of segments; the empty sequence is the root.
pub open spec fn valid_path(p: Seq<Seq<u8>>) -> bool {
    forall|i: int| 0 <= i < p.len() ==> valid_segment(#[trigger] p[i])
}

/// The written form of a path: each segment preceded by a separator.
pub open spec fn encode(p: Seq<Seq<u8>>) -> Seq<u8>
    decreases p.len(),
{
    if p.len() == 0 {
        Seq::empty()
    } else {
        encode(p.drop_last()) + seq![SEPARATOR] + p.last()
    }
}

/// The byte strings that spell a path: empty, or starting with a separator,
/// not ending with one, all ASCII, and with no two separators in a row.
pub open spec fn is_path_bytes(raw: Seq<u8>) -> bool {
    raw.len() == 0 || {
        &&& raw[0] == SEPARATOR
        &&& raw[raw.len() - 1] != SEPARATOR
        &&& forall|i: int| 0 <= i < raw.len() ==> #[trigger] raw[i] < 128
        &&& forall|i: int|
            0 <= i < raw.len() - 1 ==> !(#[trigger] raw[i] == SEPARATOR && raw[i + 1] == SEPARATOR)
    }
}

/// The path that a byte string spells.
pub open spec fn segments_of(raw: Seq<u8>) -> Seq<Seq<u8>> {
    choose|p: Seq<Seq<u8>>| valid_path(p) && encode(p) == raw
}

/// `a` is `p` itself or one of its ancestors: the segments of `a` begin `p`.
pub open spec fn is_ancestor_or_self(a: Seq<Seq<u8>>, p: Seq<Seq<u8>>) -> bool {
    a.len() <= p.len() && p.take(a.len() as int) == a
}

/// The path that takes the place of `p` when the subtree at a path of
/// `from_len` segments is moved to `to`.
pub open spec fn rebased(p: Seq<Seq<u8>>, from_len: int, to: Seq<Seq<u8>>) -> Seq<Seq<u8>> {
    to + p.skip(from_len)
}

/// Moving a path from below `a` to below `b` puts it below `b`, and moving
/// it back gives the path again.
pub proof fn lemma_rebase_inverse(k: Seq<Seq<u8>>, a: Seq<Seq<u8>>, b: Seq<Seq<u8>>)
    requires
        is_ancestor_or_self(a, k),
    ensures
        is_ancestor_or_self(b, rebased(k, a.len() as int, b)),
        rebased(rebased(k, a.len() as int, b), b.len() as int, a) == k,
{
    let moved = rebased(k, a.len() as int, b);
    assert(moved.take(b.len() as int) =~= b);
    assert(moved.skip(b.len() as int) =~= k.skip(a.len() as int));
    assert(a + k.skip(a.len() as int) =~= k);
}

/// The views of a sequence of byte vectors.
pub open spec fn segment_views(v: Seq<Vec<u8>>) -> Seq<Seq<u8>> {
    Seq::new(v.len(), |i: int| v[i]@)
}

/// The written form of a non-empty path ends with its last segment, and the
/// separator stands right before it.
pub proof fn lemma_encode_last(p: Seq<Seq<u8>>)
    requires
        p.len() > 0,
    ensures
        encode(p).len() == encode(p.drop_last()).len() + 1 + p.last().len(),
        encode(p).take(encode(p.drop_last()).len() as int) == encode(p.drop_last()),
        encode(p)[encode(p.drop_last()).len() as int] == SEPARATOR,
        encode(p).skip(encode(p.drop_last()).len() as int + 1) == p.last(),
{
    let head = encode(p.drop_last());
    assert(encode(p) == head + seq![SEPARATOR] + p.last());
    assert(encode(p).take(head.len() as int) =~= head);
    assert(encode(p).skip(head.len() as int + 1) =~= p.last());
}

/// The written form of a path spells a path.
pub proof fn lemma_encode_is_path_bytes(p: Seq<Seq<u8>>)
    requires
        valid_path(p),
    ensures
        is_path_bytes(encode(p)),
        p.len() > 0 ==> encode(p).len() > 0,
    decreases p.len(),
{
    if p.len() > 0 {
        let head = encode(p.drop_last());
        let e = encode(p);
        lemma_encode_is_path_bytes(p.drop_last());
        lemma_encode_last(p);
        assert(valid_segment(p.last()));
        assert(e == head + seq![SEPARATOR] + p.last());
        assert forall|i: int| 0 <= i < e.len() implies #[trigger] e[i] < 128 by {
            if i < head.len() {
                assert(e[i] == head[i]);
            } else if i > head.len() {
                assert(e[i] == p.last()[i - head.len() - 1]);
            }
        }
        assert forall|i: int| 0 <= i < e.len() - 1 implies !(#[trigger] e[i] == SEPARATOR && e[i
            + 1] == SEPARATOR) by {
            if i + 1 < head.len() {
                assert(e[i] == head[i]);
                assert(e[i + 1] == head[i + 1]);
            } else if i + 1 == head.len() {
                assert(e[i] == head[i]);
                assert(head[head.len() - 1] != SEPARATOR);
            } else {
                assert(e[i + 1] == p.last()[i - head.len()]);
            }
        }
        assert(e[e.len() - 1] == p.last()[p.last().len() - 1]);
        if head.len() > 0 {
            assert(e[0] == head[0]);
        }
    }
}

/// Two paths with the same written form are the same path.
pub proof fn lemma_encode_injective(p: Seq<Seq<u8>>, q: Seq<Seq<u8>>)
    requires
        valid_path(p),
        valid_path(q),
        encode(p) == encode(q),
    ensures
        p == q,
    decreases p.len(),
{
    lemma_encode_is_path_bytes(p);
    lemma_encode_is_path_bytes(q);
    if p.len() == 0 || q.len() == 0 {
        assert(p =~= q);
    } else {
        let e = encode(p);
        let hp = encode(p.drop_last());
        let hq = encode(q.drop_last());
        lemma_encode_last(p);
        lemma_encode_last(q);
        assert(valid_segment(p.last()));
        assert(valid_segment(q.last()));
        if hp.len() < hq.len() {
            assert(e[hq.len() as int] == SEPARATOR);
            assert(e.skip(hp.len() as int + 1)[hq.len() - hp.len() - 1] == e[hq.len() as int]);
            assert(false);
        }
        if hq.len() < hp.len() {
            assert(e[hp.len() as int] == SEPARATOR);
            assert(e.skip(hq.len() as int + 1)[hp.len() - hq.len() - 1] == e[hp.len() as int]);
            assert(false);
        }
        lemma_encode_injective(p.drop_last(), q.drop_last());
        assert(p =~= p.drop_last().push(p.last()));
        assert(q =~= q.drop_last().push(q.last()));
    }
}

/// A valid path is the path that its written form spells.
pub proof fn lemma_segments_of_encode(p: Seq<Seq<u8>>)
    requires
        valid_path(p),
    ensures
        segments_of(encode(p)) == p,
{
    let q = segments_of(encode(p));
    assert(valid_path(q) && encode(q) == encode(p));
    lemma_encode_injective(q, p);
}

/// A path of the durable store.
#[derive(Debug)]
pub struct Path {
    segments: Vec<Vec<u8>>,
}

impl View for Path {
    type V = Seq<Seq<u8>>;

    closed spec fn view(&self) -> Seq<Seq<u8>> {
        segment_views(self.segments@)
    }
}

/// Whether two byte strings are equal.
pub fn bytes_eq(a: &[u8], b: &[u8]) -> (r: bool)
    ensures
        r == (a@ == b@),
{
    if a.len() != b.len() {
        return false;
    }
    let mut i: usize = 0;
    while i < a.len()
        invariant
            i <= a.len(),
            a.len() == b.len(),
            forall|j: int| 0 <= j < i ==> a@[j] == b@[j],
        decreases a.len() - i,
    {
        if a[i] != b[i] {
            return false;
        }
        i += 1;
    }
    assert(a@ =~= b@);
    true
}

impl Path {
    /// Every segment is valid.
    pub open spec fn wf(&self) -> bool {
        valid_path(self@)
    }

    /// The root: the path without segments.
    pub fn root() -> (r: Path)
        ensures
            r.wf(),
            r@ == Seq::<Seq<u8>>::empty(),
    {
        let r = Path { segments: Vec::new() };
        assert(r@ =~= Seq::<Seq<u8>>::empty());
        r
    }

    /// Reads a path from its written form. The bytes spell a path exactly when
    /// they are empty (the root) or a separator followed by a segment, any
    /// number of times.
    pub fn from_bytes(raw: &[u8]) -> (r: Option<Path>)
        ensures
            r is Some <==> is_path_bytes(raw@),
            r matches Some(p) ==> p.wf() && encode(p@) == raw@ && p@ == segments_of(raw@),
    {
        let n = raw.len();
        let mut segments: Vec<Vec<u8>> = Vec::new();
        if n == 0 {
            let p = Path { segments };
            proof {
                assert(p@ =~= Seq::<Seq<u8>>::empty());
                assert(encode(p@) =~= raw@);
                lemma_segments_of_encode(p@);
            }
            return Some(p);
        }
        if raw[0] != SEPARATOR {
            return None;
        }
        let mut current: Vec<u8> = Vec::new();
        let mut i: usize = 1;
        proof {
            assert(segment_views(segments@) =~= Seq::<Seq<u8>>::empty());
            assert(encode(segment_views(segments@)) + seq![SEPARATOR] + current@ =~= raw@.take(1));
        }
        while i < n
            invariant
                1 <= i <= n,
                n == raw.len(),
                raw@[0] == SEPARATOR,
                valid_path(segment_views(segments@)),
                forall|j: int|
                    0 <= j < current.len() ==> #[trigger] current@[j] < 128 && current@[j]
                        != SEPARATOR,
                encode(segment_views(segments@)) + seq![SEPARATOR] + current@ == raw@.take(
                    i as int,
                ),
                forall|j: int| 0 <= j < i ==> #[trigger] raw@[j] < 128,
                forall|j: int|
                    0 <= j < i - 1 ==> !(#[trigger] raw@[j] == SEPARATOR && raw@[j + 1]
                        == SEPARATOR),
            decreases n - i,
        {
            let b = raw[i];
            let ghost done = encode(segment_views(segments@));
            let ghost seen = raw@.take(i as int);
            proof {
                assert(seen.len() == i);
                assert(seen[i - 1] == raw@[i - 1]);
                if current.len() == 0 {
                    assert(seen[i - 1] == SEPARATOR);
                } else {
                    assert(seen[i - 1] == current@[current.len() - 1]);
                }
            }
            if b >= 128 {
                return None;
            }
            if b == SEPARATOR {
                if current.len() == 0 {
                    return None;
                }
                let ghost before = segment_views(segments@);
                let ghost cur = current@;
                segments.push(current);
                current = Vec::new();
                proof {
                    let after = segment_views(segments@);
                    assert(after =~= before.push(cur));
                    assert(after.drop_last() =~= before);
                    assert(valid_segment(cur));
                    assert(encode(after) == done + seq![SEPARATOR] + cur);
                    assert(encode(after) + seq![SEPARATOR] + current@ =~= raw@.take(i + 1));
                }
            } else {
                current.push(b);
                proof {
                    assert(done + seq![SEPARATOR] + current@ =~= raw@.take(i + 1));
                }
            }
            i += 1;
        }
        proof {
            assert(raw@.take(n as int) =~= raw@);
            if current.len() == 0 {
                assert(raw@[n - 1] == SEPARATOR);
            } else {
                assert(raw@[n - 1] == current@[current.len() - 1]);
            }
        }
        if current.len() == 0 {
            return None;
        }
        let ghost before = segment_views(segments@);
        let ghost cur = current@;
        segments.push(current);
        let p = Path { segments };
        proof {
            assert(p@ =~= before.push(cur));
            assert(p@.drop_last() =~= before);
            assert(valid_segment(cur));
            assert(encode(p@) =~= raw@);
            lemma_segments_of_encode(p@);
        }
        Some(p)
    }

    /// The written form of the path.
    pub fn to_bytes(&self) -> (r: Vec<u8>)
        ensures
            r@ == encode(self@),
    {
        let mut out: Vec<u8> = Vec::new();
        let mut i: usize = 0;
        proof {
            assert(self@.take(0) =~= Seq::<Seq<u8>>::empty());
        }
        while i < self.segments.len()
            invariant
                i <= self.segments.len(),
                out@ == encode(self@.take(i as int)),
            decreases self.segments.len() - i,
        {
            let ghost done = out@;
            out.push(SEPARATOR);
            let segment = &self.segments[i];
            let mut j: usize = 0;
            while j < segment.len()
                invariant
                    j <= segment.len(),
                    out@ == done + seq![SEPARATOR] + segment@.take(j as int),
                decreases segment.len() - j,
            {
                out.push(segment[j]);
                proof {
                    assert(segment@.take(j + 1) =~= segment@.take(j as int).push(
                        segment@[j as int],
                    ));
                }
                j += 1;
            }
            proof {
                assert(segment@.take(j as int) =~= segment@);
                let next = self@.take(i + 1);
                assert(next.drop_last() =~= self@.take(i as int));
                assert(next.last() == segment@);
            }
            i += 1;
        }
        proof {
            assert(self@.take(i as int) =~= self@);
        }
        out
    }

    /// The number of segments.
    pub fn len(&self) -> (r: usize)
        ensures
            r == self@.len(),
    {
        self.segments.len()
    }

    /// The segment at position `i`.
    pub fn segment(&self, i: usize) -> (r: &[u8])
        requires
            i < self@.len(),
        ensures
            r@ == self@[i as int],
    {
        self.segments[i].as_slice()
    }

    /// Whether `prefix` is this path or one of its ancestors.
    pub fn starts_with(&self, prefix: &Path) -> (r: bool)
        ensures
            r == is_ancestor_or_self(prefix@, self@),
    {
        if prefix.segments.len() > self.segments.len() {
            return false;
        }
        let mut i: usize = 0;
        while i < prefix.segments.len()
            invariant
                i <= prefix.segments.len() <= self.segments.len(),
                forall|j: int| 0 <= j < i ==> self@[j] == prefix@[j],
            decreases prefix.segments.len() - i,
        {
            if !bytes_eq(self.segments[i].as_slice(), prefix.segments[i].as_slice()) {
                proof {
                    assert(self@.take(prefix@.len() as int)[i as int] == self@[i as int]);
                }
                return false;
            }
            i += 1;
        }
        proof {
            assert(self@.take(prefix@.len() as int) =~= prefix@);
        }
        true
    }

    /// Whether the two paths have the same segments.
    pub fn same_as(&self, other: &Path) -> (r: bool)
        ensures
            r == (self@ == other@),
    {
        let r = self.segments.len() == other.segments.len() && self.starts_with(other);
        proof {
            if self@.len() == other@.len() {
                assert(self@.take(self@.len() as int) =~= self@);
            }
        }
        r
    }

    /// The path that takes this one's place when the subtree at its ancestor
    /// of `from_len` segments is moved to `to`.
    pub fn rebase(&self, from_len: usize, to: &Path) -> (r: Path)
        requires
            self.wf(),
            to.wf(),
            from_len <= self@.len(),
        ensures
            r.wf(),
            r@ == rebased(self@, from_len as int, to@),
    {
        let mut segments: Vec<Vec<u8>> = Vec::new();
        let mut i: usize = 0;
        while i < to.segments.len()
            invariant
                i <= to.segments.len(),
                segment_views(segments@) == to@.take(i as int),
            decreases to.segments.len() - i,
        {
            let copy = vstd::slice::slice_to_vec(to.segments[i].as_slice());
            let ghost before = segment_views(segments@);
            segments.push(copy);
            proof {
                assert(segment_views(segments@) =~= before.push(to@[i as int]));
                assert(before.push(to@[i as int]) =~= to@.take(i + 1));
            }
            i += 1;
        }
        let mut k: usize = from_len;
        proof {
            assert(to@.take(i as int) =~= to@);
            assert(segment_views(segments@) =~= to@ + self@.subrange(from_len as int, k as int));
        }
        while k < self.segments.len()
            invariant
                from_len <= k <= self.segments.len(),
                segment_views(segments@) == to@ + self@.subrange(from_len as int, k as int),
            decreases self.segments.len() - k,
        {
            let copy = vstd::slice::slice_to_vec(self.segments[k].as_slice());
            let ghost before = segment_views(segments@);
            segments.push(copy);
            proof {
                assert(segment_views(segments@) =~= before.push(self@[k as int]));
                assert(before.push(self@[k as int]) =~= to@ + self@.subrange(
                    from_len as int,
                    k + 1,
                ));
            }
            k += 1;
        }
        let r = Path { segments };
        proof {
            assert(self@.subrange(from_len as int, k as int) =~= self@.skip(from_len as int));
            assert forall|j: int| 0 <= j < r@.len() implies valid_segment(#[trigger] r@[j]) by {
                if j < to@.len() {
                    assert(r@[j] == to@[j]);
                } else {
                    assert(r@[j] == self@[j - to@.len() + from_len]);
                }
            }
        }
        r
    }
}

impl Clone for Path {
    fn clone(&self) -> (r: Path)
        ensures
            r@ == self@,
    {
        let mut segments: Vec<Vec<u8>> = Vec::new();
        let mut i: usize = 0;
        while i < self.segments.len()
            invariant
                i <= self.segments.len(),
                segment_views(segments@) == self@.take(i as int),
            decreases self.segments.len() - i,
        {
            let copy = vstd::slice::slice_to_vec(self.segments[i].as_slice());
            let ghost before = segment_views(segments@);
            segments.push(copy);
            proof {
                assert(segment_views(segments@) =~= before.push(self@[i as int]));
                assert(before.push(self@[i as int]) =~= self@.take(i + 1));
            }
            i += 1;
        }
        proof {
            assert(self@.take(i as int) =~= self@);
        }
        Path { segments }
    }
}

} // verus!
