//! The cache of mapped blocks and the handles that borrow from it.
//!
//! A block is a mapping descriptor together with a reference count and a
//! dirty flag. The cache partitions its blocks into three disjoint sets:
//!
//! * *available* — a bounded queue of blocks with no outstanding views;
//!   the front is the oldest and is the eviction victim,
//! * *lent* — blocks with at least one outstanding read-only view,
//! * *exclusive* — at most one block behind the single mutable view.
//!
//! Requests are served by containment: any cached block whose range covers
//! the requested range yields a view, searched most-recently-used first.
//! When a block returns to the available queue, every available block whose
//! range overlaps it is purged, so a stale mapping can never shadow bytes
//! that a mutable view has touched. A dirty block that the queue evicts is
//! flushed before its mapping goes away; the cache keeps a ghost log of
//! those flushes so that the flush-exactly-once discipline is stated and
//! proved, not assumed.

use vstd::prelude::*;
use vstd::pervasive::unreached;
use vstd::pervasive::VecAdditionalExecFns;

verus! {

/// A mapping descriptor: the placement of one mapped block.
///
/// `base` stands for the base address that the mapping layer chose; the
/// cache and its views treat it as an opaque identity and never dereference
/// it. `off` and `len` give the mapped range of the underlying buffer.
#[derive(Clone, Copy)]
pub struct RawView {
    /// Identity of the mapping; distinct live mappings have distinct bases.
    pub base: usize,
    /// Byte offset of the mapped range in the underlying buffer.
    pub off: usize,
    /// Length of the mapped range in bytes.
    pub len: usize,
}

impl RawView {
    /// The descriptor's range does not run past the address space.
    pub open spec fn wf(self) -> bool {
        self.off + self.len <= usize::MAX
    }

    pub fn new(base: usize, off: usize, len: usize) -> (r: RawView)
        requires
            off + len <= usize::MAX,
        ensures
            r == (RawView { base, off, len }),
    {
        RawView { base, off, len }
    }

    /// The mapping's identity, in place of the base address.
    pub fn as_ptr(&self) -> (r: usize)
        ensures
            r == self.base,
    {
        self.base
    }

    pub fn offset(&self) -> (r: usize)
        ensures
            r == self.off,
    {
        self.off
    }

    pub fn len(&self) -> (r: usize)
        ensures
            r == self.len,
    {
        self.len
    }
}

/// A mapped block owned by the cache: a descriptor plus the borrow count
/// and the dirty flag.
#[derive(Clone, Copy)]
pub struct CachedBlock {
    view: RawView,
    refs: usize,
    dirty: bool,
}

impl CachedBlock {
    pub closed spec fn base(self) -> int {
        self.view.base as int
    }

    pub closed spec fn off(self) -> int {
        self.view.off as int
    }

    pub closed spec fn len(self) -> int {
        self.view.len as int
    }

    pub closed spec fn refs(self) -> int {
        self.refs as int
    }

    pub closed spec fn dirty(self) -> bool {
        self.dirty
    }

    pub open spec fn wf(self) -> bool {
        self.off() + self.len() <= usize::MAX
    }

    pub fn new(view: RawView) -> (b: CachedBlock)
        ensures
            b.base() == view.base,
            b.off() == view.off,
            b.len() == view.len,
            b.refs() == 0,
            !b.dirty(),
    {
        CachedBlock { view, refs: 0, dirty: false }
    }

    /// Whether this block's range contains the requested range.
    pub fn is_hit(&self, off: usize, len: usize) -> (r: bool)
        requires
            self.wf(),
            off + len <= usize::MAX,
        ensures
            r == block_hit(*self, off as int, len as int),
    {
        self.view.off <= off && self.view.off + self.view.len >= off + len
    }

    /// Whether this block's range and the given range intersect.
    pub fn is_overlapping(&self, off: usize, len: usize) -> (r: bool)
        requires
            self.wf(),
            off + len <= usize::MAX,
        ensures
            r == block_overlap(*self, off as int, len as int),
    {
        let start = if self.view.off >= off {
            self.view.off
        } else {
            off
        };
        let this_end = self.view.off + self.view.len;
        let that_end = off + len;
        let end = if this_end <= that_end {
            this_end
        } else {
            that_end
        };
        start < end
    }

    pub fn raw_view(&self) -> (r: &RawView)
        ensures
            r.base == self.base(),
            r.off == self.off(),
            r.len == self.len(),
    {
        &self.view
    }

    /// Mints a read-only view of the requested sub-range and records the
    /// borrow.
    pub fn view_ref(&mut self, off: usize, len: usize) -> (v: ViewRef)
        requires
            old(self).wf(),
            off + len <= usize::MAX,
            block_hit(*old(self), off as int, len as int),
            old(self).refs() < usize::MAX,
        ensures
            final(self).base() == old(self).base(),
            final(self).off() == old(self).off(),
            final(self).len() == old(self).len(),
            final(self).dirty() == old(self).dirty(),
            final(self).refs() == old(self).refs() + 1,
            v.base_id() == old(self).base(),
            v.inner_off() == off - old(self).off(),
            v.view_len() == len,
            v.abs_off() == off,
    {
        self.refs = self.refs + 1;
        ViewRef { base: self.view.base, off: off - self.view.off, len, pos: off }
    }

    /// Mints the single mutable view of the requested sub-range. The block
    /// must have no outstanding borrows.
    pub fn view_mut(&mut self, off: usize, len: usize) -> (v: ViewMut)
        requires
            old(self).wf(),
            off + len <= usize::MAX,
            block_hit(*old(self), off as int, len as int),
            old(self).refs() == 0,
        ensures
            *final(self) == *old(self),
            v.base_id() == old(self).base(),
            v.inner_off() == off - old(self).off(),
            v.view_len() == len,
            v.abs_off() == off,
    {
        ViewMut { base: self.view.base, off: off - self.view.off, len, pos: off }
    }

    /// Whether this block's mapping has the given identity.
    pub fn holds(&self, base: usize) -> (r: bool)
        ensures
            r == (self.base() == base),
    {
        self.view.base == base
    }

    /// Returns a read-only borrow; reports whether it was the last one.
    pub fn restore_ref(&mut self, view: &ViewRef) -> (last: bool)
        requires
            old(self).refs() >= 1,
            view.base_id() == old(self).base(),
        ensures
            final(self).base() == old(self).base(),
            final(self).off() == old(self).off(),
            final(self).len() == old(self).len(),
            final(self).dirty() == old(self).dirty(),
            final(self).refs() == old(self).refs() - 1,
            last == (final(self).refs() == 0),
    {
        self.refs = self.refs - 1;
        self.refs == 0
    }

    /// Returns the mutable borrow; the block has been written through and
    /// is dirty from now on.
    pub fn restore_mut(&mut self, view: &ViewMut)
        requires
            view.base_id() == old(self).base(),
        ensures
            final(self).base() == old(self).base(),
            final(self).off() == old(self).off(),
            final(self).len() == old(self).len(),
            final(self).refs() == old(self).refs(),
            final(self).dirty(),
    {
        self.dirty = true;
    }

    /// Reports whether eviction must flush this block's mapping. The byte
    /// store under this cache is coherent, so there are no buffered bytes
    /// to carry; the caller records the flush instead.
    pub fn flush_if_dirty(&self) -> (flushed: bool)
        ensures
            flushed == self.dirty(),
    {
        self.dirty
    }
}

/// A read-only view into a sub-range of a lent block.
///
/// The handle names the block's mapping identity, the view's offset inside
/// the block, and its length. It is not a borrow in the language's sense:
/// the holder gives it back with `restore_ref`, which is when the block's
/// borrow count drops.
pub struct ViewRef {
    base: usize,
    off: usize,
    len: usize,
    pos: usize,
}

impl ViewRef {
    /// Identity of the block's mapping.
    pub closed spec fn base_id(self) -> int {
        self.base as int
    }

    /// Absolute offset of the view's first byte in the underlying buffer.
    pub closed spec fn abs_off(self) -> int {
        self.pos as int
    }

    /// Absolute offset of the view's first byte in the underlying buffer.
    pub fn pos(&self) -> (r: usize)
        ensures
            r == self.abs_off(),
    {
        self.pos
    }

    /// Offset of the view inside the block.
    pub closed spec fn inner_off(self) -> int {
        self.off as int
    }

    /// Length of the view in bytes.
    pub closed spec fn view_len(self) -> int {
        self.len as int
    }

    /// The identity of the backing mapping, in place of its base address.
    pub fn as_base_ptr(&self) -> (r: usize)
        ensures
            r == self.base_id(),
    {
        self.base
    }

    /// The identity of the view's first byte, in place of its address.
    pub fn as_ptr(&self) -> (r: usize)
        requires
            self.base_id() + self.inner_off() <= usize::MAX,
        ensures
            r == self.base_id() + self.inner_off(),
    {
        self.base + self.off
    }

    pub fn offset(&self) -> (r: usize)
        ensures
            r == self.inner_off(),
    {
        self.off
    }

    pub fn len(&self) -> (r: usize)
        ensures
            r == self.view_len(),
    {
        self.len
    }
}

/// The single mutable view into the exclusive block.
///
/// Like `ViewRef` a plain handle; the holder gives it back with
/// `restore_mut`, which marks the block dirty and returns it to the
/// available queue.
pub struct ViewMut {
    base: usize,
    off: usize,
    len: usize,
    pos: usize,
}

impl ViewMut {
    /// Identity of the block's mapping.
    pub closed spec fn base_id(self) -> int {
        self.base as int
    }

    /// Absolute offset of the view's first byte in the underlying buffer.
    pub closed spec fn abs_off(self) -> int {
        self.pos as int
    }

    /// Absolute offset of the view's first byte in the underlying buffer.
    pub fn pos(&self) -> (r: usize)
        ensures
            r == self.abs_off(),
    {
        self.pos
    }

    /// Offset of the view inside the block.
    pub closed spec fn inner_off(self) -> int {
        self.off as int
    }

    /// Length of the view in bytes.
    pub closed spec fn view_len(self) -> int {
        self.len as int
    }

    /// The identity of the backing mapping, in place of its base address.
    pub fn as_base_ptr(&self) -> (r: usize)
        ensures
            r == self.base_id(),
    {
        self.base
    }

    /// The identity of the view's first byte, in place of its address.
    pub fn as_ptr(&self) -> (r: usize)
        requires
            self.base_id() + self.inner_off() <= usize::MAX,
        ensures
            r == self.base_id() + self.inner_off(),
    {
        self.base + self.off
    }

    pub fn offset(&self) -> (r: usize)
        ensures
            r == self.inner_off(),
    {
        self.off
    }

    pub fn len(&self) -> (r: usize)
        ensures
            r == self.view_len(),
    {
        self.len
    }
}

/// The outcome of a read-only request: either a minted view, or a token
/// that the caller resolves by fetching a mapping for the recorded range.
pub struct Take {
    view: Option<ViewRef>,
    off: usize,
    len: usize,
}

impl Take {
    /// The view minted on a hit, if there was one.
    pub closed spec fn taken(self) -> Option<ViewRef> {
        self.view
    }

    /// The requested offset, kept for the fetch.
    pub closed spec fn req_off(self) -> usize {
        self.off
    }

    /// The requested length, kept for the fetch.
    pub closed spec fn req_len(self) -> usize {
        self.len
    }

    /// Hands out the minted view, or nothing on a miss. The caller that
    /// resolves misses itself uses this in place of `or_fetch`.
    pub fn into_view(self) -> (r: Option<ViewRef>)
        ensures
            r == self.taken(),
    {
        self.view
    }

    /// Resolves the request: the minted view on a hit; otherwise `fetch`
    /// produces a mapping that covers the request, the cache installs it as
    /// a lent block, and the first view into it is minted. A fetch failure
    /// is handed back unchanged and leaves the cache as it was.
    pub fn or_fetch<E, F: FnOnce(usize, usize) -> Result<RawView, E>>(
        self,
        cache: &mut Cache,
        fetch: F,
    ) -> (r: Result<ViewRef, E>)
        requires
            old(cache).inv(),
            old(cache).excl() is None,
            self.taken() is None ==> call_requires(fetch, (self.req_off(), self.req_len())),
            forall|m: RawView|
                #[trigger] call_ensures(fetch, (self.req_off(), self.req_len()), Ok::<RawView, E>(m))
                    ==> m.wf() && !old(cache).used_bases().contains(m.base as int) && m.off
                    <= self.req_off() && self.req_off() + self.req_len() <= m.off + m.len,
        ensures
            final(cache).inv(),
            final(cache).excl() is None,
            final(cache).avail() == old(cache).avail(),
            final(cache).cap() == old(cache).cap(),
            final(cache).flushes() == old(cache).flushes(),
            match self.taken() {
                Some(v) => r == Ok::<ViewRef, E>(v) && *final(cache) == *old(cache),
                None => match r {
                    Ok(v) => exists|m: RawView|
                        {
                            &&& #[trigger] call_ensures(
                                fetch,
                                (self.req_off(), self.req_len()),
                                Ok::<RawView, E>(m),
                            )
                            &&& final(cache).used_bases() == old(cache).used_bases().insert(
                                m.base as int,
                            )
                            &&& final(cache).lent_seq().len() == old(cache).lent_seq().len() + 1
                            &&& (forall|k: int|
                                0 <= k < old(cache).lent_seq().len() ==> final(cache).lent_seq()[k]
                                    == old(cache).lent_seq()[k])
                            &&& ({
                                let b = final(cache).lent_seq()[old(cache).lent_seq().len() as int];
                                b.base() == m.base && b.off() == m.off && b.len() == m.len
                                    && b.refs() == 1 && !b.dirty()
                            })
                            &&& v.base_id() == m.base
                            &&& v.inner_off() == self.req_off() - m.off
                            &&& v.view_len() == self.req_len()
                        },
                    Err(e) => *final(cache) == *old(cache) && call_ensures(
                        fetch,
                        (self.req_off(), self.req_len()),
                        Err::<RawView, E>(e),
                    ),
                },
            },
    {
        match self.view {
            Some(view) => Ok(view),
            None => match fetch(self.off, self.len) {
                Ok(fetched) => {
                    proof {
                        assert(call_ensures(
                            fetch,
                            (self.req_off(), self.req_len()),
                            Ok::<RawView, E>(fetched),
                        ));
                    }
                    Ok(cache.add_fetched_ref(fetched, self.off, self.len))
                },
                Err(e) => Err(e),
            },
        }
    }
}

/// The outcome of an exclusive request: either the minted mutable view, or
/// a token that the caller resolves by fetching a writable mapping.
pub struct TakeMut {
    view: Option<ViewMut>,
    off: usize,
    len: usize,
}

impl TakeMut {
    /// The view minted on a hit, if there was one.
    pub closed spec fn taken(self) -> Option<ViewMut> {
        self.view
    }

    /// The requested offset, kept for the fetch.
    pub closed spec fn req_off(self) -> usize {
        self.off
    }

    /// The requested length, kept for the fetch.
    pub closed spec fn req_len(self) -> usize {
        self.len
    }

    /// Hands out the minted view, or nothing on a miss. The caller that
    /// resolves misses itself uses this in place of `or_fetch`.
    pub fn into_view(self) -> (r: Option<ViewMut>)
        ensures
            r == self.taken(),
    {
        self.view
    }

    /// Resolves the request: the minted view on a hit; otherwise `fetch`
    /// produces a mapping that covers the request, the cache installs it
    /// directly as the exclusive block, and the mutable view is minted.
    pub fn or_fetch<E, F: FnOnce(usize, usize) -> Result<RawView, E>>(
        self,
        cache: &mut Cache,
        fetch: F,
    ) -> (r: Result<ViewMut, E>)
        requires
            old(cache).inv(),
            old(cache).lent_seq().len() == 0,
            old(cache).excl() is None || self.taken() is Some,
            self.taken() is Some ==> old(cache).excl() is Some,
            self.taken() is None ==> call_requires(fetch, (self.req_off(), self.req_len())),
            forall|m: RawView|
                #[trigger] call_ensures(fetch, (self.req_off(), self.req_len()), Ok::<RawView, E>(m))
                    ==> m.wf() && !old(cache).used_bases().contains(m.base as int) && m.off
                    <= self.req_off() && self.req_off() + self.req_len() <= m.off + m.len,
        ensures
            final(cache).inv(),
            final(cache).lent_seq().len() == 0,
            final(cache).avail() == old(cache).avail(),
            final(cache).cap() == old(cache).cap(),
            final(cache).flushes() == old(cache).flushes(),
            match self.taken() {
                Some(v) => r == Ok::<ViewMut, E>(v) && *final(cache) == *old(cache),
                None => match r {
                    Ok(v) => exists|m: RawView|
                        {
                            &&& #[trigger] call_ensures(
                                fetch,
                                (self.req_off(), self.req_len()),
                                Ok::<RawView, E>(m),
                            )
                            &&& final(cache).used_bases() == old(cache).used_bases().insert(
                                m.base as int,
                            )
                            &&& ({
                                match final(cache).excl() {
                                    Some(b) => b.base() == m.base && b.off() == m.off && b.len()
                                        == m.len && b.refs() == 0 && !b.dirty(),
                                    None => false,
                                }
                            })
                            &&& v.base_id() == m.base
                            &&& v.inner_off() == self.req_off() - m.off
                            &&& v.view_len() == self.req_len()
                        },
                    Err(e) => *final(cache) == *old(cache) && call_ensures(
                        fetch,
                        (self.req_off(), self.req_len()),
                        Err::<RawView, E>(e),
                    ),
                },
            },
    {
        match self.view {
            Some(view) => Ok(view),
            None => match fetch(self.off, self.len) {
                Ok(fetched) => {
                    proof {
                        assert(call_ensures(
                            fetch,
                            (self.req_off(), self.req_len()),
                            Ok::<RawView, E>(fetched),
                        ));
                    }
                    Ok(cache.add_fetched_mut(fetched, self.off, self.len))
                },
                Err(e) => Err(e),
            },
        }
    }
}

/// The available queue never holds more blocks than the capacity the cache
/// was built with, whatever operations ran before.
pub proof fn lemma_available_bounded(c: Cache)
    requires
        c.inv(),
    ensures
        c.avail().len() <= c.cap(),
{
}

/// The lent set and the available queue share no block: no mapping is in
/// both at once.
pub proof fn lemma_lent_available_disjoint(c: Cache)
    requires
        c.inv(),
    ensures
        forall|i: int, j: int|
            0 <= i < c.avail().len() && 0 <= j < c.lent_seq().len() ==> (
            #[trigger] c.avail()[i]).base() != (#[trigger] c.lent_seq()[j]).base(),
{
}

/// While the mutable view is out, no read-only view exists: an exclusive
/// block and a non-empty lent set never coexist.
pub proof fn lemma_exclusive_excludes_lent(c: Cache)
    requires
        c.inv(),
    ensures
        c.excl() is Some ==> c.lent_seq().len() == 0,
        c.lent_seq().len() > 0 ==> c.excl() is None,
{
}

/// A block that the overlap purge would drop stands in the available queue
/// and is not simultaneously lent: the purge never touches a block with
/// outstanding views.
pub proof fn lemma_purged_never_lent(c: Cache, off: int, len: int, i: int)
    requires
        c.inv(),
        0 <= i < c.avail().len(),
        block_overlap(c.avail()[i], off, len),
    ensures
        forall|j: int|
            0 <= j < c.lent_seq().len() ==> (#[trigger] c.lent_seq()[j]).base()
                != c.avail()[i].base(),
{
}

/// Every dirty block that eviction removes is flushed exactly once before
/// its mapping goes away: the flush log never repeats a mapping identity,
/// and a logged mapping is gone from the cache.
pub proof fn lemma_flush_once(c: Cache)
    requires
        c.inv(),
    ensures
        forall|i: int, j: int| 0 <= i < j < c.flushes().len() ==> c.flushes()[i] != c.flushes()[j],
        forall|i: int| 0 <= i < c.flushes().len() ==> !c.base_live(#[trigger] c.flushes()[i]),
{
}

/// Containment: the block's range is a superset of the requested range.
pub open spec fn block_hit(b: CachedBlock, off: int, len: int) -> bool {
    b.off() <= off && off + len <= b.off() + b.len()
}

/// Overlap: the block's range and the requested range intersect.
pub open spec fn block_overlap(b: CachedBlock, off: int, len: int) -> bool {
    (if b.off() >= off {
        b.off()
    } else {
        off
    }) < (if b.off() + b.len() <= off + len {
        b.off() + b.len()
    } else {
        off + len
    })
}

/// Pairwise distinct mapping identities.
pub open spec fn distinct_bases(s: Seq<CachedBlock>) -> bool {
    forall|i: int, j: int| 0 <= i < j < s.len() ==> s[i].base() != s[j].base()
}

/// The available queue after dropping every block that overlaps the range
/// of a newly returned block.
pub open spec fn purge(s: Seq<CachedBlock>, off: int, len: int) -> Seq<CachedBlock>
    decreases s.len(),
{
    if s.len() == 0 {
        Seq::empty()
    } else {
        let rest = purge(s.drop_last(), off, len);
        if block_overlap(s.last(), off, len) {
            rest
        } else {
            rest.push(s.last())
        }
    }
}

pub proof fn lemma_purge_step(s: Seq<CachedBlock>, off: int, len: int, i: int)
    requires
        0 <= i < s.len(),
    ensures
        purge(s.take(i + 1), off, len) == if block_overlap(s[i], off, len) {
            purge(s.take(i), off, len)
        } else {
            purge(s.take(i), off, len).push(s[i])
        },
{
    assert(s.take(i + 1).drop_last() =~= s.take(i));
    assert(s.take(i + 1).last() == s[i]);
}

/// The purge keeps a subset: every kept block stood in the queue, no kept
/// block overlaps the range, the order shrinks, and distinct identities
/// stay distinct.
pub proof fn lemma_purge_props(s: Seq<CachedBlock>, off: int, len: int)
    requires
        distinct_bases(s),
    ensures
        purge(s, off, len).len() <= s.len(),
        forall|j: int|
            0 <= j < purge(s, off, len).len() ==> !block_overlap(
                #[trigger] purge(s, off, len)[j],
                off,
                len,
            ),
        forall|j: int|
            0 <= j < purge(s, off, len).len() ==> exists|i: int|
                0 <= i < s.len() && #[trigger] purge(s, off, len)[j] == s[i],
        distinct_bases(purge(s, off, len)),
    decreases s.len(),
{
    if s.len() > 0 {
        let head = s.drop_last();
        assert(distinct_bases(head));
        lemma_purge_props(head, off, len);
        let rest = purge(head, off, len);
        assert forall|j: int| 0 <= j < rest.len() implies exists|i: int|
            0 <= i < s.len() && #[trigger] rest[j] == s[i] by {
            let i = choose|i: int| 0 <= i < head.len() && rest[j] == head[i];
            assert(s[i] == head[i]);
        }
        if !block_overlap(s.last(), off, len) {
            let out = rest.push(s.last());
            assert forall|j1: int, j2: int| 0 <= j1 < j2 < out.len() implies out[j1].base()
                != out[j2].base() by {
                if j2 == out.len() - 1 {
                    let i = choose|i: int| 0 <= i < head.len() && rest[j1] == head[i];
                    assert(head[i].base() != s.last().base());
                }
            }
        }
    }
}

/// The bounded cache of mapped blocks.
pub struct Cache {
    available: Vec<CachedBlock>,
    lent: Vec<CachedBlock>,
    exclusive: Option<CachedBlock>,
    capacity: usize,
    flush_log: Ghost<Seq<int>>,
    used: Ghost<Set<int>>,
}

impl Cache {
    /// The available queue; the front is the oldest block.
    pub closed spec fn avail(self) -> Seq<CachedBlock> {
        self.available@
    }

    /// The blocks with outstanding read-only views.
    pub closed spec fn lent_seq(self) -> Seq<CachedBlock> {
        self.lent@
    }

    /// The block behind the single mutable view, if one is out.
    pub closed spec fn excl(self) -> Option<CachedBlock> {
        self.exclusive
    }

    /// The bound on the available queue.
    pub closed spec fn cap(self) -> int {
        self.capacity as int
    }

    /// Identities of the dirty blocks flushed at eviction, in order.
    pub closed spec fn flushes(self) -> Seq<int> {
        self.flush_log@
    }

    /// Identities of every mapping ever installed in this cache.
    pub closed spec fn used_bases(self) -> Set<int> {
        self.used@
    }

    /// Whether a mapping with this identity is in the cache right now.
    pub open spec fn base_live(self, base: int) -> bool {
        (exists|i: int| 0 <= i < self.avail().len() && (#[trigger] self.avail()[i]).base() == base)
            || (exists|i: int|
            0 <= i < self.lent_seq().len() && (#[trigger] self.lent_seq()[i]).base() == base)
            || (match self.excl() {
            Some(b) => b.base() == base,
            None => false,
        })
    }

    /// The cache's invariant. It carries the bound on the available queue,
    /// the borrow discipline of the three sets, the disjointness of their
    /// blocks, and the flush-once bookkeeping.
    pub open spec fn inv(self) -> bool {
        &&& self.cap() >= 1
        &&& self.avail().len() <= self.cap()
        &&& forall|i: int|
            0 <= i < self.avail().len() ==> (#[trigger] self.avail()[i]).wf() && self.avail()[i].refs()
                == 0
        &&& forall|i: int|
            0 <= i < self.lent_seq().len() ==> (#[trigger] self.lent_seq()[i]).wf()
                && self.lent_seq()[i].refs() >= 1
        &&& match self.excl() {
            Some(b) => b.wf() && b.refs() == 0 && self.lent_seq().len() == 0,
            None => true,
        }
        &&& distinct_bases(self.avail())
        &&& distinct_bases(self.lent_seq())
        &&& forall|i: int, j: int|
            0 <= i < self.avail().len() && 0 <= j < self.lent_seq().len() ==> (
            #[trigger] self.avail()[i]).base() != (#[trigger] self.lent_seq()[j]).base()
        &&& match self.excl() {
            Some(b) => (forall|i: int|
                0 <= i < self.avail().len() ==> (#[trigger] self.avail()[i]).base() != b.base()),
            None => true,
        }
        &&& forall|i: int|
            0 <= i < self.avail().len() ==> self.used_bases().contains(
                (#[trigger] self.avail()[i]).base(),
            )
        &&& forall|i: int|
            0 <= i < self.lent_seq().len() ==> self.used_bases().contains(
                (#[trigger] self.lent_seq()[i]).base(),
            )
        &&& match self.excl() {
            Some(b) => self.used_bases().contains(b.base()),
            None => true,
        }
        &&& forall|i: int, j: int|
            0 <= i < j < self.flushes().len() ==> self.flushes()[i] != self.flushes()[j]
        &&& forall|i: int|
            0 <= i < self.flushes().len() ==> self.used_bases().contains(
                #[trigger] self.flushes()[i],
            )
        &&& forall|i: int|
            0 <= i < self.flushes().len() ==> !self.base_live(#[trigger] self.flushes()[i])
    }

    /// Creates an empty cache whose available queue holds at most
    /// `capacity` blocks. A capacity of zero is rejected by contract.
    pub fn with_capacity(capacity: usize) -> (c: Cache)
        requires
            capacity >= 1,
        ensures
            c.inv(),
            c.cap() == capacity,
            c.avail().len() == 0,
            c.lent_seq().len() == 0,
            c.excl() is None,
            c.flushes().len() == 0,
            c.used_bases() == Set::<int>::empty(),
    {
        Cache {
            available: Vec::new(),
            lent: Vec::new(),
            exclusive: None,
            capacity,
            flush_log: Ghost(Seq::empty()),
            used: Ghost(Set::empty()),
        }
    }

    /// The number of blocks in the available queue.
    pub fn available(&self) -> (n: usize)
        ensures
            n == self.avail().len(),
    {
        self.available.len()
    }

    /// The number of blocks with outstanding read-only views.
    pub fn lent(&self) -> (n: usize)
        ensures
            n == self.lent_seq().len(),
    {
        self.lent.len()
    }

    /// Whether some cached block, available or lent, contains the range.
    pub fn holds(&self, off: usize, len: usize) -> (r: bool)
        requires
            self.inv(),
            off + len <= usize::MAX,
        ensures
            r == ((exists|i: int|
                0 <= i < self.avail().len() && block_hit(
                    #[trigger] self.avail()[i],
                    off as int,
                    len as int,
                )) || (exists|i: int|
                0 <= i < self.lent_seq().len() && block_hit(
                    #[trigger] self.lent_seq()[i],
                    off as int,
                    len as int,
                ))),
    {
        let mut i: usize = 0;
        while i < self.available.len()
            invariant
                self.inv(),
                off + len <= usize::MAX,
                0 <= i <= self.avail().len(),
                forall|k: int| 0 <= k < i ==> !block_hit(#[trigger] self.avail()[k], off as int, len as int),
            decreases self.avail().len() - i,
        {
            if self.available[i].is_hit(off, len) {
                return true;
            }
            i = i + 1;
        }
        let mut j: usize = 0;
        while j < self.lent.len()
            invariant
                self.inv(),
                off + len <= usize::MAX,
                0 <= j <= self.lent_seq().len(),
                forall|k: int| 0 <= k < self.avail().len() ==> !block_hit(#[trigger] self.avail()[k], off as int, len as int),
                forall|k: int| 0 <= k < j ==> !block_hit(#[trigger] self.lent_seq()[k], off as int, len as int),
            decreases self.lent_seq().len() - j,
        {
            if self.lent[j].is_hit(off, len) {
                return true;
            }
            j = j + 1;
        }
        false
    }
}

/// No cached block, available or lent, contains the range.
pub open spec fn no_hit(c: Cache, off: int, len: int) -> bool {
    (forall|i: int| 0 <= i < c.avail().len() ==> !block_hit(#[trigger] c.avail()[i], off, len))
        && (forall|i: int|
        0 <= i < c.lent_seq().len() ==> !block_hit(#[trigger] c.lent_seq()[i], off, len))
}

/// `a` is `b` with the borrow count set to `refs` and all else equal.
pub open spec fn same_block_refs(a: CachedBlock, b: CachedBlock, refs: int) -> bool {
    a.base() == b.base() && a.off() == b.off() && a.len() == b.len() && a.dirty() == b.dirty()
        && a.refs() == refs
}

/// The available queue's transition when a block comes back: overlapping
/// blocks are purged, then the oldest block is evicted if the queue is
/// full — flushed first when dirty — and the block is pushed at the
/// most-recently-used end.
pub open spec fn add_avail_post(
    pre_avail: Seq<CachedBlock>,
    pre_flush: Seq<int>,
    cap: int,
    b: CachedBlock,
    post_avail: Seq<CachedBlock>,
    post_flush: Seq<int>,
) -> bool {
    let purged = purge(pre_avail, b.off(), b.len());
    if purged.len() < cap {
        post_avail == purged.push(b) && post_flush == pre_flush
    } else {
        post_avail == purged.subrange(1, purged.len() as int).push(b) && post_flush == (
        if purged[0].dirty() {
            pre_flush.push(purged[0].base())
        } else {
            pre_flush
        })
    }
}

/// The cache's transition when a read-only request hits: either a block of
/// the available queue that contains the range — the most recently used
/// such block — moves to the lent set with one borrow, or, when no
/// available block contains it, the most recently lent containing block
/// gains one more borrow.
pub open spec fn take_hit(pre: Cache, post: Cache, off: int, len: int, v: ViewRef) -> bool {
    v.view_len() == len && v.abs_off() == off && ((exists|i: int|
        {
            &&& 0 <= i < pre.avail().len()
            &&& block_hit(#[trigger] pre.avail()[i], off, len)
            &&& forall|k: int|
                i < k < pre.avail().len() ==> !block_hit(#[trigger] pre.avail()[k], off, len)
            &&& v.base_id() == pre.avail()[i].base()
            &&& v.inner_off() == off - pre.avail()[i].off()
            &&& post.avail() == pre.avail().remove(i)
            &&& post.lent_seq().len() == pre.lent_seq().len() + 1
            &&& forall|k: int|
                0 <= k < pre.lent_seq().len() ==> post.lent_seq()[k] == pre.lent_seq()[k]
            &&& same_block_refs(
                post.lent_seq()[pre.lent_seq().len() as int],
                pre.avail()[i],
                1,
            )
        }) || ((forall|k: int|
        0 <= k < pre.avail().len() ==> !block_hit(#[trigger] pre.avail()[k], off, len))
        && post.avail() == pre.avail() && (exists|i: int|
        {
            &&& 0 <= i < pre.lent_seq().len()
            &&& block_hit(#[trigger] pre.lent_seq()[i], off, len)
            &&& forall|k: int|
                i < k < pre.lent_seq().len() ==> !block_hit(#[trigger] pre.lent_seq()[k], off, len)
            &&& v.base_id() == pre.lent_seq()[i].base()
            &&& v.inner_off() == off - pre.lent_seq()[i].off()
            &&& post.lent_seq().len() == pre.lent_seq().len()
            &&& forall|k: int|
                0 <= k < pre.lent_seq().len() && k != i ==> post.lent_seq()[k]
                    == pre.lent_seq()[k]
            &&& same_block_refs(
                post.lent_seq()[i],
                pre.lent_seq()[i],
                pre.lent_seq()[i].refs() + 1,
            )
        })))
}

/// The cache's transition when an exclusive request hits: the most
/// recently used containing block of the available queue becomes the
/// exclusive block.
pub open spec fn take_mut_hit(pre: Cache, post: Cache, off: int, len: int, v: ViewMut) -> bool {
    v.view_len() == len && v.abs_off() == off && (exists|i: int|
        {
            &&& 0 <= i < pre.avail().len()
            &&& block_hit(#[trigger] pre.avail()[i], off, len)
            &&& forall|k: int|
                i < k < pre.avail().len() ==> !block_hit(#[trigger] pre.avail()[k], off, len)
            &&& v.base_id() == pre.avail()[i].base()
            &&& v.inner_off() == off - pre.avail()[i].off()
            &&& post.avail() == pre.avail().remove(i)
            &&& post.excl() == Some(pre.avail()[i])
        })
}

impl Cache {
    /// Every lent block can take one more borrow without overflowing its
    /// counter.
    pub open spec fn can_lend(self) -> bool {
        forall|i: int|
            0 <= i < self.lent_seq().len() ==> (#[trigger] self.lent_seq()[i]).refs() < usize::MAX
    }

    /// Removes the most recently used available block containing the
    /// range, if there is one.
    pub fn acquire_available(&mut self, off: usize, len: usize) -> (r: Option<CachedBlock>)
        requires
            old(self).inv(),
            off + len <= usize::MAX,
        ensures
            final(self).inv(),
            final(self).lent_seq() == old(self).lent_seq(),
            final(self).excl() == old(self).excl(),
            final(self).cap() == old(self).cap(),
            final(self).flushes() == old(self).flushes(),
            final(self).used_bases() == old(self).used_bases(),
            match r {
                None => *final(self) == *old(self) && (forall|k: int|
                    0 <= k < old(self).avail().len() ==> !block_hit(
                        #[trigger] old(self).avail()[k],
                        off as int,
                        len as int,
                    )),
                Some(b) => exists|i: int|
                    {
                        &&& 0 <= i < old(self).avail().len()
                        &&& block_hit(#[trigger] old(self).avail()[i], off as int, len as int)
                        &&& forall|k: int|
                            i < k < old(self).avail().len() ==> !block_hit(
                                #[trigger] old(self).avail()[k],
                                off as int,
                                len as int,
                            )
                        &&& b == old(self).avail()[i]
                        &&& final(self).avail() == old(self).avail().remove(i)
                    },
            },
    {
        let ghost pre = self.avail();
        let mut i: usize = self.available.len();
        while i > 0
            invariant
                self.inv(),
                *self == *old(self),
                pre == self.avail(),
                off + len <= usize::MAX,
                0 <= i <= pre.len(),
                forall|k: int|
                    i <= k < pre.len() ==> !block_hit(#[trigger] pre[k], off as int, len as int),
            decreases i,
        {
            i = i - 1;
            if self.available[i].is_hit(off, len) {
                let b = self.available.remove(i);
                proof {
                    pre.remove_ensures(i as int);
                    assert(self.flushes() == old(self).flushes());
                    assert(self.used_bases() == old(self).used_bases());
                    assert(self.lent_seq() == old(self).lent_seq());
                    let post = self.avail();
                    assert forall|p: int, q: int| 0 <= p < q < post.len() implies post[p].base()
                        != post[q].base() by {}
                    // removal keeps every flushed identity dead
                    assert forall|fi: int| 0 <= fi < self.flushes().len() implies !self.base_live(
                        #[trigger] self.flushes()[fi],
                    ) by {
                        let f = self.flushes()[fi];
                        assert(self.flushes() == old(self).flushes());
                        assert(!old(self).base_live(old(self).flushes()[fi]));
                        if exists|k: int|
                            0 <= k < post.len() && (#[trigger] post[k]).base() == f {
                            let k = choose|k: int|
                                0 <= k < post.len() && (#[trigger] post[k]).base() == f;
                            if k < i as int {
                                assert(pre[k].base() == f);
                            } else {
                                assert(pre[k + 1].base() == f);
                            }
                        }
                    }
                }
                return Some(b);
            }
        }
        None
    }

    /// Returns a block to the available queue: purges overlapping blocks,
    /// evicts the oldest — flushing it first when dirty — if the queue is
    /// full, and installs the block at the most-recently-used end.
    pub fn add_available(&mut self, block: CachedBlock)
        requires
            old(self).inv(),
            block.wf(),
            block.refs() == 0,
            !old(self).base_live(block.base()),
            old(self).used_bases().contains(block.base()),
            !old(self).flushes().contains(block.base()),
        ensures
            final(self).inv(),
            final(self).lent_seq() == old(self).lent_seq(),
            final(self).excl() == old(self).excl(),
            final(self).cap() == old(self).cap(),
            final(self).used_bases() == old(self).used_bases(),
            add_avail_post(
                old(self).avail(),
                old(self).flushes(),
                old(self).cap(),
                block,
                final(self).avail(),
                final(self).flushes(),
            ),
    {
        let ghost pre = self.avail();
        let ghost b_off = block.off();
        let ghost b_len = block.len();
        proof {
            lemma_purge_props(pre, b_off, b_len);
        }
        let mut kept: Vec<CachedBlock> = Vec::new();
        let mut i: usize = 0;
        while i < self.available.len()
            invariant
                self.inv(),
                *self == *old(self),
                pre == self.avail(),
                block.wf(),
                b_off == block.off(),
                b_len == block.len(),
                0 <= i <= pre.len(),
                kept@ == purge(pre.take(i as int), b_off, b_len),
            decreases pre.len() - i,
        {
            let b = self.available[i];
            proof {
                lemma_purge_step(pre, b_off, b_len, i as int);
            }
            if !b.is_overlapping(block.view.off, block.view.len) {
                kept.push(b);
            }
            i = i + 1;
        }
        proof {
            assert(pre.take(pre.len() as int) =~= pre);
        }
        let ghost purged = purge(pre, b_off, b_len);
        if kept.len() >= self.capacity {
            let evicted = kept.remove(0);
            proof {
                purged.remove_ensures(0);
                assert(purged.remove(0) =~= purged.subrange(1, purged.len() as int));
            }
            if evicted.flush_if_dirty() {
                self.flush_log = Ghost(self.flush_log@.push(evicted.view.base as int));
            }
        }
        kept.push(block);
        self.available = kept;
        proof {
            self.lemma_add_available_inv(*old(self), pre, purged, block);
        }
    }

    /// Serves a read-only request: a containing block of the available
    /// queue, else one of the lent set, else an empty token that the caller
    /// resolves by fetching. Searches are most-recently-used first.
    pub fn take(&mut self, off: usize, len: usize) -> (t: Take)
        requires
            old(self).inv(),
            old(self).excl() is None,
            old(self).can_lend(),
            off + len <= usize::MAX,
        ensures
            final(self).inv(),
            final(self).excl() is None,
            final(self).cap() == old(self).cap(),
            final(self).flushes() == old(self).flushes(),
            final(self).used_bases() == old(self).used_bases(),
            t.req_off() == off,
            t.req_len() == len,
            match t.taken() {
                Some(v) => take_hit(*old(self), *final(self), off as int, len as int, v),
                None => *final(self) == *old(self) && no_hit(*old(self), off as int, len as int),
            },
    {
        let acquired = self.acquire_available(off, len);
        let ghost mid = *self;
        match acquired {
            Some(mut block) => {
                let ghost b0 = block;
                let view = block.view_ref(off, len);
                self.lent.push(block);
                proof {
                    assert(self.flushes() == old(self).flushes());
                    assert(self.used_bases() == old(self).used_bases());
                    assert(self.avail() == mid.avail());
                    let ghost post = self.lent_seq();
                    assert forall|p: int, q: int| 0 <= p < q < post.len() implies post[p].base()
                        != post[q].base() by {}
                    assert forall|fi: int| 0 <= fi < self.flushes().len() implies !self.base_live(
                        #[trigger] self.flushes()[fi],
                    ) by {
                        let f = self.flushes()[fi];
                        assert(!old(self).base_live(old(self).flushes()[fi]));
                        if exists|k: int|
                            0 <= k < post.len() && (#[trigger] post[k]).base() == f {
                            let k = choose|k: int|
                                0 <= k < post.len() && (#[trigger] post[k]).base() == f;
                            if k < post.len() - 1 {
                                assert(old(self).lent_seq()[k].base() == f);
                            }
                        }
                    }
                    let i = choose|i: int|
                        {
                            &&& 0 <= i < old(self).avail().len()
                            &&& block_hit(#[trigger] old(self).avail()[i], off as int, len as int)
                            &&& forall|k: int|
                                i < k < old(self).avail().len() ==> !block_hit(
                                    #[trigger] old(self).avail()[k],
                                    off as int,
                                    len as int,
                                )
                            &&& b0 == old(self).avail()[i]
                            &&& mid.avail() == old(self).avail().remove(i)
                        };
                    assert(same_block_refs(
                        self.lent_seq()[old(self).lent_seq().len() as int],
                        old(self).avail()[i],
                        1,
                    ));
                    assert(take_hit(*old(self), *self, off as int, len as int, view));
                }
                Take { view: Some(view), off, len }
            },
            None => {
                let ghost pre = self.lent_seq();
                let mut i: usize = self.lent.len();
                while i > 0
                    invariant
                        self.inv(),
                        self.can_lend(),
                        *self == *old(self),
                        pre == self.lent_seq(),
                        off + len <= usize::MAX,
                        0 <= i <= pre.len(),
                        forall|k: int|
                            i <= k < pre.len() ==> !block_hit(
                                #[trigger] pre[k],
                                off as int,
                                len as int,
                            ),
                        forall|k: int|
                            0 <= k < old(self).avail().len() ==> !block_hit(
                                #[trigger] old(self).avail()[k],
                                off as int,
                                len as int,
                            ),
                    decreases i,
                {
                    i = i - 1;
                    if self.lent[i].is_hit(off, len) {
                        let mut block = self.lent[i];
                        let view = block.view_ref(off, len);
                        self.lent.set(i, block);
                        proof {
                            assert(self.flushes() == old(self).flushes());
                            assert(self.used_bases() == old(self).used_bases());
                            assert(self.avail() == old(self).avail());
                            let post = self.lent_seq();
                            assert forall|p: int, q: int| 0 <= p < q < post.len() implies
                                post[p].base() != post[q].base() by {}
                            assert forall|fi: int|
                                0 <= fi < self.flushes().len() implies !self.base_live(
                                #[trigger] self.flushes()[fi],
                            ) by {
                                let f = self.flushes()[fi];
                                assert(!old(self).base_live(old(self).flushes()[fi]));
                                if exists|k: int|
                                    0 <= k < post.len() && (#[trigger] post[k]).base() == f {
                                    let k = choose|k: int|
                                        0 <= k < post.len() && (#[trigger] post[k]).base() == f;
                                    assert(pre[k].base() == f);
                                }
                            }
                            assert(block_hit(pre[i as int], off as int, len as int));
                            assert(same_block_refs(
                                post[i as int],
                                pre[i as int],
                                pre[i as int].refs() + 1,
                            ));
                            assert(take_hit(*old(self), *self, off as int, len as int, view));
                        }
                        return Take { view: Some(view), off, len };
                    }
                }
                Take { view: None, off, len }
            },
        }
    }

    /// Serves an exclusive request. The lent set must be empty: a mutable
    /// view may never coexist with read-only views. A containing block of
    /// the available queue becomes the exclusive block; otherwise the empty
    /// token asks the caller to fetch.
    pub fn take_mut(&mut self, off: usize, len: usize) -> (t: TakeMut)
        requires
            old(self).inv(),
            old(self).lent_seq().len() == 0,
            old(self).excl() is None,
            off + len <= usize::MAX,
        ensures
            final(self).inv(),
            final(self).lent_seq().len() == 0,
            final(self).cap() == old(self).cap(),
            final(self).flushes() == old(self).flushes(),
            final(self).used_bases() == old(self).used_bases(),
            t.req_off() == off,
            t.req_len() == len,
            match t.taken() {
                Some(v) => take_mut_hit(*old(self), *final(self), off as int, len as int, v),
                None => *final(self) == *old(self) && no_hit(*old(self), off as int, len as int),
            },
    {
        let acquired = self.acquire_available(off, len);
        let ghost mid = *self;
        match acquired {
            Some(mut block) => {
                let ghost b0 = block;
                let view = block.view_mut(off, len);
                self.exclusive = Some(block);
                proof {
                    assert forall|fi: int| 0 <= fi < self.flushes().len() implies !self.base_live(
                        #[trigger] self.flushes()[fi],
                    ) by {
                        let f = self.flushes()[fi];
                        assert(!old(self).base_live(old(self).flushes()[fi]));
                    }
                    let i = choose|i: int|
                        {
                            &&& 0 <= i < old(self).avail().len()
                            &&& block_hit(#[trigger] old(self).avail()[i], off as int, len as int)
                            &&& forall|k: int|
                                i < k < old(self).avail().len() ==> !block_hit(
                                    #[trigger] old(self).avail()[k],
                                    off as int,
                                    len as int,
                                )
                            &&& b0 == old(self).avail()[i]
                            &&& mid.avail() == old(self).avail().remove(i)
                        };
                    assert(take_mut_hit(*old(self), *self, off as int, len as int, view));
                }
                TakeMut { view: Some(view), off, len }
            },
            None => TakeMut { view: None, off, len },
        }
    }

    /// Installs a freshly fetched mapping as a lent block with one borrow
    /// and mints the first view into it.
    pub fn add_fetched_ref(&mut self, view: RawView, off: usize, len: usize) -> (v: ViewRef)
        requires
            old(self).inv(),
            old(self).excl() is None,
            view.wf(),
            !old(self).used_bases().contains(view.base as int),
            view.off <= off,
            off + len <= view.off + view.len,
        ensures
            final(self).inv(),
            final(self).avail() == old(self).avail(),
            final(self).excl() is None,
            final(self).cap() == old(self).cap(),
            final(self).flushes() == old(self).flushes(),
            final(self).used_bases() == old(self).used_bases().insert(view.base as int),
            final(self).lent_seq().len() == old(self).lent_seq().len() + 1,
            forall|k: int|
                0 <= k < old(self).lent_seq().len() ==> final(self).lent_seq()[k] == old(
                    self).lent_seq()[k],
            ({
                let b = final(self).lent_seq()[old(self).lent_seq().len() as int];
                b.base() == view.base && b.off() == view.off && b.len() == view.len && b.refs()
                    == 1 && !b.dirty()
            }),
            v.base_id() == view.base,
            v.inner_off() == off - view.off,
            v.view_len() == len,
            v.abs_off() == off,
    {
        let mut block = CachedBlock::new(view);
        let minted = block.view_ref(off, len);
        self.lent.push(block);
        self.used = Ghost(self.used@.insert(view.base as int));
        proof {
            let post = self.lent_seq();
            assert forall|p: int, q: int| 0 <= p < q < post.len() implies post[p].base()
                != post[q].base() by {}
            assert forall|fi: int| 0 <= fi < self.flushes().len() implies !self.base_live(
                #[trigger] self.flushes()[fi],
            ) by {
                let f = self.flushes()[fi];
                assert(!old(self).base_live(old(self).flushes()[fi]));
                assert(old(self).used_bases().contains(f));
                if exists|k: int| 0 <= k < post.len() && (#[trigger] post[k]).base() == f {
                    let k = choose|k: int|
                        0 <= k < post.len() && (#[trigger] post[k]).base() == f;
                    if k < post.len() - 1 {
                        assert(old(self).lent_seq()[k].base() == f);
                    }
                }
            }
        }
        minted
    }

    /// Installs a freshly fetched mapping directly as the exclusive block
    /// and mints the mutable view into it.
    pub fn add_fetched_mut(&mut self, view: RawView, off: usize, len: usize) -> (v: ViewMut)
        requires
            old(self).inv(),
            old(self).lent_seq().len() == 0,
            old(self).excl() is None,
            view.wf(),
            !old(self).used_bases().contains(view.base as int),
            view.off <= off,
            off + len <= view.off + view.len,
        ensures
            final(self).inv(),
            final(self).avail() == old(self).avail(),
            final(self).lent_seq().len() == 0,
            final(self).cap() == old(self).cap(),
            final(self).flushes() == old(self).flushes(),
            final(self).used_bases() == old(self).used_bases().insert(view.base as int),
            ({
                match final(self).excl() {
                    Some(b) => b.base() == view.base && b.off() == view.off && b.len() == view.len
                        && b.refs() == 0 && !b.dirty(),
                    None => false,
                }
            }),
            v.base_id() == view.base,
            v.inner_off() == off - view.off,
            v.view_len() == len,
            v.abs_off() == off,
    {
        let mut block = CachedBlock::new(view);
        let minted = block.view_mut(off, len);
        self.exclusive = Some(block);
        self.used = Ghost(self.used@.insert(view.base as int));
        proof {
            assert forall|fi: int| 0 <= fi < self.flushes().len() implies !self.base_live(
                #[trigger] self.flushes()[fi],
            ) by {
                let f = self.flushes()[fi];
                assert(!old(self).base_live(old(self).flushes()[fi]));
                assert(old(self).used_bases().contains(f));
            }
        }
        minted
    }

    /// Takes back a read-only view. The matching lent block loses one
    /// borrow; when the last borrow goes, the block leaves the lent set and
    /// returns to the available queue.
    pub fn restore_ref(&mut self, view: ViewRef)
        requires
            old(self).inv(),
            exists|i: int|
                0 <= i < old(self).lent_seq().len() && (#[trigger] old(self).lent_seq()[i]).base()
                    == view.base_id(),
        ensures
            final(self).inv(),
            final(self).excl() == old(self).excl(),
            final(self).cap() == old(self).cap(),
            final(self).used_bases() == old(self).used_bases(),
            ({
                let i = choose|i: int|
                    0 <= i < old(self).lent_seq().len() && (#[trigger] old(
                        self).lent_seq()[i]).base() == view.base_id();
                let b = old(self).lent_seq()[i];
                if b.refs() > 1 {
                    &&& final(self).avail() == old(self).avail()
                    &&& final(self).flushes() == old(self).flushes()
                    &&& final(self).lent_seq().len() == old(self).lent_seq().len()
                    &&& (forall|k: int|
                        0 <= k < old(self).lent_seq().len() && k != i ==> final(self).lent_seq()[k]
                            == old(self).lent_seq()[k])
                    &&& same_block_refs(final(self).lent_seq()[i], b, b.refs() - 1)
                } else {
                    &&& final(self).lent_seq() == old(self).lent_seq().remove(i)
                    &&& exists|r: CachedBlock|
                        same_block_refs(r, b, 0) && #[trigger] add_avail_post(
                            old(self).avail(),
                            old(self).flushes(),
                            old(self).cap(),
                            r,
                            final(self).avail(),
                            final(self).flushes(),
                        )
                }
            }),
    {
        let ghost pre = self.lent_seq();
        let ghost target = choose|i: int|
            0 <= i < pre.len() && (#[trigger] pre[i]).base() == view.base_id();
        let mut i: usize = 0;
        while i < self.lent.len()
            invariant
                self.inv(),
                *self == *old(self),
                pre == self.lent_seq(),
                0 <= target < pre.len(),
                pre[target].base() == view.base_id(),
                0 <= i <= pre.len(),
                forall|k: int| 0 <= k < i ==> (#[trigger] pre[k]).base() != view.base_id(),
            decreases pre.len() - i,
        {
            if self.lent[i].holds(view.as_base_ptr()) {
                proof {
                    assert(i == target);
                }
                let mut block = self.lent[i];
                let last = block.restore_ref(&view);
                if last {
                    let removed = self.lent.remove(i);
                    proof {
                        pre.remove_ensures(i as int);
                        assert(self.flushes() == old(self).flushes());
                        assert(self.used_bases() == old(self).used_bases());
                        assert(self.avail() == old(self).avail());
                        assert forall|p: int, q: int|
                            0 <= p < q < self.lent_seq().len() implies self.lent_seq()[p].base()
                            != self.lent_seq()[q].base() by {}
                        assert forall|fi: int|
                            0 <= fi < self.flushes().len() implies !self.base_live(
                            #[trigger] self.flushes()[fi],
                        ) by {
                            let f = self.flushes()[fi];
                            assert(!old(self).base_live(old(self).flushes()[fi]));
                            if exists|k: int|
                                0 <= k < self.lent_seq().len() && (
                                #[trigger] self.lent_seq()[k]).base() == f {
                                let k = choose|k: int|
                                    0 <= k < self.lent_seq().len() && (
                                    #[trigger] self.lent_seq()[k]).base() == f;
                                if k < i as int {
                                    assert(pre[k].base() == f);
                                } else {
                                    assert(pre[k + 1].base() == f);
                                }
                            }
                        }
                        assert(!self.base_live(block.base())) by {
                            if exists|k: int|
                                0 <= k < self.lent_seq().len() && (
                                #[trigger] self.lent_seq()[k]).base() == block.base() {
                                let k = choose|k: int|
                                    0 <= k < self.lent_seq().len() && (
                                    #[trigger] self.lent_seq()[k]).base() == block.base();
                                if k < i as int {
                                    assert(pre[k].base() == block.base());
                                } else {
                                    assert(pre[k + 1].base() == block.base());
                                }
                            }
                        }
                        assert(!self.flushes().contains(block.base())) by {
                            if self.flushes().contains(block.base()) {
                                let fi = choose|fi: int|
                                    0 <= fi < self.flushes().len() && self.flushes()[fi]
                                        == block.base();
                                assert(!old(self).base_live(old(self).flushes()[fi]));
                                assert(old(self).base_live(pre[target].base()));
                            }
                        }
                    }
                    let ghost rb = block;
                    let ghost mid = *self;
                    self.add_available(block);
                    proof {
                        let c = choose|c: int|
                            0 <= c < old(self).lent_seq().len() && (#[trigger] old(
                                self).lent_seq()[c]).base() == view.base_id();
                        assert(c == i as int);
                        assert(same_block_refs(rb, old(self).lent_seq()[c], 0));
                        assert(add_avail_post(
                            old(self).avail(),
                            old(self).flushes(),
                            old(self).cap(),
                            rb,
                            self.avail(),
                            self.flushes(),
                        ));
                    }
                } else {
                    self.lent.set(i, block);
                    proof {
                        assert(self.flushes() == old(self).flushes());
                        assert(self.used_bases() == old(self).used_bases());
                        assert(self.avail() == old(self).avail());
                        let post = self.lent_seq();
                        assert forall|p: int, q: int| 0 <= p < q < post.len() implies
                            post[p].base() != post[q].base() by {}
                        assert forall|fi: int|
                            0 <= fi < self.flushes().len() implies !self.base_live(
                            #[trigger] self.flushes()[fi],
                        ) by {
                            let f = self.flushes()[fi];
                            assert(!old(self).base_live(old(self).flushes()[fi]));
                            if exists|k: int|
                                0 <= k < post.len() && (#[trigger] post[k]).base() == f {
                                let k = choose|k: int|
                                    0 <= k < post.len() && (#[trigger] post[k]).base() == f;
                                assert(pre[k].base() == f);
                            }
                        }
                        let c = choose|c: int|
                            0 <= c < old(self).lent_seq().len() && (#[trigger] old(
                                self).lent_seq()[c]).base() == view.base_id();
                        assert(c == i as int);
                    }
                }
                return ;
            }
            i = i + 1;
        }
        proof {
            assert(pre[target].base() == view.base_id());
            assert(false);
        }
    }

    /// Takes back the mutable view. The exclusive block is marked dirty —
    /// it has been written through — and returns to the available queue.
    pub fn restore_mut(&mut self, view: ViewMut)
        requires
            old(self).inv(),
            old(self).excl() is Some,
            old(self).excl()->0.base() == view.base_id(),
        ensures
            final(self).inv(),
            final(self).lent_seq() == old(self).lent_seq(),
            final(self).excl() is None,
            final(self).cap() == old(self).cap(),
            final(self).used_bases() == old(self).used_bases(),
            exists|r: CachedBlock|
                {
                    &&& r.base() == old(self).excl()->0.base()
                    &&& r.off() == old(self).excl()->0.off()
                    &&& r.len() == old(self).excl()->0.len()
                    &&& r.refs() == 0
                    &&& r.dirty()
                    &&& #[trigger] add_avail_post(
                        old(self).avail(),
                        old(self).flushes(),
                        old(self).cap(),
                        r,
                        final(self).avail(),
                        final(self).flushes(),
                    )
                },
    {
        let taken = self.exclusive.take();
        let mut block = match taken {
            Some(b) => b,
            None => unreached(),
        };
        block.restore_mut(&view);
        proof {
            assert(!self.base_live(block.base())) by {
                if exists|k: int|
                    0 <= k < self.avail().len() && (#[trigger] self.avail()[k]).base()
                        == block.base() {
                }
            }
            assert(!self.flushes().contains(block.base())) by {
                if self.flushes().contains(block.base()) {
                    let fi = choose|fi: int|
                        0 <= fi < self.flushes().len() && self.flushes()[fi] == block.base();
                    assert(!old(self).base_live(old(self).flushes()[fi]));
                }
            }
            assert forall|fi: int| 0 <= fi < self.flushes().len() implies !self.base_live(
                #[trigger] self.flushes()[fi],
            ) by {
                assert(!old(self).base_live(old(self).flushes()[fi]));
            }
        }
        let ghost rb = block;
        self.add_available(block);
        proof {
            assert(add_avail_post(
                old(self).avail(),
                old(self).flushes(),
                old(self).cap(),
                rb,
                self.avail(),
                self.flushes(),
            ));
        }
    }

    /// The identities of every mapping the cache holds right now, in any
    /// of its three sets. A mapping layer above the cache uses this to
    /// tell which mappings a purge or an eviction has retired.
    pub fn live_bases(&self) -> (r: Vec<usize>)
        requires
            self.inv(),
        ensures
            forall|j: int| 0 <= j < r@.len() ==> self.base_live(#[trigger] r@[j] as int),
            forall|b: int|
                self.base_live(b) ==> exists|j: int| 0 <= j < r@.len() && #[trigger] r@[j] as int
                    == b,
    {
        let na = self.available.len();
        let nl = self.lent.len();
        let mut r: Vec<usize> = Vec::new();
        let mut i: usize = 0;
        while i < na
            invariant
                self.inv(),
                na == self.avail().len(),
                0 <= i <= na,
                r@.len() == i,
                forall|j: int| 0 <= j < i ==> #[trigger] r@[j] as int == self.avail()[j].base(),
            decreases na - i,
        {
            r.push(self.available[i].raw_view().as_ptr());
            i = i + 1;
        }
        let mut k: usize = 0;
        while k < nl
            invariant
                self.inv(),
                na == self.avail().len(),
                nl == self.lent_seq().len(),
                0 <= k <= nl,
                r@.len() == na + k,
                forall|j: int| 0 <= j < na ==> #[trigger] r@[j] as int == self.avail()[j].base(),
                forall|j: int|
                    na <= j < na + k ==> #[trigger] r@[j] as int == self.lent_seq()[j - na].base(),
            decreases nl - k,
        {
            r.push(self.lent[k].raw_view().as_ptr());
            k = k + 1;
        }
        match &self.exclusive {
            Some(b) => {
                r.push(b.raw_view().as_ptr());
            },
            None => {},
        }
        proof {
            assert forall|j: int| 0 <= j < r@.len() implies self.base_live(
                #[trigger] r@[j] as int,
            ) by {
                if j < na {
                    assert(self.avail()[j].base() == r@[j] as int);
                } else if j < na + nl {
                    assert(self.lent_seq()[j - na].base() == r@[j] as int);
                }
            }
            assert forall|b: int| self.base_live(b) implies exists|j: int|
                0 <= j < r@.len() && #[trigger] r@[j] as int == b by {
                if exists|i2: int|
                    0 <= i2 < self.avail().len() && (#[trigger] self.avail()[i2]).base() == b {
                    let i2 = choose|i2: int|
                        0 <= i2 < self.avail().len() && (#[trigger] self.avail()[i2]).base() == b;
                    assert(r@[i2] as int == b);
                } else if exists|i2: int|
                    0 <= i2 < self.lent_seq().len() && (#[trigger] self.lent_seq()[i2]).base()
                        == b {
                    let i2 = choose|i2: int|
                        0 <= i2 < self.lent_seq().len() && (#[trigger] self.lent_seq()[i2]).base()
                            == b;
                    assert(r@[na + i2] as int == b);
                } else {
                    assert(r@[r@.len() - 1] as int == b);
                }
            }
        }
        r
    }

    /// The invariant survives the purge-evict-push transition of
    /// `add_available`.
    proof fn lemma_add_available_inv(
        self,
        pre_cache: Cache,
        pre: Seq<CachedBlock>,
        purged: Seq<CachedBlock>,
        block: CachedBlock,
    )
        requires
            pre_cache.inv(),
            pre == pre_cache.avail(),
            purged == purge(pre, block.off(), block.len()),
            block.wf(),
            block.refs() == 0,
            !pre_cache.base_live(block.base()),
            pre_cache.used_bases().contains(block.base()),
            !pre_cache.flushes().contains(block.base()),
            self.lent_seq() == pre_cache.lent_seq(),
            self.excl() == pre_cache.excl(),
            self.cap() == pre_cache.cap(),
            self.used_bases() == pre_cache.used_bases(),
            add_avail_post(
                pre,
                pre_cache.flushes(),
                pre_cache.cap(),
                block,
                self.avail(),
                self.flushes(),
            ),
        ensures
            self.inv(),
    {
        lemma_purge_props(pre, block.off(), block.len());
        let post = self.avail();
        // Every kept block keeps the facts it had in the old queue, and its
        // identity differs from the returned block's, which was not live.
        assert forall|j: int| 0 <= j < purged.len() implies {
            &&& (#[trigger] purged[j]).wf()
            &&& purged[j].refs() == 0
            &&& pre_cache.used_bases().contains(purged[j].base())
            &&& purged[j].base() != block.base()
            &&& (forall|k: int|
                0 <= k < pre_cache.lent_seq().len() ==> purged[j].base() != (
                #[trigger] pre_cache.lent_seq()[k]).base())
            &&& (match pre_cache.excl() {
                Some(e) => purged[j].base() != e.base(),
                None => true,
            })
            &&& !pre_cache.flushes().contains(purged[j].base())
        } by {
            let i = choose|i: int| 0 <= i < pre.len() && #[trigger] purged[j] == pre[i];
            assert(pre_cache.base_live(pre[i].base()));
            if pre_cache.flushes().contains(purged[j].base()) {
                let fi = choose|fi: int|
                    0 <= fi < pre_cache.flushes().len() && pre_cache.flushes()[fi] == purged[j].base();
                assert(!pre_cache.base_live(pre_cache.flushes()[fi]));
            }
        }
        if purged.len() < pre_cache.cap() {
            assert(post == purged.push(block));
            assert(distinct_bases(post)) by {
                assert forall|p: int, q: int| 0 <= p < q < post.len() implies post[p].base()
                    != post[q].base() by {}
            }
        } else {
            let shortened = purged.subrange(1, purged.len() as int);
            assert(post == shortened.push(block));
            assert forall|p: int, q: int| 0 <= p < q < post.len() implies post[p].base()
                != post[q].base() by {
                if q < post.len() - 1 {
                    assert(post[p] == purged[p + 1] && post[q] == purged[q + 1]);
                } else if p < post.len() - 1 {
                    assert(post[p] == purged[p + 1]);
                }
            }
            if purged[0].dirty() {
                // The evicted block's flush is recorded once: its identity
                // was live until now, so it cannot already stand in the log,
                // and it is live no longer.
                assert(self.flushes() == pre_cache.flushes().push(purged[0].base()));
                assert(pre_cache.base_live(purged[0].base())) by {
                    let i = choose|i: int| 0 <= i < pre.len() && #[trigger] purged[0] == pre[i];
                }
                assert forall|fi: int, fj: int|
                    0 <= fi < fj < self.flushes().len() implies self.flushes()[fi]
                    != self.flushes()[fj] by {
                    if fj == self.flushes().len() - 1 {
                        if pre_cache.flushes()[fi] == purged[0].base() {
                            assert(pre_cache.flushes().contains(purged[0].base()));
                            assert(!pre_cache.base_live(pre_cache.flushes()[fi]));
                        }
                    }
                }
            }
        }
        // No flushed identity is live in the new cache.
        assert forall|fi: int| 0 <= fi < self.flushes().len() implies !self.base_live(
            #[trigger] self.flushes()[fi],
        ) by {
            let f = self.flushes()[fi];
            if self.base_live(f) {
                if exists|i: int| 0 <= i < post.len() && (#[trigger] post[i]).base() == f {
                    let i = choose|i: int| 0 <= i < post.len() && (#[trigger] post[i]).base() == f;
                    if post[i] == block {
                        assert(!pre_cache.flushes().contains(block.base()));
                        if fi < pre_cache.flushes().len() {
                            assert(pre_cache.flushes().contains(f)) by {
                                assert(pre_cache.flushes()[fi] == f);
                            }
                        }
                    } else {
                        // a kept block: it stood in the old queue, so it was
                        // live, and no old log entry is live; nor can it be
                        // the newly logged identity, which left the queue
                        assert(purged.contains(post[i]) || post[i] == block) by {
                            if purged.len() < pre_cache.cap() {
                                if i < post.len() - 1 {
                                    assert(purged[i] == post[i]);
                                }
                            } else {
                                if i < post.len() - 1 {
                                    assert(purged[i + 1] == post[i]);
                                }
                            }
                        }
                        let pj = choose|pj: int| 0 <= pj < purged.len() && purged[pj] == post[i];
                        let oi = choose|oi: int|
                            0 <= oi < pre.len() && #[trigger] purged[pj] == pre[oi];
                        assert(pre_cache.base_live(pre[oi].base()));
                        if fi < pre_cache.flushes().len() {
                            assert(!pre_cache.base_live(pre_cache.flushes()[fi]));
                        } else {
                            // f is the evicted identity; it appears exactly
                            // once in the distinct old queue, at the front
                            assert(f == purged[0].base());
                            assert(pj != 0) by {
                                if pj == 0 {
                                    assert(post[i] == purged[0]);
                                    assert(i < post.len() - 1 ==> post[i] == purged[i + 1]);
                                }
                            }
                            assert(purged[pj].base() != purged[0].base());
                        }
                    }
                } else if exists|i: int|
                    0 <= i < self.lent_seq().len() && (#[trigger] self.lent_seq()[i]).base() == f {
                    let i = choose|i: int|
                        0 <= i < self.lent_seq().len() && (#[trigger] self.lent_seq()[i]).base()
                            == f;
                    if fi < pre_cache.flushes().len() {
                        assert(!pre_cache.base_live(pre_cache.flushes()[fi]));
                        assert(pre_cache.base_live(pre_cache.lent_seq()[i].base()));
                    }
                } else {
                    if fi < pre_cache.flushes().len() {
                        assert(!pre_cache.base_live(pre_cache.flushes()[fi]));
                    }
                }
            }
        }
    }
}

} // verus!
