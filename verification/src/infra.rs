//! The buffer facade: bounds checking, fetch sizing, and the routing of
//! every view through the cache.
//!
//! A [`File`] owns the byte store, the cache, the access mode and the
//! configured cache block size. Views of byte ranges are served by the
//! cache; a miss fetches a fresh mapping whose range is the requested range
//! rounded out to the alignment, enlarged to at least the cache block size,
//! and clipped to the buffer's length. The store is coherent, as shared
//! mappings of one file are: bytes written through the mutable view are the
//! bytes every later view reads.

use vstd::prelude::*;
use vstd::pervasive::unreached;
use vstd::pervasive::VecAdditionalExecFns;

use crate::align::{align_add, align_down, align_sub, align_up, lemma_align_down, lemma_align_up};
use crate::bytes::{resize_contents, update_range};
use crate::cache::{block_hit, no_hit, take_hit, take_mut_hit, Cache, RawView, ViewMut, ViewRef};

verus! {

/// The two errors that the facade itself raises. Anything else the
/// original mapping layer could surface is an input-output failure of the
/// surrounding deployment, not of this core.
#[derive(Clone, Copy, Debug, PartialEq, Eq, Structural)]
pub enum Error {
    /// A zero length at construction or resize.
    InvalidInput,
    /// A read-only open of an empty buffer.
    InvalidData,
}

/// The access mode the buffer was opened with.
#[derive(Clone, Copy, Debug, PartialEq, Eq, Structural)]
pub enum Mode {
    Writable,
    Readonly,
}

impl Mode {
    pub fn is_writable(&self) -> (r: bool)
        ensures
            r == (*self is Writable),
    {
        match self {
            Mode::Writable => true,
            Mode::Readonly => false,
        }
    }
}

/// The configured cache block size: zero is promoted to one alignment
/// unit, anything else is rounded up to the alignment.
pub open spec fn fixed_block_size(cache_block_size: int, alignment: int) -> int {
    if cache_block_size == 0 {
        alignment
    } else {
        align_up(cache_block_size, alignment)
    }
}

pub fn fix_cache_block_size(cache_block_size: usize, alignment: usize) -> (r: usize)
    requires
        alignment >= 1,
        align_up(cache_block_size as int, alignment as int) <= usize::MAX,
    ensures
        r == fixed_block_size(cache_block_size as int, alignment as int),
        r >= alignment,
        r % alignment == 0,
{
    proof {
        lemma_align_up(cache_block_size as int, alignment as int);
        vstd::arithmetic::div_mod::lemma_mod_self_0(alignment as int);
        if cache_block_size > 0 {
            let r = align_up(cache_block_size as int, alignment as int);
            if r < alignment {
                vstd::arithmetic::div_mod::lemma_small_mod(r as nat, alignment as nat);
            }
        }
    }
    if cache_block_size == 0 {
        alignment
    } else {
        align_add(cache_block_size, alignment)
    }
}

/// The end of the range that a miss fetches: the requested end rounded up
/// to the alignment, enlarged to at least the cache block size, and
/// clipped to the buffer's length.
pub open spec fn fetch_end(file_len: int, cache_block_size: int, alignment: int, off: int, len: int) -> int {
    let want = if align_up(off + len, alignment) >= cache_block_size {
        align_up(off + len, alignment)
    } else {
        cache_block_size
    };
    if want <= file_len {
        want
    } else {
        file_len
    }
}

/// A buffer with a cache of mapped blocks over a coherent byte store.
pub struct File {
    data: Vec<u8>,
    cache: Cache,
    mode: Mode,
    cache_block_size: usize,
    alignment: usize,
    next_base: usize,
}

impl File {
    /// The buffer's bytes: the single source of truth that every view
    /// reflects.
    pub closed spec fn contents(self) -> Seq<u8> {
        self.data@
    }

    /// The cache, as the model that its own contracts speak of.
    pub closed spec fn cache_state(self) -> Cache {
        self.cache
    }

    /// The access mode.
    pub closed spec fn mode_spec(self) -> Mode {
        self.mode
    }

    /// The configured cache block size.
    pub closed spec fn block_size_spec(self) -> int {
        self.cache_block_size as int
    }

    /// The mapping granularity this buffer was opened with.
    pub closed spec fn alignment_spec(self) -> int {
        self.alignment as int
    }

    /// The next unused mapping identity.
    pub closed spec fn next_base_spec(self) -> int {
        self.next_base as int
    }

    /// Well-formedness: the cache invariant, the sane geometry of the
    /// configuration, the freshness bound on mapping identities, and the
    /// rule that a read-only buffer never holds the exclusive block.
    pub open spec fn wf(self) -> bool {
        &&& self.cache_state().inv()
        &&& self.alignment_spec() >= 1
        &&& self.block_size_spec() >= self.alignment_spec()
        &&& self.block_size_spec() % self.alignment_spec() == 0
        &&& self.contents().len() >= 1
        &&& self.contents().len() + self.alignment_spec() <= usize::MAX
        &&& forall|b: int|
            self.cache_state().used_bases().contains(b) ==> b < self.next_base_spec()
        &&& self.mode_spec() is Readonly ==> self.cache_state().excl() is None
    }

    /// A fresh mapping identity and address range can still be carved out.
    pub open spec fn can_map(self) -> bool {
        self.next_base_spec() + self.contents().len() + 1 <= usize::MAX
    }

    /// The view is outstanding: its block is lent, the view lies inside
    /// the block, and its absolute range lies inside the buffer.
    pub open spec fn valid_ref(self, v: ViewRef) -> bool {
        exists|i: int|
            {
                &&& 0 <= i < self.cache_state().lent_seq().len()
                &&& (#[trigger] self.cache_state().lent_seq()[i]).base() == v.base_id()
                &&& self.cache_state().lent_seq()[i].off() + v.inner_off() == v.abs_off()
                &&& v.inner_off() + v.view_len() <= self.cache_state().lent_seq()[i].len()
                &&& v.abs_off() + v.view_len() <= self.contents().len()
            }
    }

    /// The mutable view is outstanding: its block is the exclusive one,
    /// the view lies inside the block, and its absolute range lies inside
    /// the buffer.
    pub open spec fn valid_mut(self, v: ViewMut) -> bool {
        match self.cache_state().excl() {
            Some(b) => {
                &&& b.base() == v.base_id()
                &&& b.off() + v.inner_off() == v.abs_off()
                &&& v.inner_off() + v.view_len() <= b.len()
                &&& v.abs_off() + v.view_len() <= self.contents().len()
            },
            None => false,
        }
    }

    /// Opens a writable buffer of `len` bytes, rounded up to the
    /// alignment and zero-filled, with an empty cache. A zero length is
    /// rejected.
    pub fn open_writable(
        len: usize,
        cache_capacity: usize,
        cache_block_size: usize,
        alignment: usize,
    ) -> (r: Result<File, Error>)
        requires
            alignment >= 1,
            cache_capacity >= 1,
            align_up(len as int, alignment as int) + alignment <= usize::MAX,
            align_up(cache_block_size as int, alignment as int) <= usize::MAX,
        ensures
            len == 0 <==> r is Err,
            match r {
                Ok(f) => {
                    &&& f.wf()
                    &&& f.contents() == Seq::new(
                        align_up(len as int, alignment as int) as nat,
                        |i: int| 0u8,
                    )
                    &&& f.mode_spec() is Writable
                    &&& f.alignment_spec() == alignment
                    &&& f.block_size_spec() == fixed_block_size(
                        cache_block_size as int,
                        alignment as int,
                    )
                    &&& f.cache_state().cap() == cache_capacity
                    &&& f.cache_state().avail().len() == 0
                    &&& f.cache_state().lent_seq().len() == 0
                    &&& f.cache_state().excl() is None
                    &&& f.cache_state().flushes().len() == 0
                    &&& f.can_map()
                },
                Err(e) => e == Error::InvalidInput,
            },
    {
        if len == 0 {
            return Err(Error::InvalidInput);
        }
        proof {
            lemma_align_up(len as int, alignment as int);
        }
        let full = align_add(len, alignment);
        let data = vec![0u8; full];
        proof {
            assert(data@ =~= Seq::new(full as nat, |i: int| 0u8));
        }
        Ok(
            File {
                data,
                cache: Cache::with_capacity(cache_capacity),
                mode: Mode::Writable,
                cache_block_size: fix_cache_block_size(cache_block_size, alignment),
                alignment,
                next_base: 0,
            },
        )
    }

    /// Opens a read-only buffer over the given bytes, with an empty
    /// cache. An empty buffer is rejected: there is nothing to map.
    pub fn open_readonly(
        data: Vec<u8>,
        cache_capacity: usize,
        cache_block_size: usize,
        alignment: usize,
    ) -> (r: Result<File, Error>)
        requires
            alignment >= 1,
            cache_capacity >= 1,
            data@.len() + alignment <= usize::MAX,
            align_up(cache_block_size as int, alignment as int) <= usize::MAX,
        ensures
            data@.len() == 0 <==> r is Err,
            match r {
                Ok(f) => {
                    &&& f.wf()
                    &&& f.contents() == data@
                    &&& f.mode_spec() is Readonly
                    &&& f.alignment_spec() == alignment
                    &&& f.block_size_spec() == fixed_block_size(
                        cache_block_size as int,
                        alignment as int,
                    )
                    &&& f.cache_state().cap() == cache_capacity
                    &&& f.cache_state().avail().len() == 0
                    &&& f.cache_state().lent_seq().len() == 0
                    &&& f.cache_state().excl() is None
                    &&& f.cache_state().flushes().len() == 0
                    &&& f.can_map()
                },
                Err(e) => e == Error::InvalidData,
            },
    {
        if data.len() == 0 {
            return Err(Error::InvalidData);
        }
        Ok(
            File {
                data,
                cache: Cache::with_capacity(cache_capacity),
                mode: Mode::Readonly,
                cache_block_size: fix_cache_block_size(cache_block_size, alignment),
                alignment,
                next_base: 0,
            },
        )
    }

    /// The buffer's length in bytes.
    pub fn len(&self) -> (r: usize)
        ensures
            r == self.contents().len(),
    {
        self.data.len()
    }

    /// The configured cache block size.
    pub fn cache_block_size(&self) -> (r: usize)
        ensures
            r == self.block_size_spec(),
    {
        self.cache_block_size
    }

    /// The mapping granularity this buffer was opened with.
    pub fn alignment(&self) -> (r: usize)
        ensures
            r == self.alignment_spec(),
    {
        self.alignment
    }

    /// Whether the buffer accepts writes.
    pub fn is_writable(&self) -> (r: bool)
        ensures
            r == (self.mode_spec() is Writable),
    {
        self.mode.is_writable()
    }

    /// The requested range must lie inside the buffer; returns its end.
    pub fn check_file_bounds(&self, off: usize, len: usize) -> (end: usize)
        requires
            off + len <= self.contents().len(),
        ensures
            end == off + len,
    {
        // The store's length is a machine word; binding it puts the bound
        // on the requested end in scope.
        let n = self.data.len();
        off + len
    }

    /// The range a miss fetches: the request rounded out to the
    /// alignment, enlarged to at least the cache block size, clipped to
    /// the buffer's length — never past it — and always containing the
    /// request.
    pub fn fetch_impl(
        file_len: usize,
        cache_block_size: usize,
        alignment: usize,
        off: usize,
        len: usize,
    ) -> (r: (usize, usize))
        requires
            alignment >= 1,
            off + len <= file_len,
            file_len + alignment <= usize::MAX,
        ensures
            r.0 == align_down(off as int, alignment as int),
            r.0 + r.1 == fetch_end(
                file_len as int,
                cache_block_size as int,
                alignment as int,
                off as int,
                len as int,
            ),
            r.0 <= off,
            off + len <= r.0 + r.1,
            r.0 + r.1 <= file_len,
    {
        proof {
            lemma_align_up(off as int + len as int, alignment as int);
            lemma_align_down(off as int, alignment as int);
        }
        let want = align_add(off + len, alignment);
        let end0 = if want >= cache_block_size {
            want
        } else {
            cache_block_size
        };
        let end = if end0 <= file_len {
            end0
        } else {
            file_len
        };
        let f_off = align_sub(off, alignment);
        (f_off, end - f_off)
    }

    /// Carves a fresh mapping descriptor for a miss on the given range.
    pub fn fetch(&mut self, off: usize, len: usize) -> (m: RawView)
        requires
            old(self).wf(),
            off + len <= old(self).contents().len(),
            old(self).can_map(),
        ensures
            final(self).wf(),
            final(self).contents() == old(self).contents(),
            final(self).cache_state() == old(self).cache_state(),
            final(self).mode_spec() == old(self).mode_spec(),
            final(self).block_size_spec() == old(self).block_size_spec(),
            final(self).alignment_spec() == old(self).alignment_spec(),
            final(self).next_base_spec() > old(self).next_base_spec(),
            final(self).next_base_spec() <= old(self).next_base_spec() + old(
                self).contents().len() + 1,
            m.wf(),
            m.base == old(self).next_base_spec(),
            !old(self).cache_state().used_bases().contains(m.base as int),
            m.off == align_down(off as int, old(self).alignment_spec()),
            m.off + m.len == fetch_end(
                old(self).contents().len() as int,
                old(self).block_size_spec(),
                old(self).alignment_spec(),
                off as int,
                len as int,
            ),
            m.off <= off,
            off + len <= m.off + m.len,
            m.off + m.len <= old(self).contents().len(),
    {
        let (f_off, f_len) = File::fetch_impl(
            self.data.len(),
            self.cache_block_size,
            self.alignment,
            off,
            len,
        );
        let base = self.next_base;
        self.next_base = self.next_base + f_len + 1;
        RawView::new(base, f_off, f_len)
    }

    /// Acquires a read-only view of the requested range: from the cache on
    /// a hit, through a single enlarged fetch on a miss. Never fails while
    /// a mapping can still be carved.
    pub fn view(&mut self, off: usize, len: usize) -> (r: Result<ViewRef, Error>)
        requires
            old(self).wf(),
            off + len <= old(self).contents().len(),
            old(self).cache_state().excl() is None,
            old(self).cache_state().can_lend(),
            old(self).can_map(),
        ensures
            final(self).wf(),
            final(self).contents() == old(self).contents(),
            final(self).mode_spec() == old(self).mode_spec(),
            final(self).block_size_spec() == old(self).block_size_spec(),
            final(self).alignment_spec() == old(self).alignment_spec(),
            final(self).cache_state().excl() is None,
            final(self).cache_state().cap() == old(self).cache_state().cap(),
            final(self).cache_state().flushes() == old(self).cache_state().flushes(),
            final(self).next_base_spec() <= old(self).next_base_spec() + old(
                self).contents().len() + 1,
            r is Ok,
            match r {
                Ok(v) => {
                    &&& final(self).valid_ref(v)
                    &&& v.view_len() == len
                    &&& v.abs_off() == off
                    &&& (take_hit(
                        old(self).cache_state(),
                        final(self).cache_state(),
                        off as int,
                        len as int,
                        v,
                    ) || (no_hit(old(self).cache_state(), off as int, len as int) && final(self).cache_state().avail() == old(self).cache_state().avail() && final(self).cache_state().lent_seq().len() == old(self).cache_state().lent_seq().len()
                        + 1 && (forall|k: int|
                        0 <= k < old(self).cache_state().lent_seq().len() ==> final(self).cache_state().lent_seq()[k] == old(self).cache_state().lent_seq()[k])
                        && ({
                        let b = final(self).cache_state().lent_seq()[old(self).cache_state().lent_seq().len() as int];
                        &&& b.off() == align_down(off as int, old(self).alignment_spec())
                        &&& b.off() + b.len() == fetch_end(
                            old(self).contents().len() as int,
                            old(self).block_size_spec(),
                            old(self).alignment_spec(),
                            off as int,
                            len as int,
                        )
                        &&& b.refs() == 1
                        &&& !b.dirty()
                        &&& b.base() == old(self).next_base_spec()
                    })))
                    &&& (forall|v2: ViewRef|
                        old(self).valid_ref(v2) ==> final(self).valid_ref(v2))
                },
                Err(_) => false,
            },
    {
        let end = self.check_file_bounds(off, len);
        let t = self.cache.take(off, len);
        let ghost mid = *self;
        match t.into_view() {
            Some(v) => {
                proof {
                    self.lemma_view_hit(*old(self), off as int, len as int, v);
                }
                Ok(v)
            },
            None => {
                let m = self.fetch(off, len);
                let v = self.cache.add_fetched_ref(m, off, len);
                proof {
                    assert(final(self).contents() == old(self).contents());
                    assert forall|b: int|
                        self.cache_state().used_bases().contains(b) implies b
                        < self.next_base_spec() by {
                        if b != m.base as int {
                            assert(old(self).cache_state().used_bases().contains(b));
                        }
                    }
                    assert(self.valid_ref(v)) by {
                        let j = self.cache_state().lent_seq().len() - 1;
                        assert(self.cache_state().lent_seq()[j].base() == v.base_id());
                    }
                    assert forall|v2: ViewRef| old(self).valid_ref(v2) implies self.valid_ref(
                        v2,
                    ) by {
                        let j = choose|j: int|
                            {
                                &&& 0 <= j < old(self).cache_state().lent_seq().len()
                                &&& (#[trigger] old(self).cache_state().lent_seq()[j]).base()
                                    == v2.base_id()
                                &&& old(self).cache_state().lent_seq()[j].off() + v2.inner_off()
                                    == v2.abs_off()
                                &&& v2.inner_off() + v2.view_len() <= old(self).cache_state().lent_seq()[j].len()
                                &&& v2.abs_off() + v2.view_len() <= old(self).contents().len()
                            };
                        assert(self.cache_state().lent_seq()[j].base() == v2.base_id());
                    }
                }
                Ok(v)
            },
        }
    }

    /// The hit case of `view`: the minted view is valid and every view
    /// that was valid before stays so.
    proof fn lemma_view_hit(self, pre: File, off: int, len: int, v: ViewRef)
        requires
            pre.wf(),
            0 <= off,
            0 <= len,
            off + len <= pre.contents().len(),
            self.contents() == pre.contents(),
            self.cache_state().inv(),
            take_hit(pre.cache_state(), self.cache_state(), off, len, v),
            v.view_len() == len,
        ensures
            self.valid_ref(v),
            forall|v2: ViewRef| pre.valid_ref(v2) ==> self.valid_ref(v2),
    {
        let pc = pre.cache_state();
        let nc = self.cache_state();
        if exists|i: int|
            {
                &&& 0 <= i < pc.avail().len()
                &&& block_hit(#[trigger] pc.avail()[i], off, len)
                &&& forall|k: int| i < k < pc.avail().len() ==> !block_hit(#[trigger] pc.avail()[k], off, len)
                &&& v.base_id() == pc.avail()[i].base()
                &&& v.inner_off() == off - pc.avail()[i].off()
                &&& nc.avail() == pc.avail().remove(i)
                &&& nc.lent_seq().len() == pc.lent_seq().len() + 1
                &&& forall|k: int| 0 <= k < pc.lent_seq().len() ==> nc.lent_seq()[k] == pc.lent_seq()[k]
                &&& crate::cache::same_block_refs(
                    nc.lent_seq()[pc.lent_seq().len() as int],
                    pc.avail()[i],
                    1,
                )
            } {
            let j = pc.lent_seq().len() as int;
            assert(nc.lent_seq()[j].base() == v.base_id());
            assert(self.valid_ref(v));
        } else {
            let i = choose|i: int|
                {
                    &&& 0 <= i < pc.lent_seq().len()
                    &&& block_hit(#[trigger] pc.lent_seq()[i], off, len)
                    &&& forall|k: int|
                        i < k < pc.lent_seq().len() ==> !block_hit(
                            #[trigger] pc.lent_seq()[k],
                            off,
                            len,
                        )
                    &&& v.base_id() == pc.lent_seq()[i].base()
                    &&& v.inner_off() == off - pc.lent_seq()[i].off()
                    &&& nc.lent_seq().len() == pc.lent_seq().len()
                    &&& forall|k: int|
                        0 <= k < pc.lent_seq().len() && k != i ==> nc.lent_seq()[k]
                            == pc.lent_seq()[k]
                    &&& crate::cache::same_block_refs(
                        nc.lent_seq()[i],
                        pc.lent_seq()[i],
                        pc.lent_seq()[i].refs() + 1,
                    )
                };
            assert(nc.lent_seq()[i].base() == v.base_id());
            assert(self.valid_ref(v));
        }
        assert forall|v2: ViewRef| pre.valid_ref(v2) implies self.valid_ref(v2) by {
            let j = choose|j: int|
                {
                    &&& 0 <= j < pc.lent_seq().len()
                    &&& (#[trigger] pc.lent_seq()[j]).base() == v2.base_id()
                    &&& pc.lent_seq()[j].off() + v2.inner_off() == v2.abs_off()
                    &&& v2.inner_off() + v2.view_len() <= pc.lent_seq()[j].len()
                    &&& v2.abs_off() + v2.view_len() <= pre.contents().len()
                };
            assert(nc.lent_seq()[j].base() == v2.base_id());
        }
    }

    /// Acquires the mutable view of the requested range. The buffer must
    /// be writable and no read-only view may be outstanding: the lent set
    /// is empty while a mutable view exists.
    pub fn view_mut(&mut self, off: usize, len: usize) -> (r: Result<ViewMut, Error>)
        requires
            old(self).wf(),
            old(self).mode_spec() is Writable,
            off + len <= old(self).contents().len(),
            old(self).cache_state().lent_seq().len() == 0,
            old(self).cache_state().excl() is None,
            old(self).can_map(),
        ensures
            final(self).wf(),
            final(self).contents() == old(self).contents(),
            final(self).mode_spec() == old(self).mode_spec(),
            final(self).block_size_spec() == old(self).block_size_spec(),
            final(self).alignment_spec() == old(self).alignment_spec(),
            final(self).cache_state().lent_seq().len() == 0,
            final(self).cache_state().cap() == old(self).cache_state().cap(),
            final(self).cache_state().flushes() == old(self).cache_state().flushes(),
            final(self).next_base_spec() <= old(self).next_base_spec() + old(
                self).contents().len() + 1,
            r is Ok,
            match r {
                Ok(v) => {
                    &&& final(self).valid_mut(v)
                    &&& v.view_len() == len
                    &&& v.abs_off() == off
                    &&& (take_mut_hit(
                        old(self).cache_state(),
                        final(self).cache_state(),
                        off as int,
                        len as int,
                        v,
                    ) || (no_hit(old(self).cache_state(), off as int, len as int)
                        && final(self).cache_state().avail() == old(self).cache_state().avail()
                        && ({
                        match final(self).cache_state().excl() {
                            Some(b) => {
                                &&& b.off() == align_down(off as int, old(self).alignment_spec())
                                &&& b.off() + b.len() == fetch_end(
                                    old(self).contents().len() as int,
                                    old(self).block_size_spec(),
                                    old(self).alignment_spec(),
                                    off as int,
                                    len as int,
                                )
                                &&& b.refs() == 0
                                &&& !b.dirty()
                                &&& b.base() == old(self).next_base_spec()
                            },
                            None => false,
                        }
                    })))
                },
                Err(_) => false,
            },
    {
        let end = self.check_file_bounds(off, len);
        let t = self.cache.take_mut(off, len);
        match t.into_view() {
            Some(v) => {
                proof {
                    let pc = old(self).cache_state();
                    let nc = self.cache_state();
                    let i = choose|i: int|
                        {
                            &&& 0 <= i < pc.avail().len()
                            &&& block_hit(#[trigger] pc.avail()[i], off as int, len as int)
                            &&& forall|k: int|
                                i < k < pc.avail().len() ==> !block_hit(
                                    #[trigger] pc.avail()[k],
                                    off as int,
                                    len as int,
                                )
                            &&& v.base_id() == pc.avail()[i].base()
                            &&& v.inner_off() == off - pc.avail()[i].off()
                            &&& nc.avail() == pc.avail().remove(i)
                            &&& nc.excl() == Some(pc.avail()[i])
                        };
                    assert(self.valid_mut(v));
                }
                Ok(v)
            },
            None => {
                let m = self.fetch(off, len);
                let v = self.cache.add_fetched_mut(m, off, len);
                proof {
                    assert forall|b: int|
                        self.cache_state().used_bases().contains(b) implies b
                        < self.next_base_spec() by {
                        if b != m.base as int {
                            assert(old(self).cache_state().used_bases().contains(b));
                        }
                    }
                    assert(self.valid_mut(v));
                }
                Ok(v)
            },
        }
    }

    /// Gives back a read-only view. When it was the block's last
    /// outstanding borrow, the block returns to the available queue, with
    /// the overlap purge and, if the queue is full, the flush-and-evict
    /// step.
    pub fn restore_ref(&mut self, view: ViewRef)
        requires
            old(self).wf(),
            old(self).valid_ref(view),
        ensures
            final(self).wf(),
            final(self).contents() == old(self).contents(),
            final(self).mode_spec() == old(self).mode_spec(),
            final(self).block_size_spec() == old(self).block_size_spec(),
            final(self).alignment_spec() == old(self).alignment_spec(),
            final(self).next_base_spec() == old(self).next_base_spec(),
            final(self).cache_state().excl() == old(self).cache_state().excl(),
            final(self).cache_state().cap() == old(self).cache_state().cap(),
            final(self).cache_state().lent_seq().len() >= old(self).cache_state().lent_seq().len()
                - 1,
            final(self).cache_state().lent_seq().len() <= old(self).cache_state().lent_seq().len(),
            forall|v2: ViewRef|
                old(self).valid_ref(v2) && v2.base_id() != view.base_id() ==> final(
                self).valid_ref(v2),
            ({
                let c = choose|c: int|
                    0 <= c < old(self).cache_state().lent_seq().len() && (#[trigger] old(
                        self).cache_state().lent_seq()[c]).base() == view.base_id();
                let b = old(self).cache_state().lent_seq()[c];
                if b.refs() > 1 {
                    &&& final(self).cache_state().avail() == old(self).cache_state().avail()
                    &&& final(self).cache_state().flushes() == old(self).cache_state().flushes()
                    &&& final(self).cache_state().lent_seq().len() == old(
                        self).cache_state().lent_seq().len()
                    &&& (forall|k: int|
                        0 <= k < old(self).cache_state().lent_seq().len() && k != c ==> final(
                            self).cache_state().lent_seq()[k] == old(
                            self).cache_state().lent_seq()[k])
                    &&& crate::cache::same_block_refs(
                        final(self).cache_state().lent_seq()[c],
                        b,
                        b.refs() - 1,
                    )
                } else {
                    &&& final(self).cache_state().lent_seq() == old(
                        self).cache_state().lent_seq().remove(c)
                    &&& exists|r: crate::cache::CachedBlock|
                        crate::cache::same_block_refs(r, b, 0) && #[trigger] crate::cache::add_avail_post(
                            old(self).cache_state().avail(),
                            old(self).cache_state().flushes(),
                            old(self).cache_state().cap(),
                            r,
                            final(self).cache_state().avail(),
                            final(self).cache_state().flushes(),
                        )
                }
            }),
    {
        self.cache.restore_ref(view);
        proof {
            let pre = old(self).cache_state();
            let c = choose|c: int|
                0 <= c < pre.lent_seq().len() && (#[trigger] pre.lent_seq()[c]).base()
                    == view.base_id();
            if pre.lent_seq()[c].refs() > 1 {
                assert forall|v2: ViewRef|
                    old(self).valid_ref(v2) && v2.base_id() != view.base_id() implies self.valid_ref(
                    v2,
                ) by {
                    let j = choose|j: int|
                        {
                            &&& 0 <= j < pre.lent_seq().len()
                            &&& (#[trigger] pre.lent_seq()[j]).base() == v2.base_id()
                            &&& pre.lent_seq()[j].off() + v2.inner_off() == v2.abs_off()
                            &&& v2.inner_off() + v2.view_len() <= pre.lent_seq()[j].len()
                            &&& v2.abs_off() + v2.view_len() <= old(self).contents().len()
                        };
                    assert(j != c);
                    assert(self.cache_state().lent_seq()[j].base() == v2.base_id());
                }
            } else {
                pre.lent_seq().remove_ensures(c);
                assert forall|v2: ViewRef|
                    old(self).valid_ref(v2) && v2.base_id() != view.base_id() implies self.valid_ref(
                    v2,
                ) by {
                    let j = choose|j: int|
                        {
                            &&& 0 <= j < pre.lent_seq().len()
                            &&& (#[trigger] pre.lent_seq()[j]).base() == v2.base_id()
                            &&& pre.lent_seq()[j].off() + v2.inner_off() == v2.abs_off()
                            &&& v2.inner_off() + v2.view_len() <= pre.lent_seq()[j].len()
                            &&& v2.abs_off() + v2.view_len() <= old(self).contents().len()
                        };
                    assert(j != c);
                    if j < c {
                        assert(self.cache_state().lent_seq()[j].base() == v2.base_id());
                    } else {
                        assert(self.cache_state().lent_seq()[j - 1].base() == v2.base_id());
                    }
                }
            }
        }
    }

    /// Gives back the mutable view. The block is dirty from the write
    /// passage and returns to the available queue: the purge drops every
    /// stale overlapping block, and a full queue flushes and evicts its
    /// oldest block.
    pub fn restore_mut(&mut self, view: ViewMut)
        requires
            old(self).wf(),
            old(self).valid_mut(view),
        ensures
            final(self).wf(),
            final(self).contents() == old(self).contents(),
            final(self).mode_spec() == old(self).mode_spec(),
            final(self).block_size_spec() == old(self).block_size_spec(),
            final(self).alignment_spec() == old(self).alignment_spec(),
            final(self).next_base_spec() == old(self).next_base_spec(),
            final(self).cache_state().excl() is None,
            final(self).cache_state().lent_seq() == old(self).cache_state().lent_seq(),
            final(self).cache_state().cap() == old(self).cache_state().cap(),
    {
        self.cache.restore_mut(view);
    }

    /// Reads the bytes under an outstanding read-only view. The store is
    /// coherent, so these are the buffer's current bytes at the view's
    /// range.
    pub fn read_view(&self, v: &ViewRef) -> (r: Vec<u8>)
        requires
            self.wf(),
            self.valid_ref(*v),
        ensures
            r@ == self.contents().subrange(v.abs_off(), v.abs_off() + v.view_len()),
    {
        proof {
            let i = choose|i: int|
                {
                    &&& 0 <= i < self.cache_state().lent_seq().len()
                    &&& (#[trigger] self.cache_state().lent_seq()[i]).base() == v.base_id()
                    &&& self.cache_state().lent_seq()[i].off() + v.inner_off() == v.abs_off()
                    &&& v.inner_off() + v.view_len() <= self.cache_state().lent_seq()[i].len()
                    &&& v.abs_off() + v.view_len() <= self.contents().len()
                };
        }
        let p = v.pos();
        let n = v.len();
        // The store's length is a machine word, which bounds the view's end.
        let total = self.data.len();
        let mut out: Vec<u8> = Vec::new();
        let mut i: usize = 0;
        while i < n
            invariant
                p == v.abs_off(),
                n == v.view_len(),
                p + n <= self.contents().len(),
                p + n <= usize::MAX,
                0 <= i <= n,
                out@ == self.contents().subrange(p as int, p as int + i as int),
            decreases n - i,
        {
            let b = *vstd::std_specs::vec::vec_index(&self.data, p + i);
            out.push(b);
            proof {
                assert(out@ =~= self.contents().subrange(p as int, p as int + i as int + 1));
            }
            i = i + 1;
        }
        out
    }

    /// Reads one byte under an outstanding read-only view.
    pub fn view_byte(&self, v: &ViewRef, i: usize) -> (b: u8)
        requires
            self.wf(),
            self.valid_ref(*v),
            i < v.view_len(),
        ensures
            b == self.contents()[v.abs_off() + i],
    {
        proof {
            let j = choose|j: int|
                {
                    &&& 0 <= j < self.cache_state().lent_seq().len()
                    &&& (#[trigger] self.cache_state().lent_seq()[j]).base() == v.base_id()
                    &&& self.cache_state().lent_seq()[j].off() + v.inner_off() == v.abs_off()
                    &&& v.inner_off() + v.view_len() <= self.cache_state().lent_seq()[j].len()
                    &&& v.abs_off() + v.view_len() <= self.contents().len()
                };
        }
        // The store's length is a machine word, which bounds the view's end.
        let total = self.data.len();
        *vstd::std_specs::vec::vec_index(&self.data, v.pos() + i)
    }

    /// Writes bytes through the outstanding mutable view, at `pos` inside
    /// the view. The write lands in the buffer at once: mappings of one
    /// store are coherent.
    pub fn write_view(&mut self, v: &ViewMut, pos: usize, buf: &[u8])
        requires
            old(self).wf(),
            old(self).valid_mut(*v),
            pos + buf@.len() <= v.view_len(),
        ensures
            final(self).wf(),
            final(self).contents() == update_range(
                old(self).contents(),
                v.abs_off() + pos,
                buf@,
            ),
            final(self).cache_state() == old(self).cache_state(),
            final(self).mode_spec() == old(self).mode_spec(),
            final(self).block_size_spec() == old(self).block_size_spec(),
            final(self).alignment_spec() == old(self).alignment_spec(),
            final(self).next_base_spec() == old(self).next_base_spec(),
            final(self).valid_mut(*v),
    {
        let base = v.pos();
        let n = buf.len();
        // The store's length is a machine word, which bounds the view's end.
        let total = self.data.len();
        let mut i: usize = 0;
        while i < n
            invariant
                base == v.abs_off(),
                n == buf@.len(),
                pos + n <= v.view_len(),
                base + v.view_len() <= self.contents().len(),
                base + v.view_len() <= usize::MAX,
                0 <= i <= n,
                self.contents() == update_range(
                    old(self).contents(),
                    base + pos,
                    buf@.take(i as int),
                ),
                self.contents().len() == old(self).contents().len(),
                self.cache_state() == old(self).cache_state(),
                self.mode_spec() == old(self).mode_spec(),
                self.block_size_spec() == old(self).block_size_spec(),
                self.alignment_spec() == old(self).alignment_spec(),
                self.next_base_spec() == old(self).next_base_spec(),
            decreases n - i,
        {
            let b = *vstd::slice::slice_index_get(buf, i);
            self.data.set(base + pos + i, b);
            proof {
                assert(self.contents() =~= update_range(
                    old(self).contents(),
                    base + pos,
                    buf@.take(i as int + 1),
                ));
            }
            i = i + 1;
        }
        proof {
            assert(buf@.take(n as int) =~= buf@);
        }
    }

    /// Resizes the buffer to `new_len` bytes, rounded up to the
    /// alignment: the tail is cut, or zeroes are appended. A zero length
    /// is rejected. The cache is left as it is; the overlap purge on
    /// later returns is what keeps stale blocks from shadowing new bytes,
    /// and no view may be outstanding across a resize.
    pub fn resize(&mut self, new_len: usize) -> (r: Result<(), Error>)
        requires
            old(self).wf(),
            old(self).mode_spec() is Writable,
            old(self).cache_state().lent_seq().len() == 0,
            old(self).cache_state().excl() is None,
            align_up(new_len as int, old(self).alignment_spec()) + old(self).alignment_spec()
                <= usize::MAX,
        ensures
            final(self).wf(),
            final(self).mode_spec() == old(self).mode_spec(),
            final(self).block_size_spec() == old(self).block_size_spec(),
            final(self).alignment_spec() == old(self).alignment_spec(),
            final(self).next_base_spec() == old(self).next_base_spec(),
            final(self).cache_state() == old(self).cache_state(),
            r is Ok <==> new_len > 0,
            match r {
                Ok(u) => final(self).contents() == resize_contents(
                    old(self).contents(),
                    align_up(new_len as int, old(self).alignment_spec()),
                ),
                Err(e) => e == Error::InvalidInput && final(self).contents() == old(
                    self).contents(),
            },
    {
        if new_len == 0 {
            return Err(Error::InvalidInput);
        }
        proof {
            lemma_align_up(new_len as int, self.alignment as int);
            let al = align_up(new_len as int, self.alignment as int);
            if al < self.alignment as int {
                vstd::arithmetic::div_mod::lemma_small_mod(al as nat, self.alignment as nat);
            }
        }
        let al = align_add(new_len, self.alignment);
        if al == self.data.len() {
            proof {
                assert(resize_contents(self.contents(), al as int) =~= self.contents());
            }
            return Ok(());
        }
        if al > self.data.len() {
            self.data.resize(al, 0u8);
            proof {
                assert(self.contents() =~= resize_contents(old(self).contents(), al as int));
            }
        } else {
            self.data.truncate(al);
            proof {
                assert(self.contents() =~= resize_contents(old(self).contents(), al as int));
            }
        }
        Ok(())
    }

    /// Copies `count` bytes from `src` to `dst`, as a move: the source
    /// range is read as it stood before the destination was touched, so
    /// overlapping ranges behave like a staged copy. The copy is routed
    /// through the cache — a read-only view of the source, then the
    /// mutable view of the destination, which leaves the written block
    /// dirty.
    pub fn copy_within(&mut self, src: usize, dst: usize, count: usize) -> (r: Result<(), Error>)
        requires
            old(self).wf(),
            old(self).mode_spec() is Writable,
            src + count <= old(self).contents().len(),
            dst + count <= old(self).contents().len(),
            old(self).cache_state().lent_seq().len() == 0,
            old(self).cache_state().excl() is None,
            old(self).next_base_spec() + 2 * (old(self).contents().len() + 1) <= usize::MAX,
        ensures
            final(self).wf(),
            final(self).mode_spec() == old(self).mode_spec(),
            final(self).block_size_spec() == old(self).block_size_spec(),
            final(self).alignment_spec() == old(self).alignment_spec(),
            final(self).cache_state().lent_seq().len() == 0,
            final(self).cache_state().excl() is None,
            final(self).cache_state().cap() == old(self).cache_state().cap(),
            r is Ok,
            final(self).contents() == crate::bytes::copy_range(
                old(self).contents(),
                src as int,
                dst as int,
                count as int,
            ),
    {
        if count == 0 {
            proof {
                assert(crate::bytes::copy_range(
                    self.contents(),
                    src as int,
                    dst as int,
                    0,
                ) =~= self.contents());
            }
            return Ok(());
        }
        let sv = match self.view(src, count) {
            Ok(v) => v,
            Err(_) => unreached(),
        };
        let bytes = self.read_view(&sv);
        self.restore_ref(sv);
        proof {
            assert(self.cache_state().lent_seq().len() == 0);
        }
        let dv = match self.view_mut(dst, count) {
            Ok(v) => v,
            Err(_) => unreached(),
        };
        self.write_view(&dv, 0, bytes.as_slice());
        self.restore_mut(dv);
        proof {
            assert(final(self).contents() =~= crate::bytes::copy_range(
                old(self).contents(),
                src as int,
                dst as int,
                count as int,
            ));
        }
        Ok(())
    }
}

/// A finite, forward-only iterator over the buffer's bytes.
///
/// The iterator keeps a read-only view over the block it is reading. At a
/// block boundary it gives that view back and takes the next one, so
/// blocks already read can be evicted. It is driven with an explicit
/// `next(&mut file)`: the buffer itself serves every refetch.
pub struct Iter {
    view: Option<ViewRef>,
    cur: usize,
    cum: usize,
}

impl Iter {
    /// The view over the block being read.
    pub closed spec fn view_of(self) -> Option<ViewRef> {
        self.view
    }

    /// The cursor inside the current view.
    pub closed spec fn cur_of(self) -> int {
        self.cur as int
    }

    /// How many bytes were handed out so far; the next byte's position.
    pub closed spec fn cum_of(self) -> int {
        self.cum as int
    }

    /// The iterator's binding to its buffer: the view is outstanding,
    /// the cursor lies inside it, and the view's position keeps pace with
    /// the cumulative position.
    pub open spec fn inv(self, f: File) -> bool {
        match self.view_of() {
            Some(v) => {
                &&& f.valid_ref(v)
                &&& 0 <= self.cur_of() <= v.view_len()
                &&& v.abs_off() + self.cur_of() == self.cum_of()
                &&& self.cum_of() <= f.contents().len()
            },
            None => false,
        }
    }

    /// Starts an iteration at the first byte, with a view sized to one
    /// cache block, clipped to the buffer.
    pub fn from_file(file: &mut File) -> (r: Result<Iter, Error>)
        requires
            old(file).wf(),
            old(file).cache_state().excl() is None,
            old(file).cache_state().can_lend(),
            old(file).can_map(),
        ensures
            final(file).wf(),
            final(file).contents() == old(file).contents(),
            final(file).mode_spec() == old(file).mode_spec(),
            final(file).block_size_spec() == old(file).block_size_spec(),
            final(file).alignment_spec() == old(file).alignment_spec(),
            final(file).cache_state().excl() is None,
            forall|v2: ViewRef| old(file).valid_ref(v2) ==> final(file).valid_ref(v2),
            r is Ok,
            match r {
                Ok(it) => it.inv(*final(file)) && it.cum_of() == 0,
                Err(_) => false,
            },
    {
        let flen = file.len();
        let cbs = file.cache_block_size();
        let block_size = if flen <= cbs {
            flen
        } else {
            cbs
        };
        let v = match file.view(0, block_size) {
            Ok(v) => v,
            Err(_) => unreached(),
        };
        Ok(Iter { view: Some(v), cur: 0, cum: 0 })
    }

    /// Hands out the next byte, or nothing at the end of the buffer. At a
    /// block boundary the current view goes back to the cache and the
    /// next block-sized view, clipped to the remainder, is taken.
    pub fn next(&mut self, file: &mut File) -> (r: Option<u8>)
        requires
            old(self).inv(*old(file)),
            old(file).wf(),
            old(file).cache_state().excl() is None,
            old(file).cache_state().can_lend(),
            old(file).can_map(),
        ensures
            final(file).wf(),
            final(file).contents() == old(file).contents(),
            final(file).mode_spec() == old(file).mode_spec(),
            final(file).block_size_spec() == old(file).block_size_spec(),
            final(file).alignment_spec() == old(file).alignment_spec(),
            final(file).cache_state().excl() is None,
            final(self).inv(*final(file)),
            if old(self).cum_of() == old(file).contents().len() {
                r is None && *final(self) == *old(self) && *final(file) == *old(file)
            } else {
                r == Some(old(file).contents()[old(self).cum_of()]) && final(self).cum_of() == old(
                    self).cum_of() + 1
            },
    {
        if self.cum == file.len() {
            return None;
        }
        let refill = match &self.view {
            Some(v) => self.cur == v.len(),
            None => true,
        };
        if refill {
            let taken = self.view.take();
            let ov = match taken {
                Some(v) => v,
                None => unreached(),
            };
            file.restore_ref(ov);
            proof {
                assert(file.cache_state().can_lend()) by {
                    let pre = old(file).cache_state();
                    let c = choose|c: int|
                        0 <= c < pre.lent_seq().len() && (#[trigger] pre.lent_seq()[c]).base()
                            == ov.base_id();
                    if pre.lent_seq()[c].refs() > 1 {
                        assert forall|k: int|
                            0 <= k < file.cache_state().lent_seq().len() implies (
                        #[trigger] file.cache_state().lent_seq()[k]).refs() < usize::MAX by {
                            if k != c {
                                assert(file.cache_state().lent_seq()[k] == pre.lent_seq()[k]);
                            }
                        }
                    } else {
                        pre.lent_seq().remove_ensures(c);
                        assert forall|k: int|
                            0 <= k < file.cache_state().lent_seq().len() implies (
                        #[trigger] file.cache_state().lent_seq()[k]).refs() < usize::MAX by {
                            if k < c {
                                assert(file.cache_state().lent_seq()[k] == pre.lent_seq()[k]);
                            } else {
                                assert(file.cache_state().lent_seq()[k] == pre.lent_seq()[k + 1]);
                            }
                        }
                    }
                }
            }
            let rem = file.len() - self.cum;
            let cbs = file.cache_block_size();
            let bs = if rem <= cbs {
                rem
            } else {
                cbs
            };
            let nv = match file.view(self.cum, bs) {
                Ok(v) => v,
                Err(_) => unreached(),
            };
            self.view = Some(nv);
            self.cur = 0;
        }
        let byte = match &self.view {
            Some(v) => file.view_byte(v, self.cur),
            None => unreached(),
        };
        self.cur = self.cur + 1;
        self.cum = self.cum + 1;
        Some(byte)
    }
}

} // verus!
