//! A file-backed random-access byte buffer with a verified cache of mapped
//! blocks.
//!
//! The crate opens a byte buffer, hands out read-only and exclusive views
//! into arbitrary byte ranges, and caches the blocks that back those views.
//! The heart is the block cache: a bounded set of blocks partitioned into
//! an *available* queue, a *lent* collection and at most one *exclusive*
//! block, with reference counting, least-recently-used eviction, an overlap
//! purge that keeps stale blocks from shadowing fresh writes, and a
//! flush-before-unmap rule for dirty blocks.
//!
//! The byte store and the mapping descriptors here are plain verified data;
//! the raw operating-system mapping layer that a deployment would put under
//! them performs input and output and stays outside this library.

use vstd::prelude::*;

pub mod align;
pub mod bytes;
pub mod cache;
pub mod ext;
pub mod infra;

pub use cache::{Cache, RawView, Take, TakeMut, ViewMut, ViewRef};
pub use ext::ResultExt;
pub use infra::{Error, File, Iter, Mode};

use crate::align::align_up;
use crate::bytes::{copy_range, resize_contents, update_range};

verus! {

/// The cache capacity used when none is given: five blocks.
pub const DEFAULT_CACHE_CAPACITY: usize = 5;

/// The cache block size used when none is given: 128 MiB.
pub const DEFAULT_CACHE_BLOCK_SIZE: usize = 128 * 1024 * 1024;

/// A writable buffer: reads, writes, resizing and internal copies, all
/// routed through the cache of mapped blocks.
pub struct FileMut {
    inner: File,
}

impl FileMut {
    /// The facade this buffer wraps.
    pub closed spec fn inner(self) -> File {
        self.inner
    }

    /// Opens a writable buffer of `len` bytes with the default cache
    /// capacity and block size.
    pub fn new(len: usize, alignment: usize) -> (r: Result<FileMut, Error>)
        requires
            alignment >= 1,
            align_up(len as int, alignment as int) + alignment <= usize::MAX,
            align_up(DEFAULT_CACHE_BLOCK_SIZE as int, alignment as int) <= usize::MAX,
        ensures
            len == 0 <==> r is Err,
            match r {
                Ok(f) => f.inner().wf() && f.inner().mode_spec() is Writable
                    && f.inner().contents() == Seq::new(
                    align_up(len as int, alignment as int) as nat,
                    |i: int| 0u8,
                ) && f.inner().cache_state().lent_seq().len() == 0 && f.inner().cache_state().excl()
                    is None && f.inner().can_map() && f.inner().cache_state().can_lend(),
                Err(e) => e == Error::InvalidInput,
            },
    {
        FileMut::with_cache(len, DEFAULT_CACHE_CAPACITY, DEFAULT_CACHE_BLOCK_SIZE, alignment)
    }

    /// Opens a writable buffer with the given cache capacity and block
    /// size. The capacity must not be zero; the block size is rounded up
    /// to the alignment, and zero means one alignment unit.
    pub fn with_cache(
        len: usize,
        cache_capacity: usize,
        cache_block_size: usize,
        alignment: usize,
    ) -> (r: Result<FileMut, Error>)
        requires
            alignment >= 1,
            cache_capacity >= 1,
            align_up(len as int, alignment as int) + alignment <= usize::MAX,
            align_up(cache_block_size as int, alignment as int) <= usize::MAX,
        ensures
            len == 0 <==> r is Err,
            match r {
                Ok(f) => f.inner().wf() && f.inner().mode_spec() is Writable
                    && f.inner().contents() == Seq::new(
                    align_up(len as int, alignment as int) as nat,
                    |i: int| 0u8,
                ) && f.inner().cache_state().cap() == cache_capacity
                    && f.inner().cache_state().lent_seq().len() == 0
                    && f.inner().cache_state().excl() is None && f.inner().can_map()
                    && f.inner().cache_state().can_lend(),
                Err(e) => e == Error::InvalidInput,
            },
    {
        match File::open_writable(len, cache_capacity, cache_block_size, alignment) {
            Ok(f) => Ok(FileMut { inner: f }),
            Err(e) => Err(e),
        }
    }

    /// The buffer's length in bytes.
    pub fn len(&self) -> (r: usize)
        ensures
            r == self.inner().contents().len(),
    {
        self.inner.len()
    }

    /// Acquires a read-only view of `len` bytes at `off`.
    pub fn view(&mut self, off: usize, len: usize) -> (r: Result<ViewRef, Error>)
        requires
            old(self).inner().wf(),
            off + len <= old(self).inner().contents().len(),
            old(self).inner().cache_state().excl() is None,
            old(self).inner().cache_state().can_lend(),
            old(self).inner().can_map(),
        ensures
            final(self).inner().wf(),
            final(self).inner().contents() == old(self).inner().contents(),
            final(self).inner().mode_spec() == old(self).inner().mode_spec(),
            final(self).inner().cache_state().excl() is None,
            r is Ok,
            match r {
                Ok(v) => final(self).inner().valid_ref(v) && v.view_len() == len && v.abs_off()
                    == off && (forall|v2: ViewRef|
                    old(self).inner().valid_ref(v2) ==> final(self).inner().valid_ref(v2)),
                Err(_) => false,
            },
    {
        self.inner.view(off, len)
    }

    /// Acquires a read-only view of the given byte range.
    pub fn view_range(&mut self, range: core::ops::Range<usize>) -> (r: Result<ViewRef, Error>)
        requires
            old(self).inner().wf(),
            range.start <= range.end,
            range.end <= old(self).inner().contents().len(),
            old(self).inner().cache_state().excl() is None,
            old(self).inner().cache_state().can_lend(),
            old(self).inner().can_map(),
        ensures
            final(self).inner().wf(),
            final(self).inner().contents() == old(self).inner().contents(),
            final(self).inner().mode_spec() == old(self).inner().mode_spec(),
            final(self).inner().cache_state().excl() is None,
            r is Ok,
            match r {
                Ok(v) => final(self).inner().valid_ref(v) && v.view_len() == range.end
                    - range.start && v.abs_off() == range.start,
                Err(_) => false,
            },
    {
        self.inner.view(range.start, range.end - range.start)
    }

    /// Acquires the mutable view of `len` bytes at `off`. No read-only
    /// view may be outstanding.
    pub fn view_mut(&mut self, off: usize, len: usize) -> (r: Result<ViewMut, Error>)
        requires
            old(self).inner().wf(),
            old(self).inner().mode_spec() is Writable,
            off + len <= old(self).inner().contents().len(),
            old(self).inner().cache_state().lent_seq().len() == 0,
            old(self).inner().cache_state().excl() is None,
            old(self).inner().can_map(),
        ensures
            final(self).inner().wf(),
            final(self).inner().contents() == old(self).inner().contents(),
            final(self).inner().mode_spec() == old(self).inner().mode_spec(),
            final(self).inner().cache_state().lent_seq().len() == 0,
            r is Ok,
            match r {
                Ok(v) => final(self).inner().valid_mut(v) && v.view_len() == len && v.abs_off()
                    == off,
                Err(_) => false,
            },
    {
        self.inner.view_mut(off, len)
    }

    /// Acquires the mutable view of the given byte range.
    pub fn view_range_mut(&mut self, range: core::ops::Range<usize>) -> (r: Result<ViewMut, Error>)
        requires
            old(self).inner().wf(),
            old(self).inner().mode_spec() is Writable,
            range.start <= range.end,
            range.end <= old(self).inner().contents().len(),
            old(self).inner().cache_state().lent_seq().len() == 0,
            old(self).inner().cache_state().excl() is None,
            old(self).inner().can_map(),
        ensures
            final(self).inner().wf(),
            final(self).inner().contents() == old(self).inner().contents(),
            final(self).inner().mode_spec() == old(self).inner().mode_spec(),
            final(self).inner().cache_state().lent_seq().len() == 0,
            r is Ok,
            match r {
                Ok(v) => final(self).inner().valid_mut(v) && v.view_len() == range.end
                    - range.start && v.abs_off() == range.start,
                Err(_) => false,
            },
    {
        self.inner.view_mut(range.start, range.end - range.start)
    }

    /// Reads the bytes under an outstanding read-only view.
    pub fn read_view(&self, v: &ViewRef) -> (r: Vec<u8>)
        requires
            self.inner().wf(),
            self.inner().valid_ref(*v),
        ensures
            r@ == self.inner().contents().subrange(v.abs_off(), v.abs_off() + v.view_len()),
    {
        self.inner.read_view(v)
    }

    /// Writes bytes through the outstanding mutable view, at `pos` inside
    /// the view.
    pub fn write_view(&mut self, v: &ViewMut, pos: usize, buf: &[u8])
        requires
            old(self).inner().wf(),
            old(self).inner().valid_mut(*v),
            pos + buf@.len() <= v.view_len(),
        ensures
            final(self).inner().wf(),
            final(self).inner().contents() == update_range(
                old(self).inner().contents(),
                v.abs_off() + pos,
                buf@,
            ),
            final(self).inner().mode_spec() == old(self).inner().mode_spec(),
            final(self).inner().cache_state() == old(self).inner().cache_state(),
            final(self).inner().valid_mut(*v),
    {
        self.inner.write_view(v, pos, buf)
    }

    /// Gives back a read-only view.
    pub fn restore_ref(&mut self, view: ViewRef)
        requires
            old(self).inner().wf(),
            old(self).inner().valid_ref(view),
        ensures
            final(self).inner().wf(),
            final(self).inner().contents() == old(self).inner().contents(),
            final(self).inner().mode_spec() == old(self).inner().mode_spec(),
            final(self).inner().cache_state().excl() == old(self).inner().cache_state().excl(),
            forall|v2: ViewRef|
                old(self).inner().valid_ref(v2) && v2.base_id() != view.base_id() ==> final(
                    self).inner().valid_ref(v2),
    {
        self.inner.restore_ref(view)
    }

    /// Gives back the mutable view; its block is dirty from now on.
    pub fn restore_mut(&mut self, view: ViewMut)
        requires
            old(self).inner().wf(),
            old(self).inner().valid_mut(view),
        ensures
            final(self).inner().wf(),
            final(self).inner().contents() == old(self).inner().contents(),
            final(self).inner().mode_spec() == old(self).inner().mode_spec(),
            final(self).inner().cache_state().excl() is None,
            final(self).inner().cache_state().lent_seq() == old(
                self).inner().cache_state().lent_seq(),
    {
        self.inner.restore_mut(view)
    }

    /// Resizes the buffer to `new_len` bytes, rounded up to the
    /// alignment. A zero length is rejected.
    pub fn resize(&mut self, new_len: usize) -> (r: Result<(), Error>)
        requires
            old(self).inner().wf(),
            old(self).inner().mode_spec() is Writable,
            old(self).inner().cache_state().lent_seq().len() == 0,
            old(self).inner().cache_state().excl() is None,
            align_up(new_len as int, old(self).inner().alignment_spec()) + old(
                self).inner().alignment_spec() <= usize::MAX,
        ensures
            final(self).inner().wf(),
            final(self).inner().mode_spec() == old(self).inner().mode_spec(),
            final(self).inner().alignment_spec() == old(self).inner().alignment_spec(),
            final(self).inner().cache_state() == old(self).inner().cache_state(),
            r is Ok <==> new_len > 0,
            match r {
                Ok(u) => final(self).inner().contents() == resize_contents(
                    old(self).inner().contents(),
                    align_up(new_len as int, old(self).inner().alignment_spec()),
                ),
                Err(e) => e == Error::InvalidInput && final(self).inner().contents() == old(
                    self).inner().contents(),
            },
    {
        self.inner.resize(new_len)
    }

    /// Copies `count` bytes from `src` to `dst` with move semantics:
    /// overlapping ranges read the source as it stood before the copy.
    pub fn copy_within(&mut self, src: usize, dst: usize, count: usize) -> (r: Result<(), Error>)
        requires
            old(self).inner().wf(),
            old(self).inner().mode_spec() is Writable,
            src + count <= old(self).inner().contents().len(),
            dst + count <= old(self).inner().contents().len(),
            old(self).inner().cache_state().lent_seq().len() == 0,
            old(self).inner().cache_state().excl() is None,
            old(self).inner().next_base_spec() + 2 * (old(self).inner().contents().len() + 1)
                <= usize::MAX,
        ensures
            final(self).inner().wf(),
            final(self).inner().mode_spec() == old(self).inner().mode_spec(),
            final(self).inner().cache_state().lent_seq().len() == 0,
            final(self).inner().cache_state().excl() is None,
            r is Ok,
            final(self).inner().contents() == copy_range(
                old(self).inner().contents(),
                src as int,
                dst as int,
                count as int,
            ),
    {
        self.inner.copy_within(src, dst, count)
    }

    /// Reads `buf.len()` bytes at `off` into `buf`.
    pub fn read_at(&mut self, buf: &mut Vec<u8>, off: usize) -> (r: Result<(), Error>)
        requires
            old(self).inner().wf(),
            off + old(buf).len() <= old(self).inner().contents().len(),
            old(self).inner().cache_state().excl() is None,
            old(self).inner().cache_state().can_lend(),
            old(self).inner().can_map(),
        ensures
            final(self).inner().wf(),
            final(self).inner().contents() == old(self).inner().contents(),
            final(self).inner().mode_spec() == old(self).inner().mode_spec(),
            final(self).inner().cache_state().excl() is None,
            r is Ok,
            final(buf)@ == old(self).inner().contents().subrange(
                off as int,
                off + old(buf).len(),
            ),
    {
        let n = buf.len();
        let v = match self.inner.view(off, n) {
            Ok(v) => v,
            Err(_) => vstd::pervasive::unreached(),
        };
        let mut bytes = self.inner.read_view(&v);
        self.inner.restore_ref(v);
        buf.clear();
        buf.append(&mut bytes);
        Ok(())
    }

    /// Writes the bytes of `buf` at `off`, through the mutable view.
    pub fn write_at(&mut self, buf: &[u8], off: usize) -> (r: Result<(), Error>)
        requires
            old(self).inner().wf(),
            old(self).inner().mode_spec() is Writable,
            off + buf@.len() <= old(self).inner().contents().len(),
            old(self).inner().cache_state().lent_seq().len() == 0,
            old(self).inner().cache_state().excl() is None,
            old(self).inner().can_map(),
        ensures
            final(self).inner().wf(),
            final(self).inner().mode_spec() == old(self).inner().mode_spec(),
            final(self).inner().cache_state().lent_seq().len() == 0,
            final(self).inner().cache_state().excl() is None,
            r is Ok,
            final(self).inner().contents() == update_range(
                old(self).inner().contents(),
                off as int,
                buf@,
            ),
    {
        let n = buf.len();
        let v = match self.inner.view_mut(off, n) {
            Ok(v) => v,
            Err(_) => vstd::pervasive::unreached(),
        };
        self.inner.write_view(&v, 0, buf);
        self.inner.restore_mut(v);
        Ok(())
    }

    /// Starts an iteration over the buffer's bytes.
    pub fn iter(&mut self) -> (r: Result<Iter, Error>)
        requires
            old(self).inner().wf(),
            old(self).inner().cache_state().excl() is None,
            old(self).inner().cache_state().can_lend(),
            old(self).inner().can_map(),
        ensures
            final(self).inner().wf(),
            final(self).inner().contents() == old(self).inner().contents(),
            final(self).inner().mode_spec() == old(self).inner().mode_spec(),
            final(self).inner().cache_state().excl() is None,
            r is Ok,
            match r {
                Ok(it) => it.inv(final(self).inner()) && it.cum_of() == 0,
                Err(_) => false,
            },
    {
        Iter::from_file(&mut self.inner)
    }

    /// Drives an iteration: the next byte, or nothing at the end.
    pub fn iter_next(&mut self, it: &mut Iter) -> (r: Option<u8>)
        requires
            old(it).inv(old(self).inner()),
            old(self).inner().wf(),
            old(self).inner().cache_state().excl() is None,
            old(self).inner().cache_state().can_lend(),
            old(self).inner().can_map(),
        ensures
            final(self).inner().wf(),
            final(self).inner().contents() == old(self).inner().contents(),
            final(self).inner().mode_spec() == old(self).inner().mode_spec(),
            final(self).inner().cache_state().excl() is None,
            final(it).inv(final(self).inner()),
            if old(it).cum_of() == old(self).inner().contents().len() {
                r is None
            } else {
                r == Some(old(self).inner().contents()[old(it).cum_of()]) && final(it).cum_of()
                    == old(it).cum_of() + 1
            },
    {
        it.next(&mut self.inner)
    }
}

/// A read-only buffer: views, positional reads and iteration over a
/// buffer opened without write access.
pub struct FileRef {
    inner: File,
}

impl FileRef {
    /// The facade this buffer wraps.
    pub closed spec fn inner(self) -> File {
        self.inner
    }

    /// Opens a read-only buffer over the given bytes with the default
    /// cache capacity and block size. An empty buffer is rejected.
    pub fn new(data: Vec<u8>, alignment: usize) -> (r: Result<FileRef, Error>)
        requires
            alignment >= 1,
            data@.len() + alignment <= usize::MAX,
            align_up(DEFAULT_CACHE_BLOCK_SIZE as int, alignment as int) <= usize::MAX,
        ensures
            data@.len() == 0 <==> r is Err,
            match r {
                Ok(f) => f.inner().wf() && f.inner().mode_spec() is Readonly
                    && f.inner().contents() == data@ && f.inner().cache_state().lent_seq().len()
                    == 0 && f.inner().cache_state().excl() is None && f.inner().can_map()
                    && f.inner().cache_state().can_lend(),
                Err(e) => e == Error::InvalidData,
            },
    {
        FileRef::with_cache(data, DEFAULT_CACHE_CAPACITY, DEFAULT_CACHE_BLOCK_SIZE, alignment)
    }

    /// Opens a read-only buffer with the given cache capacity and block
    /// size.
    pub fn with_cache(
        data: Vec<u8>,
        cache_capacity: usize,
        cache_block_size: usize,
        alignment: usize,
    ) -> (r: Result<FileRef, Error>)
        requires
            alignment >= 1,
            cache_capacity >= 1,
            data@.len() + alignment <= usize::MAX,
            align_up(cache_block_size as int, alignment as int) <= usize::MAX,
        ensures
            data@.len() == 0 <==> r is Err,
            match r {
                Ok(f) => f.inner().wf() && f.inner().mode_spec() is Readonly
                    && f.inner().contents() == data@ && f.inner().cache_state().cap()
                    == cache_capacity && f.inner().cache_state().lent_seq().len() == 0
                    && f.inner().cache_state().excl() is None && f.inner().can_map()
                    && f.inner().cache_state().can_lend(),
                Err(e) => e == Error::InvalidData,
            },
    {
        match File::open_readonly(data, cache_capacity, cache_block_size, alignment) {
            Ok(f) => Ok(FileRef { inner: f }),
            Err(e) => Err(e),
        }
    }

    /// The buffer's length in bytes.
    pub fn len(&self) -> (r: usize)
        ensures
            r == self.inner().contents().len(),
    {
        self.inner.len()
    }

    /// Acquires a read-only view of `len` bytes at `off`.
    pub fn view(&mut self, off: usize, len: usize) -> (r: Result<ViewRef, Error>)
        requires
            old(self).inner().wf(),
            off + len <= old(self).inner().contents().len(),
            old(self).inner().cache_state().excl() is None,
            old(self).inner().cache_state().can_lend(),
            old(self).inner().can_map(),
        ensures
            final(self).inner().wf(),
            final(self).inner().contents() == old(self).inner().contents(),
            final(self).inner().mode_spec() == old(self).inner().mode_spec(),
            final(self).inner().cache_state().excl() is None,
            r is Ok,
            match r {
                Ok(v) => final(self).inner().valid_ref(v) && v.view_len() == len && v.abs_off()
                    == off && (forall|v2: ViewRef|
                    old(self).inner().valid_ref(v2) ==> final(self).inner().valid_ref(v2)),
                Err(_) => false,
            },
    {
        self.inner.view(off, len)
    }

    /// Acquires a read-only view of the given byte range.
    pub fn view_range(&mut self, range: core::ops::Range<usize>) -> (r: Result<ViewRef, Error>)
        requires
            old(self).inner().wf(),
            range.start <= range.end,
            range.end <= old(self).inner().contents().len(),
            old(self).inner().cache_state().excl() is None,
            old(self).inner().cache_state().can_lend(),
            old(self).inner().can_map(),
        ensures
            final(self).inner().wf(),
            final(self).inner().contents() == old(self).inner().contents(),
            final(self).inner().mode_spec() == old(self).inner().mode_spec(),
            final(self).inner().cache_state().excl() is None,
            r is Ok,
            match r {
                Ok(v) => final(self).inner().valid_ref(v) && v.view_len() == range.end
                    - range.start && v.abs_off() == range.start,
                Err(_) => false,
            },
    {
        self.inner.view(range.start, range.end - range.start)
    }

    /// Reads the bytes under an outstanding read-only view.
    pub fn read_view(&self, v: &ViewRef) -> (r: Vec<u8>)
        requires
            self.inner().wf(),
            self.inner().valid_ref(*v),
        ensures
            r@ == self.inner().contents().subrange(v.abs_off(), v.abs_off() + v.view_len()),
    {
        self.inner.read_view(v)
    }

    /// Gives back a read-only view.
    pub fn restore_ref(&mut self, view: ViewRef)
        requires
            old(self).inner().wf(),
            old(self).inner().valid_ref(view),
        ensures
            final(self).inner().wf(),
            final(self).inner().contents() == old(self).inner().contents(),
            final(self).inner().mode_spec() == old(self).inner().mode_spec(),
            final(self).inner().cache_state().excl() == old(self).inner().cache_state().excl(),
            forall|v2: ViewRef|
                old(self).inner().valid_ref(v2) && v2.base_id() != view.base_id() ==> final(
                    self).inner().valid_ref(v2),
    {
        self.inner.restore_ref(view)
    }

    /// Reads `buf.len()` bytes at `off` into `buf`.
    pub fn read_at(&mut self, buf: &mut Vec<u8>, off: usize) -> (r: Result<(), Error>)
        requires
            old(self).inner().wf(),
            off + old(buf).len() <= old(self).inner().contents().len(),
            old(self).inner().cache_state().excl() is None,
            old(self).inner().cache_state().can_lend(),
            old(self).inner().can_map(),
        ensures
            final(self).inner().wf(),
            final(self).inner().contents() == old(self).inner().contents(),
            final(self).inner().mode_spec() == old(self).inner().mode_spec(),
            final(self).inner().cache_state().excl() is None,
            r is Ok,
            final(buf)@ == old(self).inner().contents().subrange(
                off as int,
                off + old(buf).len(),
            ),
    {
        let n = buf.len();
        let v = match self.inner.view(off, n) {
            Ok(v) => v,
            Err(_) => vstd::pervasive::unreached(),
        };
        let mut bytes = self.inner.read_view(&v);
        self.inner.restore_ref(v);
        buf.clear();
        buf.append(&mut bytes);
        Ok(())
    }

    /// Starts an iteration over the buffer's bytes.
    pub fn iter(&mut self) -> (r: Result<Iter, Error>)
        requires
            old(self).inner().wf(),
            old(self).inner().cache_state().excl() is None,
            old(self).inner().cache_state().can_lend(),
            old(self).inner().can_map(),
        ensures
            final(self).inner().wf(),
            final(self).inner().contents() == old(self).inner().contents(),
            final(self).inner().mode_spec() == old(self).inner().mode_spec(),
            final(self).inner().cache_state().excl() is None,
            r is Ok,
            match r {
                Ok(it) => it.inv(final(self).inner()) && it.cum_of() == 0,
                Err(_) => false,
            },
    {
        Iter::from_file(&mut self.inner)
    }

    /// Drives an iteration: the next byte, or nothing at the end.
    pub fn iter_next(&mut self, it: &mut Iter) -> (r: Option<u8>)
        requires
            old(it).inv(old(self).inner()),
            old(self).inner().wf(),
            old(self).inner().cache_state().excl() is None,
            old(self).inner().cache_state().can_lend(),
            old(self).inner().can_map(),
        ensures
            final(self).inner().wf(),
            final(self).inner().contents() == old(self).inner().contents(),
            final(self).inner().mode_spec() == old(self).inner().mode_spec(),
            final(self).inner().cache_state().excl() is None,
            final(it).inv(final(self).inner()),
            if old(it).cum_of() == old(self).inner().contents().len() {
                r is None
            } else {
                r == Some(old(self).inner().contents()[old(it).cum_of()]) && final(it).cum_of()
                    == old(it).cum_of() + 1
            },
    {
        it.next(&mut self.inner)
    }
}

} // verus!

