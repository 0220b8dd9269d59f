//! The mathematical model of the buffer's contents.
//!
//! The buffer is a sequence of bytes. Writes replace a range, reads take a
//! subrange, a resize extends with zeroes or cuts the tail, and an internal
//! copy moves a snapshot of the source range onto the destination range.
//! The facade's contracts are stated over these functions, and the laws at
//! the bottom relate them: a write is read back exactly, and a copy with
//! overlapping ranges behaves as if the source had been staged first.

use vstd::prelude::*;

verus! {

/// `s` with the range starting at `off` replaced by `b`.
pub open spec fn update_range(s: Seq<u8>, off: int, b: Seq<u8>) -> Seq<u8>
    recommends
        0 <= off,
        off + b.len() <= s.len(),
{
    Seq::new(s.len(), |i: int| if off <= i < off + b.len() { b[i - off] } else { s[i] })
}

/// `s` after copying `count` bytes from `src` to `dst`, reading the source
/// range as it stood before any byte of the destination was written. This is
/// the move semantics of overlapping ranges.
pub open spec fn copy_range(s: Seq<u8>, src: int, dst: int, count: int) -> Seq<u8>
    recommends
        0 <= src,
        0 <= dst,
        src + count <= s.len(),
        dst + count <= s.len(),
{
    update_range(s, dst, s.subrange(src, src + count))
}

/// `s` resized to `n` bytes: cut after `n`, or extended with zeroes.
pub open spec fn resize_contents(s: Seq<u8>, n: int) -> Seq<u8>
    recommends
        0 <= n,
{
    Seq::new(n as nat, |i: int| if i < s.len() { s[i] } else { 0u8 })
}

/// Reading back a written range yields exactly the bytes written.
pub proof fn lemma_write_then_read(s: Seq<u8>, off: int, b: Seq<u8>)
    requires
        0 <= off,
        off + b.len() <= s.len(),
    ensures
        update_range(s, off, b).subrange(off, off + b.len()) == b,
{
    assert(update_range(s, off, b).subrange(off, off + b.len()) =~= b);
}

/// Reading a range disjoint from a written range yields the old bytes.
pub proof fn lemma_write_frame_read(s: Seq<u8>, off: int, b: Seq<u8>, lo: int, hi: int)
    requires
        0 <= off,
        off + b.len() <= s.len(),
        0 <= lo <= hi <= s.len(),
        hi <= off || off + b.len() <= lo,
    ensures
        update_range(s, off, b).subrange(lo, hi) == s.subrange(lo, hi),
{
    assert(update_range(s, off, b).subrange(lo, hi) =~= s.subrange(lo, hi));
}

/// Growing and then shrinking the buffer preserves every byte that the
/// final length retains; bytes past the final length are gone.
pub proof fn lemma_resize_round_trip(s: Seq<u8>, up: int, down: int)
    requires
        s.len() <= up,
        0 <= down <= up,
    ensures
        down <= s.len() ==> resize_contents(resize_contents(s, up), down) == s.subrange(0, down),
        down > s.len() ==> resize_contents(resize_contents(s, up), down) == resize_contents(
            s,
            down,
        ),
{
    if down <= s.len() {
        assert(resize_contents(resize_contents(s, up), down) =~= s.subrange(0, down));
    } else {
        assert(resize_contents(resize_contents(s, up), down) =~= resize_contents(s, down));
    }
}

/// The copy reads its source before writing: for indices inside the
/// destination range the result holds the old source bytes, and every other
/// index is untouched.
pub proof fn lemma_copy_range_is_memmove(s: Seq<u8>, src: int, dst: int, count: int)
    requires
        0 <= src,
        0 <= dst,
        0 <= count,
        src + count <= s.len(),
        dst + count <= s.len(),
    ensures
        copy_range(s, src, dst, count).len() == s.len(),
        forall|i: int|
            dst <= i < dst + count ==> copy_range(s, src, dst, count)[i] == s[src + (i - dst)],
        forall|i: int|
            0 <= i < s.len() && !(dst <= i < dst + count) ==> copy_range(s, src, dst, count)[i]
                == s[i],
{
    assert forall|i: int|
        0 <= i < s.len() && !(dst <= i < dst + count) implies copy_range(s, src, dst, count)[i]
        == s[i] by {
        assert(copy_range(s, src, dst, count)[i] == s[i]);
    }
}

} // verus!
