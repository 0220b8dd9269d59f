//! The public buffers: round trips, boundary requests, clipping at the
//! end of the buffer, resizing, and iteration.

use harrow::{FileMut, FileRef};

const ALIGNMENT: usize = 4096;

#[test]
fn write_then_read_round_trip() {
    let mut file = FileMut::new(2 * ALIGNMENT, ALIGNMENT).unwrap();

    let payload = [7u8, 11, 13, 17, 19, 23, 29, 31];
    file.write_at(&payload, 1000).unwrap();

    // Interleave reads of regions that do not overlap the written range.
    let mut other = vec![0u8; 16];
    file.read_at(&mut other, 0).unwrap();
    assert_eq!(other, vec![0u8; 16]);
    file.read_at(&mut other, ALIGNMENT).unwrap();
    assert_eq!(other, vec![0u8; 16]);

    let mut back = vec![0u8; 8];
    file.read_at(&mut back, 1000).unwrap();
    assert_eq!(back, payload.to_vec());
}

#[test]
fn request_at_block_boundary() {
    let mut file = FileMut::with_cache(4 * ALIGNMENT, 2, ALIGNMENT, ALIGNMENT).unwrap();

    // A request exactly at a block boundary is served.
    let v = file.view(ALIGNMENT, ALIGNMENT).unwrap();
    assert_eq!(v.len(), ALIGNMENT);
    file.restore_ref(v);

    // A request straddling two blocks' worths is honored through one
    // enlarged fetch: the sub-ranges on both sides hit the same block.
    let mut file = FileMut::with_cache(4 * ALIGNMENT, 2, ALIGNMENT, ALIGNMENT).unwrap();
    let v1 = file.view(ALIGNMENT - 64, 128).unwrap();
    let v2 = file.view(ALIGNMENT - 64, 64).unwrap();
    let v3 = file.view(ALIGNMENT, 64).unwrap();
    assert_eq!(v1.as_base_ptr(), v2.as_base_ptr());
    assert_eq!(v1.as_base_ptr(), v3.as_base_ptr());
    file.restore_ref(v3);
    file.restore_ref(v2);
    file.restore_ref(v1);
}

#[test]
fn fetch_clipped_at_eof() {
    // A read-only buffer of an unaligned length: a fetch near the end is
    // clipped to the length, never padded past it.
    let mut data = Vec::new();
    let mut i = 0u8;
    while data.len() < 100 {
        data.push(i);
        i = i.wrapping_add(1);
    }
    let mut file = FileRef::new(data.clone(), ALIGNMENT).unwrap();

    let v = file.view(90, 10).unwrap();
    let bytes = file.read_view(&v);
    assert_eq!(&bytes[..], &data[90..100]);
    file.restore_ref(v);

    // The whole buffer went into the one clipped block: the earlier bytes
    // hit the same mapping.
    let v1 = file.view(90, 10).unwrap();
    let v2 = file.view(0, 10).unwrap();
    assert_eq!(v1.as_base_ptr(), v2.as_base_ptr());
    file.restore_ref(v2);
    file.restore_ref(v1);
}

#[test]
fn resize_up_then_down_preserves_prefix() {
    let mut file = FileMut::with_cache(ALIGNMENT, 2, ALIGNMENT, ALIGNMENT).unwrap();

    let payload = [1u8, 2, 3, 4];
    file.write_at(&payload, 100).unwrap();

    file.resize(3 * ALIGNMENT).unwrap();
    assert_eq!(file.len(), 3 * ALIGNMENT);

    // Bytes beyond the old length read as zeroes after the growth.
    let mut tail = vec![9u8; 8];
    file.read_at(&mut tail, 2 * ALIGNMENT).unwrap();
    assert_eq!(tail, vec![0u8; 8]);

    file.resize(ALIGNMENT).unwrap();
    assert_eq!(file.len(), ALIGNMENT);

    // Data within the shrunk range is preserved.
    let mut back = vec![0u8; 4];
    file.read_at(&mut back, 100).unwrap();
    assert_eq!(back, payload.to_vec());
}

#[test]
fn iterate_all_bytes() {
    let data = vec![10u8, 20, 30, 40, 50];
    let mut file = FileRef::new(data.clone(), ALIGNMENT).unwrap();

    let mut it = file.iter().unwrap();
    let mut seen = Vec::new();
    while let Some(b) = file.iter_next(&mut it) {
        seen.push(b);
    }
    assert_eq!(seen, data);
    assert!(file.iter_next(&mut it).is_none());
}

#[test]
fn iterate_across_blocks() {
    // A cache block of one alignment unit: iteration crosses a block
    // boundary and keeps yielding the right bytes.
    let mut file = FileMut::with_cache(2 * ALIGNMENT, 2, ALIGNMENT, ALIGNMENT).unwrap();
    file.write_at(&[111], ALIGNMENT - 1).unwrap();
    file.write_at(&[222], ALIGNMENT).unwrap();

    let mut it = file.iter().unwrap();
    let mut count = 0usize;
    let mut at_boundary = (0u8, 0u8);
    while let Some(b) = file.iter_next(&mut it) {
        if count == ALIGNMENT - 1 {
            at_boundary.0 = b;
        }
        if count == ALIGNMENT {
            at_boundary.1 = b;
        }
        count += 1;
    }
    assert_eq!(count, 2 * ALIGNMENT);
    assert_eq!(at_boundary, (111, 222));
}

#[test]
fn view_ranges() {
    let mut file = FileMut::new(ALIGNMENT, ALIGNMENT).unwrap();
    file.write_at(&[42, 43, 44], 10).unwrap();

    let v = file.view_range(10..13).unwrap();
    let bytes = file.read_view(&v);
    assert_eq!(bytes, vec![42, 43, 44]);
    file.restore_ref(v);

    let vm = file.view_range_mut(20..24).unwrap();
    file.write_view(&vm, 0, &[9, 9, 9, 9]);
    file.restore_mut(vm);

    let mut back = vec![0u8; 4];
    file.read_at(&mut back, 20).unwrap();
    assert_eq!(back, vec![9, 9, 9, 9]);
}

#[test]
fn sub_range_views_share_base() {
    let mut file = FileMut::with_cache(ALIGNMENT, 1, ALIGNMENT, ALIGNMENT).unwrap();

    let v1 = file.view(0, ALIGNMENT).unwrap();
    let v2 = file.view(0, 64).unwrap();
    let v3 = file.view(ALIGNMENT - 64, 64).unwrap();
    assert_eq!(v1.as_base_ptr(), v2.as_base_ptr());
    assert_eq!(v1.as_base_ptr(), v3.as_base_ptr());
    file.restore_ref(v3);
    file.restore_ref(v2);
    file.restore_ref(v1);
}

#[test]
fn readonly_keeps_contents() {
    let data = vec![5u8, 6, 7, 8, 9];
    let mut file = FileRef::new(data.clone(), ALIGNMENT).unwrap();
    assert_eq!(file.len(), 5);

    let mut buf = vec![0u8; 5];
    file.read_at(&mut buf, 0).unwrap();
    assert_eq!(buf, data);
}
