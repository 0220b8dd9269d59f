//! The facade: bounds, sizing, resize coherence and the internal copy.

use harrow::File;
use harrow::Error;

const ALIGNMENT: usize = 4096;

#[test]
fn cache_consistency_after_resize() {
    let alignment = ALIGNMENT;

    let mut file = File::open_writable(512, 2, alignment, alignment).unwrap();

    // Write a byte to the first position.
    let vm = file.view_mut(0, 1).unwrap();
    file.write_view(&vm, 0, &[3]);
    file.restore_mut(vm);

    // Resize the file for the first time.
    file.resize(alignment).unwrap();

    // Write a different byte to the first position.
    let vm = file.view_mut(0, alignment).unwrap();
    file.write_view(&vm, 0, &[5]);
    file.restore_mut(vm);

    // Resize the file such that a later request reaches a newly allocated
    // region.
    file.resize(2 * alignment).unwrap();

    // Access the new region.
    let v = file.view(alignment, alignment).unwrap();
    file.restore_ref(v);

    // Access the original region again.
    let v = file.view(0, alignment).unwrap();
    let byte = file.view_byte(&v, 0);
    file.restore_ref(v);

    assert_eq!(byte, 5);
}

#[test]
fn copy_within_overlapping() {
    let mut file = File::open_writable(512, 2, 512, ALIGNMENT).unwrap();

    let vm = file.view_mut(0, 8).unwrap();
    file.write_view(&vm, 0, &[1, 2, 3, 4, 5, 6, 7, 8]);
    file.restore_mut(vm);

    file.copy_within(0, 4, 8).unwrap();

    let v = file.view(0, 12).unwrap();
    let bytes = file.read_view(&v);
    file.restore_ref(v);

    assert_eq!(&bytes[0..12], &[1, 2, 3, 4, 1, 2, 3, 4, 5, 6, 7, 8]);
}

#[test]
fn copy_within_non_overlapping() {
    let alignment = ALIGNMENT;

    let mut file = File::open_writable(4 * alignment, 2, alignment, alignment).unwrap();

    let vm = file.view_mut(0, 8).unwrap();
    file.write_view(&vm, 0, &[1, 2, 3, 4, 5, 6, 7, 8]);
    file.restore_mut(vm);

    file.copy_within(0, 2 * alignment, 8).unwrap();

    let v = file.view(0, 8).unwrap();
    let bytes = file.read_view(&v);
    file.restore_ref(v);
    assert_eq!(&bytes[0..8], &[1, 2, 3, 4, 5, 6, 7, 8]);

    let v = file.view(2 * alignment, 8).unwrap();
    let bytes = file.read_view(&v);
    file.restore_ref(v);
    assert_eq!(&bytes[0..8], &[1, 2, 3, 4, 5, 6, 7, 8]);
}

#[test]
fn check_zero_len() {
    let alignment = ALIGNMENT;

    let file = File::open_writable(0, 2, alignment, alignment);
    match file {
        Err(e) => assert_eq!(e, Error::InvalidInput),
        Ok(_) => panic!("a zero length must be rejected"),
    }

    let file = File::open_writable(512, 2, 0, alignment);
    assert!(file.is_ok());
    assert_eq!(file.unwrap().cache_block_size(), alignment);

    let mut file = File::open_writable(512, 2, alignment, alignment).unwrap();
    let result = file.resize(0);
    assert!(result.is_err());
    assert_eq!(result.unwrap_err(), Error::InvalidInput);

    let file = File::open_readonly(Vec::new(), 2, alignment, alignment);
    match file {
        Err(e) => assert_eq!(e, Error::InvalidData),
        Ok(_) => panic!("an empty read-only buffer must be rejected"),
    }

    let file = File::open_readonly(vec![1, 2, 3, 4], 2, 0, alignment);
    assert!(file.is_ok());
    assert_eq!(file.unwrap().cache_block_size(), alignment);
}

#[test]
fn view_behind_alignment() {
    let alignment = ALIGNMENT;
    let mut file = File::open_writable(2 * alignment, 2, alignment, alignment).unwrap();

    assert!(file.view(alignment, alignment).is_ok());
}
