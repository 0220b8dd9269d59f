use harrow::align::{align_add, align_sub};

const ALIGNMENT: usize = 4096;

#[test]
fn alignment() {
    let alignment = ALIGNMENT;
    assert_eq!(align_add(1, alignment), alignment);
    assert_eq!(align_add(0, alignment), 0);
    assert_eq!(align_add(alignment, alignment), alignment);
    assert_eq!(align_add(alignment + 1, alignment), 2 * alignment);

    assert_eq!(align_sub(1, alignment), 0);
    assert_eq!(align_sub(0, alignment), 0);
    assert_eq!(align_sub(alignment, alignment), alignment);
    assert_eq!(align_sub(alignment + 1, alignment), alignment);
}
