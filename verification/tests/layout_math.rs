use static_box::{meta_offset_layout, ErasedValue, Layout, Box};
use static_box::layout::{align_offset_for, is_power_of_two, round_up_checked};

#[test]
fn power_of_two_check() {
    assert!(is_power_of_two(1));
    assert!(is_power_of_two(2));
    assert!(is_power_of_two(64));
    assert!(!is_power_of_two(0));
    assert!(!is_power_of_two(3));
    assert!(!is_power_of_two(24));
}

#[test]
fn alignment_padding() {
    assert_eq!(align_offset_for(0, 8), 0);
    assert_eq!(align_offset_for(3, 8), 5);
    assert_eq!(align_offset_for(8, 8), 0);
    assert_eq!(align_offset_for(15, 16), 1);
}

#[test]
fn rounding_up() {
    assert_eq!(round_up_checked(24, 8), Some(24));
    assert_eq!(round_up_checked(25, 8), Some(32));
    assert_eq!(round_up_checked(0, 4), Some(0));
    assert_eq!(round_up_checked(usize::MAX, 2), None);
}

#[test]
fn extend_places_payload_after_header() {
    let head = Layout { size: 24, align: 8 };
    let payload = Layout { size: 8, align: 8 };
    let (combined, offset) = head.extend(&payload).unwrap();
    assert_eq!(offset, 24);
    assert_eq!(combined.size(), 32);
    assert_eq!(combined.align(), 8);
}

#[test]
fn extend_respects_the_stricter_alignment() {
    let head = Layout { size: 24, align: 8 };
    let payload = Layout { size: 16, align: 16 };
    let (combined, offset) = head.extend(&payload).unwrap();
    assert_eq!(offset, 32);
    assert_eq!(combined.size(), 48);
    assert_eq!(combined.align(), 16);
}

#[test]
fn layout_of_dyn_for_a_u64() {
    let v = ErasedValue { bytes: 42u64.to_le_bytes().to_vec(), align: 8, tag: 0 };
    let layout = Box::layout_of_dyn(&v);
    assert_eq!(layout.size(), 32);
    assert_eq!(layout.align(), 8);
}

#[test]
fn layout_of_dyn_for_a_single_byte() {
    let v = ErasedValue { bytes: vec![42], align: 1, tag: 0 };
    let layout = Box::layout_of_dyn(&v);
    assert_eq!(layout.size(), 32); // 24 descriptor bytes + 1, rounded to 8
    assert_eq!(layout.align(), 8);
}

#[test]
fn meta_offset_layout_gives_descriptor_and_offset() {
    let v = ErasedValue { bytes: vec![1, 2, 3, 4], align: 4, tag: 11 };
    let (desc, layout, offset) = meta_offset_layout(&v);
    assert_eq!(desc.size, 4);
    assert_eq!(desc.align, 4);
    assert_eq!(desc.tag, 11);
    assert_eq!(offset, 24); // 24 is already 4-aligned
    assert_eq!(layout.size(), 32);
    assert_eq!(layout.align(), 8);

    let wide = ErasedValue { bytes: vec![0; 16], align: 16, tag: 0 };
    let (_, layout, offset) = meta_offset_layout(&wide);
    assert_eq!(offset, 32); // 24 rounded up to 16-alignment
    assert_eq!(layout.size(), 48);
    assert_eq!(layout.align(), 16);
}
