use static_box::{ErasedValue, ErrorKind, Box};

fn u64_value(x: u64, tag: u64) -> ErasedValue {
    ErasedValue { bytes: x.to_le_bytes().to_vec(), align: 8, tag }
}

#[test]
fn round_trip_u64_in_32_byte_buffer() {
    let mem = vec![0u8; 32];
    let b = Box::new(mem, 0, u64_value(42, 1));
    assert_eq!(b.as_ref(), 42u64.to_le_bytes().to_vec());
    assert_eq!(b.value_len(), 8);
    assert_eq!(b.tag(), 1);
}

#[test]
fn reuse_buffer_after_destroy() {
    let mem = vec![0u8; 32];
    let four = Box::new(mem, 0, u64_value(4, 1));
    assert_eq!(four.as_ref(), 4u64.to_le_bytes().to_vec());
    let (_, mem) = four.destroy();
    assert_eq!(mem.len(), 32);

    let seven = Box::new(mem, 0, u64_value(7, 1));
    assert_eq!(seven.as_ref(), 7u64.to_le_bytes().to_vec());
}

#[test]
fn insufficient_capacity_reports_both_lengths() {
    let mem = vec![0u8; 2];
    let err = Box::try_new(mem, 0, u64_value(4, 1)).err().unwrap();
    match err.kind {
        ErrorKind::InsufficientCapacity { got, needed } => {
            assert_eq!(got, 2);
            assert_eq!(needed, 32);
        }
        _ => panic!("expected a capacity error"),
    }
    assert_eq!(err.mem, vec![0u8; 2]);
    assert_eq!(err.value.bytes, 4u64.to_le_bytes().to_vec());
}

#[test]
fn no_bytes_written_on_failed_construction() {
    let fingerprint = vec![0xAAu8, 0xBB, 0xCC, 0xDD, 0xEE];
    let mem = fingerprint.clone();
    let err = Box::try_new(mem, 0, u64_value(42, 1)).err().unwrap();
    assert_eq!(err.mem, fingerprint);
}

#[test]
fn zero_size_value_rejected() {
    let mem = vec![0u8; 64];
    let err = Box::try_new(
        mem,
        0,
        ErasedValue { bytes: Vec::new(), align: 1, tag: 0 },
    )
    .err()
    .unwrap();
    assert!(matches!(err.kind, ErrorKind::UnsupportedLayout));
    assert_eq!(err.mem, vec![0u8; 64]);
}

#[test]
fn non_power_of_two_alignment_rejected() {
    let mem = vec![0u8; 64];
    let err = Box::try_new(
        mem,
        0,
        ErasedValue { bytes: vec![1, 2, 3], align: 3, tag: 0 },
    )
    .err()
    .unwrap();
    assert!(matches!(err.kind, ErrorKind::UnsupportedLayout));
}

#[test]
fn unaligned_start_address_still_round_trips() {
    let mem = vec![0u8; 128];
    let b = Box::try_new(mem, 3, u64_value(42, 1)).ok().unwrap();
    assert_eq!(b.as_ref(), 42u64.to_le_bytes().to_vec());
}

#[test]
fn every_start_address_fits_with_one_alignment_of_slack() {
    let v = u64_value(42, 1);
    let layout = Box::layout_of_dyn(&v);
    let slack = layout.size() + layout.align() - 1;
    for addr in 0..17usize {
        let mem = vec![0u8; slack];
        let b = Box::try_new(mem, addr, u64_value(42, 1))
            .ok()
            .expect("pre-sized buffer must be accepted at every address");
        assert_eq!(b.as_ref(), 42u64.to_le_bytes().to_vec());
    }
}

#[test]
fn exactly_sized_buffer_fits() {
    // Carve a buffer of exactly the bytes needed at this address: the
    // combined size plus the padding that aligns address 3 up to 8.
    let v = u64_value(42, 1);
    let layout = Box::layout_of_dyn(&v);
    let addr = 3;
    let padding = (layout.align() - addr % layout.align()) % layout.align();
    let mem = vec![0u8; layout.size() + padding];
    let b = Box::try_new(mem, addr, v).ok().unwrap();
    assert_eq!(b.as_ref(), 42u64.to_le_bytes().to_vec());
}

#[test]
fn one_byte_short_fails() {
    let mem = vec![0u8; 31];
    let err = Box::try_new(mem, 0, u64_value(42, 1)).err().unwrap();
    match err.kind {
        ErrorKind::InsufficientCapacity { got, needed } => {
            assert_eq!(got, 31);
            assert_eq!(needed, 32);
        }
        _ => panic!("expected a capacity error"),
    }
}

#[test]
fn moved_container_keeps_its_value() {
    struct Holder {
        display: Box,
    }

    fn move_me(b: Box) -> Box {
        assert_eq!(b.as_ref(), 42u64.to_le_bytes().to_vec());
        b
    }

    let mem = vec![0u8; 32];
    let b = Box::new(mem, 0, u64_value(42, 1));
    let b = move_me(b);

    let holder = Holder { display: b };
    assert_eq!(holder.display.as_ref(), 42u64.to_le_bytes().to_vec());
}

#[test]
fn destruction_hands_the_value_out_exactly_once() {
    let mut received: Vec<u64> = Vec::new();

    let mem = vec![0u8; 32];
    let b = Box::new(mem, 0, u64_value(42, 7));
    let (value, _mem) = b.destroy();
    received.push(u64::from_le_bytes(value.bytes.as_slice().try_into().unwrap()));

    assert_eq!(received, vec![42]);
    assert_eq!(value.align, 8);
    assert_eq!(value.tag, 7);
}

#[test]
fn write_value_replaces_the_stored_bytes() {
    let mem = vec![0u8; 32];
    let mut b = Box::new(
        mem,
        0,
        ErasedValue { bytes: vec![1, 2, 3, 4], align: 4, tag: 9 },
    );
    assert_eq!(b.as_ref(), vec![1, 2, 3, 4]);
    b.write_value(&vec![9, 8, 7, 6]);
    assert_eq!(b.as_ref(), vec![9, 8, 7, 6]);
    assert_eq!(b.tag(), 9);
    assert_eq!(b.value_len(), 4);
}

#[test]
fn stored_record_layout_in_buffer() {
    let mem = vec![0u8; 32];
    let b = Box::new(mem, 0, u64_value(42, 5));
    let (_, mem) = b.destroy();
    assert_eq!(&mem[0..8], &8u64.to_le_bytes()); // value size
    assert_eq!(&mem[8..16], &8u64.to_le_bytes()); // value alignment
    assert_eq!(&mem[16..24], &5u64.to_le_bytes()); // dispatch tag
    assert_eq!(&mem[24..32], &42u64.to_le_bytes()); // the value itself
}

#[test]
fn fixed_buffer_is_zero_initialized() {
    let b = Box::try_new_fixed(40, u64_value(42, 1)).ok().unwrap();
    let (value, mem) = b.destroy();
    assert_eq!(value.bytes, 42u64.to_le_bytes().to_vec());
    assert_eq!(mem.len(), 40);
    assert_eq!(&mem[32..40], &[0u8; 8]); // unused tail still zero
}

#[test]
fn fixed_buffer_too_small() {
    let err = Box::try_new_fixed(16, u64_value(42, 1)).err().unwrap();
    match err.kind {
        ErrorKind::InsufficientCapacity { got, needed } => {
            assert_eq!(got, 16);
            assert_eq!(needed, 32);
        }
        _ => panic!("expected a capacity error"),
    }
}
