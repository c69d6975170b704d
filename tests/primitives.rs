use gibbon_rts::cursor::{copy_bytes, fill_bytes, read_u32, read_u64, read_u8, write_u64, write_u8};
use gibbon_rts::nursery::{
    allocator_in_fromspace, allocator_in_tospace, allocator_space_available,
    allocator_switch_to_tospace, nursery_malloc, Nursery,
};
use gibbon_rts::shadowstack::{
    read_frame, set_frame_ptr, shadowstack_frames, shadowstack_length, Shadowstack,
    ShadowstackFrame, ShadowstackIter,
};

fn nursery() -> Nursery {
    Nursery {
        from_space_start: 0,
        to_space_start: 100,
        to_space_end: 200,
        alloc_ptr: 10,
        alloc_ptr_end: 100,
        initialized: true,
    }
}

#[test]
fn unaligned_u64_round_trip() {
    let mut m = vec![0u8; 32];
    write_u64(&mut m, 3, 0x0102_0304_0506_0708).unwrap();
    assert_eq!(&m[3..11], &[8, 7, 6, 5, 4, 3, 2, 1]);
    assert_eq!(read_u64(&m, 3).unwrap(), 0x0102_0304_0506_0708);
    assert_eq!(read_u32(&m, 3).unwrap(), 0x0506_0708);
    assert!(read_u64(&m, 25).is_err());
    assert!(write_u64(&mut m, 25, 1).is_err());
}

#[test]
fn byte_access() {
    let mut m = vec![0u8; 4];
    write_u8(&mut m, 2, 9).unwrap();
    assert_eq!(read_u8(&m, 2).unwrap(), 9);
    assert!(read_u8(&m, 4).is_err());
    assert!(write_u8(&mut m, 4, 1).is_err());
}

#[test]
fn copy_and_fill() {
    let mut m: Vec<u8> = (0..16).collect();
    copy_bytes(&mut m, 0, 4, 6).unwrap();
    assert_eq!(&m[4..10], &[0, 1, 2, 3, 4, 5]);
    fill_bytes(&mut m, 12, 4, 0xEE).unwrap();
    assert_eq!(&m[12..16], &[0xEE; 4]);
    assert!(copy_bytes(&mut m, 12, 0, 5).is_err());
    assert!(fill_bytes(&mut m, 15, 2, 0).is_err());
}

#[test]
fn allocator_bumps() {
    let mut n = nursery();
    assert_eq!(allocator_space_available(&n), 90);
    assert!(allocator_in_fromspace(&n));
    assert!(!allocator_in_tospace(&n));
    assert_eq!(nursery_malloc(&mut n, 40).unwrap(), (10, 50));
    assert_eq!(n.alloc_ptr, 50);
    assert!(nursery_malloc(&mut n, 51).is_err());
    assert_eq!(n.alloc_ptr, 50);
    assert_eq!(nursery_malloc(&mut n, 50).unwrap(), (50, 100));
    assert_eq!(allocator_space_available(&n), 0);
}

#[test]
fn switch_to_tospace() {
    let mut n = nursery();
    allocator_switch_to_tospace(&mut n);
    assert_eq!((n.alloc_ptr, n.alloc_ptr_end), (100, 200));
    assert!(!allocator_in_fromspace(&n));
    assert!(!allocator_in_tospace(&n));
    nursery_malloc(&mut n, 1).unwrap();
    assert!(allocator_in_tospace(&n));
}

#[test]
fn frames_and_iteration() {
    let mut m = vec![0u8; 64];
    let s = Shadowstack { start: 8, end: 56, alloc_ptr: 32 };
    assert_eq!(shadowstack_length(&s), 2);
    set_frame_ptr(&mut m, 8, 1234).unwrap();
    m[16..20].copy_from_slice(&7u32.to_le_bytes());
    set_frame_ptr(&mut m, 20, 99).unwrap();
    m[28..32].copy_from_slice(&3u32.to_le_bytes());
    assert_eq!(read_frame(&m, 8).unwrap(), ShadowstackFrame { ptr: 1234, datatype: 7 });
    let frames = shadowstack_frames(&m, &s).unwrap();
    assert_eq!(
        frames,
        vec![
            ShadowstackFrame { ptr: 1234, datatype: 7 },
            ShadowstackFrame { ptr: 99, datatype: 3 }
        ]
    );
    let mut it = ShadowstackIter::new(&s);
    assert_eq!(it.next(), Some(8));
    assert_eq!(it.next(), Some(20));
    assert_eq!(it.next(), None);
    assert!(read_frame(&m, 60).is_err());
}
