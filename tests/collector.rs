use gibbon_rts::error::RtsError;
use gibbon_rts::evacuate::copy_packed;
use gibbon_rts::gc::{check_bounds, collect_minor, copy_to_tospace, cauterize_writers, Runtime};
use gibbon_rts::info_table::{
    info_table_initialize, info_table_insert_packed_dcon, info_table_insert_scalar, InfoTable,
    CAUTERIZED_TAG, COPIED_TAG, COPIED_TO_TAG, INDIRECTION_TAG, REDIRECTION_TAG,
};
use gibbon_rts::nursery::Nursery;
use gibbon_rts::shadowstack::Shadowstack;

const MEM: usize = 8192;
const TO_START: u64 = 2048;
const TO_END: u64 = 6144;
const RSTACK: u64 = 6144;
const WSTACK: u64 = 6656;

fn put_u64(m: &mut [u8], a: u64, v: u64) {
    m[a as usize..a as usize + 8].copy_from_slice(&v.to_le_bytes());
}

fn get_u64(m: &[u8], a: u64) -> u64 {
    let mut b = [0u8; 8];
    b.copy_from_slice(&m[a as usize..a as usize + 8]);
    u64::from_le_bytes(b)
}

fn runtime() -> Runtime {
    Runtime {
        mem: vec![0u8; MEM],
        nursery: Nursery {
            from_space_start: 0,
            to_space_start: TO_START,
            to_space_end: TO_END,
            alloc_ptr: 1000,
            alloc_ptr_end: TO_START,
            initialized: true,
        },
        read_stack: Shadowstack { start: RSTACK, end: RSTACK + 512, alloc_ptr: RSTACK },
        write_stack: Shadowstack { start: WSTACK, end: WSTACK + 512, alloc_ptr: WSTACK },
        shadowstack_initialized: true,
        promotions: 0,
    }
}

fn push_frame(rt: &mut Runtime, read: bool, ptr: u64, datatype: u32) -> u64 {
    let s = if read { &mut rt.read_stack } else { &mut rt.write_stack };
    let f = s.alloc_ptr;
    s.alloc_ptr += 12;
    put_u64(&mut rt.mem, f, ptr);
    rt.mem[f as usize + 8..f as usize + 12].copy_from_slice(&datatype.to_le_bytes());
    f
}

fn table() -> InfoTable {
    let mut t = InfoTable::new();
    info_table_initialize(&mut t).unwrap();
    t
}

/// Datatype 2: tag 0 a leaf with 8 scalar bytes, tag 1 a node with two children.
fn tree_table() -> InfoTable {
    let mut t = table();
    info_table_insert_packed_dcon(&mut t, 2, 0, 8, 1, 0, vec![]).unwrap();
    info_table_insert_packed_dcon(&mut t, 2, 1, 0, 0, 2, vec![2, 2]).unwrap();
    t
}

fn leaf(m: &mut [u8], at: u64, payload: u64) {
    m[at as usize] = 0;
    put_u64(m, at + 1, payload);
}

#[test]
fn scalar_frame() {
    let mut t = table();
    info_table_insert_scalar(&mut t, 0, 4).unwrap();
    let mut rt = runtime();
    rt.mem[100..104].copy_from_slice(&[1, 2, 3, 4]);
    let f = push_frame(&mut rt, true, 100, 0);
    collect_minor(&t, &mut rt).unwrap();
    let q = get_u64(&rt.mem, f);
    assert_eq!(q, TO_START);
    assert_eq!(&rt.mem[q as usize..q as usize + 4], &[1, 2, 3, 4]);
    assert_eq!(rt.nursery.alloc_ptr, TO_START + 4);
    assert_eq!(rt.promotions, 0);
}

#[test]
fn unary_constructor_without_children() {
    let mut t = table();
    info_table_insert_packed_dcon(&mut t, 1, 0, 8, 1, 0, vec![]).unwrap();
    let mut rt = runtime();
    rt.mem[100] = 0;
    put_u64(&mut rt.mem, 101, 0x1122_3344_5566_7788);
    let source_bytes: Vec<u8> = rt.mem[100..109].to_vec();
    let f = push_frame(&mut rt, true, 100, 1);
    collect_minor(&t, &mut rt).unwrap();
    let dst = get_u64(&rt.mem, f);
    assert_eq!(dst, TO_START);
    assert_eq!(&rt.mem[dst as usize..dst as usize + 9], &source_bytes[..]);
    assert_eq!(rt.mem[100], COPIED_TO_TAG);
    assert_eq!(get_u64(&rt.mem, 101), dst);
    // The evacuated interval ends in a forwarding pointer to the copy's end.
    assert_eq!(rt.mem[109], COPIED_TO_TAG);
    assert_eq!(get_u64(&rt.mem, 110), dst + 9);
    assert_eq!(rt.nursery.alloc_ptr, TO_START + 1024);
}

#[test]
fn binary_tree_node() {
    let t = tree_table();
    let mut rt = runtime();
    rt.mem[100] = 1;
    leaf(&mut rt.mem, 101, 0xAAAA);
    leaf(&mut rt.mem, 110, 0xBBBB);
    let source_bytes: Vec<u8> = rt.mem[100..119].to_vec();
    let f = push_frame(&mut rt, true, 100, 2);
    collect_minor(&t, &mut rt).unwrap();
    let dst = get_u64(&rt.mem, f);
    assert_eq!(&rt.mem[dst as usize..dst as usize + 19], &source_bytes[..]);
    // The node's header has no room for a pointer: filler. Each leaf forwards.
    assert_eq!(rt.mem[100], COPIED_TAG);
    assert_eq!(rt.mem[101], COPIED_TO_TAG);
    assert_eq!(get_u64(&rt.mem, 102), dst + 1);
    assert_eq!(rt.mem[110], COPIED_TO_TAG);
    assert_eq!(get_u64(&rt.mem, 111), dst + 10);
    assert_eq!(rt.mem[119], COPIED_TO_TAG);
    assert_eq!(get_u64(&rt.mem, 120), dst + 19);
}

#[test]
fn redirection_in_source() {
    let t = tree_table();
    let mut rt = runtime();
    rt.mem[100] = 1;
    leaf(&mut rt.mem, 101, 0xAAAA);
    rt.mem[110] = REDIRECTION_TAG;
    put_u64(&mut rt.mem, 111, 300);
    leaf(&mut rt.mem, 300, 0xBBBB);
    let f = push_frame(&mut rt, true, 100, 2);
    collect_minor(&t, &mut rt).unwrap();
    let dst = get_u64(&rt.mem, f) as usize;
    let mut expected = vec![1u8, 0];
    expected.extend_from_slice(&0xAAAAu64.to_le_bytes());
    expected.push(0);
    expected.extend_from_slice(&0xBBBBu64.to_le_bytes());
    assert_eq!(&rt.mem[dst..dst + 19], &expected[..]);
    assert!(!rt.mem[dst..dst + 19].contains(&REDIRECTION_TAG));
    // The redirection's site forwards to where the next chunk was inlined.
    assert_eq!(rt.mem[110], COPIED_TO_TAG);
    assert_eq!(get_u64(&rt.mem, 111), dst as u64 + 10);
}

#[test]
fn shared_subtree_via_indirection() {
    let t = tree_table();
    let mut rt = runtime();
    // First value: Node(X, indirection to X).
    rt.mem[100] = 1;
    leaf(&mut rt.mem, 101, 0xCCCC);
    rt.mem[110] = INDIRECTION_TAG;
    put_u64(&mut rt.mem, 111, 101);
    // Second value: Node(indirection to X, indirection to X).
    rt.mem[200] = 1;
    rt.mem[201] = INDIRECTION_TAG;
    put_u64(&mut rt.mem, 202, 101);
    rt.mem[210] = INDIRECTION_TAG;
    put_u64(&mut rt.mem, 211, 101);
    let f1 = push_frame(&mut rt, true, 100, 2);
    let f2 = push_frame(&mut rt, true, 200, 2);
    collect_minor(&t, &mut rt).unwrap();
    let d1 = get_u64(&rt.mem, f1);
    let d2 = get_u64(&rt.mem, f2);
    assert_eq!(d2, d1 + 1024);
    // X was copied once; every later occurrence points at that copy.
    assert_eq!(rt.mem[d1 as usize + 1], 0);
    assert_eq!(get_u64(&rt.mem, d1 + 2), 0xCCCC);
    assert_eq!(rt.mem[d1 as usize + 10], INDIRECTION_TAG);
    assert_eq!(get_u64(&rt.mem, d1 + 11), d1 + 1);
    assert_eq!(rt.mem[d2 as usize], 1);
    assert_eq!(rt.mem[d2 as usize + 1], INDIRECTION_TAG);
    assert_eq!(get_u64(&rt.mem, d2 + 2), d1 + 1);
    assert_eq!(rt.mem[d2 as usize + 10], INDIRECTION_TAG);
    assert_eq!(get_u64(&rt.mem, d2 + 11), d1 + 1);
    // The indirection sites forward to where they were inlined.
    assert_eq!(rt.mem[110], COPIED_TO_TAG);
    assert_eq!(get_u64(&rt.mem, 111), d1 + 10);
}

#[test]
fn cauterized_tail() {
    let t = tree_table();
    let mut rt = runtime();
    rt.mem[100] = 1;
    leaf(&mut rt.mem, 101, 0xDDDD);
    let w = 110;
    let rf = push_frame(&mut rt, true, 100, 2);
    let wf = push_frame(&mut rt, false, w, 2);
    collect_minor(&t, &mut rt).unwrap();
    assert_eq!(rt.mem[w as usize], CAUTERIZED_TAG);
    assert_eq!(get_u64(&rt.mem, w + 1), wf);
    assert_eq!(get_u64(&rt.mem, wf), w);
    let dst = get_u64(&rt.mem, rf);
    assert_eq!(dst, TO_START);
    assert_eq!(rt.mem[dst as usize], 1);
    assert_eq!(get_u64(&rt.mem, dst + 2), 0xDDDD);
}

#[test]
fn duplicate_constructor_refused() {
    let mut t = tree_table();
    let r = info_table_insert_packed_dcon(&mut t, 2, 0, 8, 1, 0, vec![]);
    assert!(matches!(r, Err(RtsError::InfoTable(_))));
    let r = info_table_insert_packed_dcon(&mut t, 2, 1, 0, 0, 2, vec![2, 2]);
    assert!(matches!(r, Err(RtsError::InfoTable(_))));
    assert!(info_table_insert_packed_dcon(&mut t, 2, 2, 0, 0, 0, vec![]).is_ok());
}

#[test]
fn info_table_errors() {
    let mut t = InfoTable::new();
    assert!(matches!(info_table_insert_scalar(&mut t, 0, 4), Err(RtsError::InfoTable(_))));
    assert!(matches!(
        info_table_insert_packed_dcon(&mut t, 1, 0, 0, 0, 0, vec![]),
        Err(RtsError::InfoTable(_))
    ));
    info_table_initialize(&mut t).unwrap();
    assert!(matches!(info_table_initialize(&mut t), Err(RtsError::InfoTable(_))));
    info_table_insert_scalar(&mut t, 0, 4).unwrap();
    assert!(matches!(
        info_table_insert_packed_dcon(&mut t, 0, 0, 0, 0, 0, vec![]),
        Err(RtsError::InfoTable(_))
    ));
    assert!(matches!(
        info_table_insert_packed_dcon(&mut t, 5, COPIED_TAG, 0, 0, 0, vec![]),
        Err(RtsError::InfoTable(_))
    ));
    info_table_insert_scalar(&mut t, 0, 8).unwrap();
    assert!(t.lookup(0).is_some());
    assert!(t.lookup(9).is_none());
}

#[test]
fn error_description() {
    let e = RtsError::Gc("boom".to_string());
    assert_eq!(e.description(), "boom");
    let e = RtsError::InfoTable("bad".to_string());
    assert_eq!(e.description(), "bad");
}

#[test]
fn equal_sizes_for_leaf() {
    let t = tree_table();
    let mut rt = runtime();
    leaf(&mut rt.mem, 100, 42);
    rt.nursery.alloc_ptr = TO_START;
    rt.nursery.alloc_ptr_end = TO_END;
    let (sa, da, de, tag) = copy_packed(&t, &mut rt, 2, 100, 3000, 4000, 64).unwrap();
    assert_eq!(tag, Some(0));
    assert_eq!(sa - 100, da - 3000);
    assert_eq!(sa, 109);
    assert_eq!(de, 4000);
}

#[test]
fn recopy_meets_forwarding() {
    let t = tree_table();
    let mut rt = runtime();
    leaf(&mut rt.mem, 100, 42);
    rt.nursery.alloc_ptr = TO_START;
    rt.nursery.alloc_ptr_end = TO_END;
    copy_packed(&t, &mut rt, 2, 100, 3000, 4000, 64).unwrap();
    let before: Vec<u8> = rt.mem[100..109].to_vec();
    let (sa, da, _, tag) = copy_packed(&t, &mut rt, 2, 100, 3500, 4000, 64).unwrap();
    assert_eq!(tag, Some(COPIED_TO_TAG));
    assert_eq!((sa, da), (109, 3509));
    assert_eq!(rt.mem[3500], INDIRECTION_TAG);
    assert_eq!(get_u64(&rt.mem, 3501), 3000);
    assert_eq!(&rt.mem[100..109], &before[..]);
}

#[test]
fn copied_filler_finds_forwarding() {
    let t = tree_table();
    let mut rt = runtime();
    rt.nursery.alloc_ptr = TO_START;
    rt.nursery.alloc_ptr_end = TO_END;
    rt.mem[100] = COPIED_TAG;
    rt.mem[101] = COPIED_TAG;
    rt.mem[102] = COPIED_TO_TAG;
    put_u64(&mut rt.mem, 103, 3010);
    let (sa, da, _, tag) = copy_packed(&t, &mut rt, 2, 100, 3500, 4000, 64).unwrap();
    assert_eq!(tag, Some(COPIED_TAG));
    assert_eq!((sa, da), (0, 3509));
    assert_eq!(rt.mem[3500], INDIRECTION_TAG);
    assert_eq!(get_u64(&rt.mem, 3501), 3008);
}

#[test]
fn copied_filler_without_forwarding_fails() {
    let t = tree_table();
    let mut rt = runtime();
    for b in rt.mem.iter_mut() {
        *b = COPIED_TAG;
    }
    let r = copy_packed(&t, &mut rt, 2, 100, 3500, 4000, 64);
    assert!(matches!(r, Err(RtsError::Gc(_))));
}

#[test]
fn unknown_datatype_fails() {
    let t = tree_table();
    let mut rt = runtime();
    push_frame(&mut rt, true, 100, 7);
    assert!(matches!(collect_minor(&t, &mut rt), Err(RtsError::Gc(_))));
    let mut rt = runtime();
    assert!(matches!(copy_packed(&t, &mut rt, 7, 100, 3000, 4000, 64), Err(RtsError::Gc(_))));
}

#[test]
fn unknown_constructor_fails() {
    let t = tree_table();
    let mut rt = runtime();
    rt.mem[100] = 9;
    assert!(matches!(copy_packed(&t, &mut rt, 2, 100, 3000, 4000, 64), Err(RtsError::Gc(_))));
}

#[test]
fn bounds_check_opens_new_chunk() {
    let mut rt = runtime();
    rt.nursery.alloc_ptr = TO_START;
    rt.nursery.alloc_ptr_end = TO_END;
    assert_eq!(check_bounds(&mut rt, 18, 3000, 3020).unwrap(), (3000, 3020));
    let (d, e) = check_bounds(&mut rt, 18, 3000, 3010).unwrap();
    assert_eq!((d, e), (TO_START, TO_START + 1024));
    assert_eq!(rt.mem[3000], REDIRECTION_TAG);
    assert_eq!(get_u64(&rt.mem, 3001), TO_START);
    assert_eq!(rt.nursery.alloc_ptr, TO_START + 1024);
}

#[test]
fn bounds_check_out_of_space() {
    let mut rt = runtime();
    rt.nursery.alloc_ptr = TO_END - 10;
    rt.nursery.alloc_ptr_end = TO_END;
    assert!(matches!(check_bounds(&mut rt, 18, 3000, 3010), Err(RtsError::Gc(_))));
}

#[test]
fn promotion_when_already_in_tospace() {
    let t = tree_table();
    let mut rt = runtime();
    rt.nursery.alloc_ptr = TO_START + 100;
    rt.nursery.alloc_ptr_end = TO_END;
    let before: Vec<u8> = rt.mem.clone();
    collect_minor(&t, &mut rt).unwrap();
    assert_eq!(rt.promotions, 1);
    assert_eq!(rt.mem, before);
    assert_eq!(rt.nursery.alloc_ptr, TO_START + 100);
}

#[test]
fn promotion_when_nothing_freed() {
    let t = tree_table();
    let mut rt = runtime();
    // From-space offers exactly what the empty to-space will offer.
    rt.nursery.to_space_end = TO_START + (TO_START - rt.nursery.alloc_ptr);
    collect_minor(&t, &mut rt).unwrap();
    assert_eq!(rt.promotions, 1);
    assert_eq!(rt.nursery.alloc_ptr, TO_START);
}

#[test]
fn no_promotion_when_space_freed() {
    let t = tree_table();
    let mut rt = runtime();
    collect_minor(&t, &mut rt).unwrap();
    assert_eq!(rt.promotions, 0);
    assert_eq!(rt.nursery.alloc_ptr, TO_START);
    assert_eq!(rt.nursery.alloc_ptr_end, TO_END);
}

#[test]
fn cauterize_every_writer() {
    let mut rt = runtime();
    let f1 = push_frame(&mut rt, false, 100, 2);
    let f2 = push_frame(&mut rt, false, 200, 2);
    cauterize_writers(&mut rt).unwrap();
    assert_eq!(rt.mem[100], CAUTERIZED_TAG);
    assert_eq!(get_u64(&rt.mem, 101), f1);
    assert_eq!(rt.mem[200], CAUTERIZED_TAG);
    assert_eq!(get_u64(&rt.mem, 201), f2);
}

#[test]
fn cauterize_out_of_range_fails() {
    let mut rt = runtime();
    push_frame(&mut rt, false, MEM as u64 - 4, 2);
    assert!(cauterize_writers(&mut rt).is_err());
}

#[test]
fn copy_to_tospace_switches_allocator() {
    let t = tree_table();
    let mut rt = runtime();
    copy_to_tospace(&t, &mut rt).unwrap();
    assert_eq!(rt.nursery.alloc_ptr, TO_START);
    assert_eq!(rt.nursery.alloc_ptr_end, TO_END);
}

#[test]
fn depth_limit_refuses() {
    let t = tree_table();
    let mut rt = runtime();
    rt.mem[100] = INDIRECTION_TAG;
    put_u64(&mut rt.mem, 101, 100);
    rt.nursery.alloc_ptr = TO_START;
    rt.nursery.alloc_ptr_end = TO_END;
    assert!(matches!(copy_packed(&t, &mut rt, 2, 100, 3000, 4000, 16), Err(RtsError::Gc(_))));
}

#[test]
fn leading_redirection_collapses() {
    let t = tree_table();
    let mut rt = runtime();
    rt.nursery.alloc_ptr = TO_START;
    rt.nursery.alloc_ptr_end = TO_END;
    rt.mem[100] = REDIRECTION_TAG;
    put_u64(&mut rt.mem, 101, 400);
    rt.mem[400] = 1;
    leaf(&mut rt.mem, 401, 5);
    leaf(&mut rt.mem, 410, 6);
    let source_bytes: Vec<u8> = rt.mem[400..419].to_vec();
    let (sa, da, de, tag) = copy_packed(&t, &mut rt, 2, 100, 3000, 4000, 64).unwrap();
    assert_eq!((sa, da, de, tag), (419, 3019, 4000, Some(1)));
    assert_eq!(&rt.mem[3000..3019], &source_bytes[..]);
    assert_eq!(rt.mem[100], COPIED_TO_TAG);
    assert_eq!(get_u64(&rt.mem, 101), 3000);
}

#[test]
fn indirection_to_plain_value_inlined() {
    let t = tree_table();
    let mut rt = runtime();
    rt.nursery.alloc_ptr = TO_START;
    rt.nursery.alloc_ptr_end = TO_END;
    rt.mem[100] = INDIRECTION_TAG;
    put_u64(&mut rt.mem, 101, 500);
    leaf(&mut rt.mem, 500, 77);
    let source_bytes: Vec<u8> = rt.mem[500..509].to_vec();
    let (sa, da, _, tag) = copy_packed(&t, &mut rt, 2, 100, 3000, 4000, 64).unwrap();
    assert_eq!((sa, da, tag), (109, 3009, Some(INDIRECTION_TAG)));
    assert_eq!(&rt.mem[3000..3009], &source_bytes[..]);
    assert_eq!(rt.mem[100], COPIED_TO_TAG);
    assert_eq!(get_u64(&rt.mem, 101), 3000);
}

#[test]
fn redirection_chain_collapses() {
    let t = tree_table();
    let mut rt = runtime();
    rt.nursery.alloc_ptr = TO_START;
    rt.nursery.alloc_ptr_end = TO_END;
    rt.mem[100] = REDIRECTION_TAG;
    put_u64(&mut rt.mem, 101, 200);
    rt.mem[200] = REDIRECTION_TAG;
    put_u64(&mut rt.mem, 201, 300);
    leaf(&mut rt.mem, 300, 0xEEEE);
    let (sa, da, _, tag) = copy_packed(&t, &mut rt, 2, 100, 3000, 4000, 64).unwrap();
    assert_eq!((sa, da, tag), (309, 3009, Some(0)));
    assert_eq!(rt.mem[3000], 0);
    assert_eq!(get_u64(&rt.mem, 3001), 0xEEEE);
    assert_eq!(rt.mem[100], COPIED_TO_TAG);
    assert_eq!(get_u64(&rt.mem, 101), 3000);
    assert_eq!(rt.mem[200], COPIED_TO_TAG);
    assert_eq!(get_u64(&rt.mem, 201), 3000);
}

#[test]
fn several_read_frames_get_own_chunks() {
    let t = tree_table();
    let mut rt = runtime();
    leaf(&mut rt.mem, 100, 1);
    leaf(&mut rt.mem, 200, 2);
    leaf(&mut rt.mem, 300, 3);
    let fs = [
        push_frame(&mut rt, true, 100, 2),
        push_frame(&mut rt, true, 200, 2),
        push_frame(&mut rt, true, 300, 2),
    ];
    collect_minor(&t, &mut rt).unwrap();
    for (i, f) in fs.iter().enumerate() {
        let q = get_u64(&rt.mem, *f);
        assert_eq!(q, TO_START + 1024 * i as u64);
        assert_eq!(rt.mem[q as usize], 0);
        assert_eq!(get_u64(&rt.mem, q + 1), i as u64 + 1);
    }
    assert_eq!(rt.nursery.alloc_ptr, TO_START + 3 * 1024);
}

#[test]
fn unknown_datatype_is_named() {
    let t = tree_table();
    let mut rt = runtime();
    let r = copy_packed(&t, &mut rt, 17, 100, 3000, 4000, 64);
    assert_eq!(r, Err(RtsError::Gc("copy_packed: Unknown datatype, 17".to_string())));
    push_frame(&mut rt, true, 100, 42);
    let r = collect_minor(&t, &mut rt);
    assert_eq!(r, Err(RtsError::Gc("copy_readers: Unknown datatype, 42".to_string())));
    assert_eq!(rt.promotions, 0);
}

#[test]
fn forwarding_pointer_into_new_chunk() {
    let t = tree_table();
    let mut rt = runtime();
    rt.nursery.alloc_ptr = TO_START;
    rt.nursery.alloc_ptr_end = TO_END;
    rt.mem[100] = COPIED_TO_TAG;
    put_u64(&mut rt.mem, 101, 2500);
    let (sa, da, de, tag) = copy_packed(&t, &mut rt, 2, 100, 3000, 3010, 64).unwrap();
    assert_eq!((sa, da, de, tag), (109, TO_START + 9, TO_START + 1024, Some(COPIED_TO_TAG)));
    assert_eq!(rt.mem[3000], REDIRECTION_TAG);
    assert_eq!(get_u64(&rt.mem, 3001), TO_START);
    assert_eq!(rt.mem[TO_START as usize], INDIRECTION_TAG);
    assert_eq!(get_u64(&rt.mem, TO_START + 1), 2500);
}

#[test]
fn indirection_to_cauterized_cursor_stops() {
    let t = tree_table();
    let mut rt = runtime();
    rt.nursery.alloc_ptr = TO_START;
    rt.nursery.alloc_ptr_end = TO_END;
    let wf = push_frame(&mut rt, false, 500, 2);
    rt.mem[500] = CAUTERIZED_TAG;
    put_u64(&mut rt.mem, 501, wf);
    rt.mem[100] = 1;
    rt.mem[101] = INDIRECTION_TAG;
    put_u64(&mut rt.mem, 102, 500);
    leaf(&mut rt.mem, 110, 9);
    let r = copy_packed(&t, &mut rt, 2, 100, 3000, 4000, 64).unwrap();
    assert_eq!(r, (0, 0, 0, Some(CAUTERIZED_TAG)));
    assert_eq!(get_u64(&rt.mem, wf), 500);
    // The second child was not copied.
    assert_eq!(rt.mem[110], 0);
}

#[test]
fn copied_child_stops_walk() {
    let t = tree_table();
    let mut rt = runtime();
    rt.nursery.alloc_ptr = TO_START;
    rt.nursery.alloc_ptr_end = TO_END;
    rt.mem[100] = 1;
    rt.mem[101] = COPIED_TAG;
    rt.mem[102] = COPIED_TO_TAG;
    put_u64(&mut rt.mem, 103, 2600);
    let (sa, da, _, tag) = copy_packed(&t, &mut rt, 2, 100, 3000, 4000, 64).unwrap();
    assert_eq!((sa, da, tag), (0, 3010, Some(COPIED_TAG)));
    assert_eq!(rt.mem[3001], INDIRECTION_TAG);
    assert_eq!(get_u64(&rt.mem, 3002), 2599);
}

#[test]
fn redirection_between_children_inlined() {
    let t = tree_table();
    let mut rt = runtime();
    rt.nursery.alloc_ptr = TO_START;
    rt.nursery.alloc_ptr_end = TO_END;
    rt.mem[100] = 1;
    leaf(&mut rt.mem, 101, 0xA1);
    rt.mem[110] = REDIRECTION_TAG;
    put_u64(&mut rt.mem, 111, 600);
    leaf(&mut rt.mem, 600, 0xB2);
    let r = copy_packed(&t, &mut rt, 2, 100, 3000, 4024, 64).unwrap();
    assert_eq!(r, (609, 3019, 4024, Some(1)));
    let mut expected = vec![1u8, 0];
    expected.extend_from_slice(&0xA1u64.to_le_bytes());
    expected.push(0);
    expected.extend_from_slice(&0xB2u64.to_le_bytes());
    assert_eq!(&rt.mem[3000..3019], &expected[..]);
    assert_eq!(rt.mem[110], COPIED_TO_TAG);
    assert_eq!(get_u64(&rt.mem, 111), 3010);
}
