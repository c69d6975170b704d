//! The runtime's state and the minor collection: bounds checks, cauterizing
//! write cursors, evacuating read cursors, and the decision to promote.

use vstd::prelude::*;
use crate::error::RtsError;
use crate::message::{gc_error_with, decimal};
use crate::cursor::{
    read_u64, write_u8, write_u64, copy_bytes, u64_at, u64_bytes, overwrite, in_range,
    out_of_range,
};
use crate::info_table::{
    Datatype, InfoTable, DatatypeInfo, DatatypeSpec, REDIRECTION_TAG, CAUTERIZED_TAG, COPIED_TO_TAG,
    COPIED_TAG,
};
use crate::nursery::{
    Nursery, nursery_malloc, allocator_in_tospace, allocator_space_available,
    allocator_switch_to_tospace,
};
use crate::shadowstack::{
    Shadowstack, ShadowstackIter, FRAME_SIZE, read_frame, set_frame_ptr, frame_datatype_at,
};
use crate::evacuate::{copy_packed, entry, dcon, header_forwarded, table_of, copy_spec};
use crate::plain::{plain_size, apart, lemma_plain_bounds, fwd_image};

verus! {

/// Size of every to-space chunk the collector allocates.
pub const CHUNK_SIZE: u64 = 1024;

/// Room that an ordinary constructor reserves in the destination besides its
/// scalar prefix: enough for a redirection or a forwarding pointer.
pub const CONSTRUCTOR_RESERVE: u64 = 32;

/// Room needed to write an indirection in the destination.
pub const INDIRECTION_RESERVE: u64 = 18;

/// The whole state the collector works on.
pub struct Runtime {
    /// Every byte the runtime addresses.
    pub mem: Vec<u8>,
    pub nursery: Nursery,
    pub read_stack: Shadowstack,
    pub write_stack: Shadowstack,
    pub shadowstack_initialized: bool,
    /// How many times the collector asked for promotion to the old generation.
    pub promotions: u64,
}

/// A tag followed by an 8-byte pointer: the nine bytes of every link.
pub open spec fn tagged(tag: u8, p: u64) -> Seq<u8> {
    seq![tag] + u64_bytes(p)
}

/// Writes `tag` at `a` and the pointer `p` right after it.
pub fn write_tagged(m: &mut Vec<u8>, a: u64, tag: u8, p: u64) -> (r: Result<(), RtsError>)
    ensures
        in_range(old(m)@.len() as int, a as int, 9) ==> r is Ok && final(m)@ == overwrite(
            old(m)@,
            a as int,
            tagged(tag, p),
        ),
        !in_range(old(m)@.len() as int, a as int, 9) ==> r is Err && r->Err_0 is Gc && final(m)@
            == old(m)@,
{
    if a > m.len() as u64 || m.len() as u64 - a < 9 {
        return Err(out_of_range());
    }
    let ghost m0 = m@;
    write_u8(m, a, tag)?;
    write_u64(m, a + 1, p)?;
    assert(m@ =~= overwrite(m0, a as int, tagged(tag, p)));
    Ok(())
}

/// Whether `reqd` bytes are left between `dst` and `dst_end`.
pub open spec fn has_room(dst: u64, dst_end: u64, reqd: u64) -> bool {
    dst <= dst_end && dst_end - dst >= reqd
}

/// The runtime after `check_bounds` moved the destination to a fresh chunk
/// that starts at the old bump pointer.
pub open spec fn after_new_chunk(rt0: Runtime, rt1: Runtime, dst: u64) -> bool {
    &&& rt1.nursery == (Nursery { alloc_ptr: (rt0.nursery.alloc_ptr + CHUNK_SIZE) as u64, ..rt0.nursery })
    &&& rt1.mem@ == overwrite(rt0.mem@, dst as int, tagged(REDIRECTION_TAG, rt0.nursery.alloc_ptr))
}

/// The part of the runtime that copying never changes.
pub open spec fn same_frame(rt0: Runtime, rt1: Runtime) -> bool {
    &&& rt1.mem@.len() == rt0.mem@.len()
    &&& rt1.nursery.wf()
    &&& rt1.nursery.alloc_ptr >= rt0.nursery.alloc_ptr
    &&& rt1.nursery.alloc_ptr_end == rt0.nursery.alloc_ptr_end
    &&& rt1.nursery.to_space_start == rt0.nursery.to_space_start
    &&& rt1.nursery.to_space_end == rt0.nursery.to_space_end
    &&& rt1.nursery.from_space_start == rt0.nursery.from_space_start
    &&& rt1.nursery.initialized == rt0.nursery.initialized
    &&& rt1.read_stack == rt0.read_stack
    &&& rt1.write_stack == rt0.write_stack
    &&& rt1.shadowstack_initialized == rt0.shadowstack_initialized
    &&& rt1.promotions == rt0.promotions
}

/// Whether `check_bounds` succeeds: room is left, or a fresh chunk can be
/// taken and a redirection to it written at `dst`.
pub open spec fn bounds_ok(rt: Runtime, reqd: u64, dst: u64, dst_end: u64) -> bool {
    has_room(dst, dst_end, reqd) || (CHUNK_SIZE <= rt.nursery.space() && in_range(
        rt.mem@.len() as int,
        dst as int,
        9,
    ))
}

/// Where writing goes on after `check_bounds`.
pub open spec fn bounds_dst(rt: Runtime, reqd: u64, dst: u64, dst_end: u64) -> u64 {
    if has_room(dst, dst_end, reqd) {
        dst
    } else {
        rt.nursery.alloc_ptr
    }
}

/// The end of the chunk written after `check_bounds`.
pub open spec fn bounds_end(rt: Runtime, reqd: u64, dst: u64, dst_end: u64) -> u64 {
    if has_room(dst, dst_end, reqd) {
        dst_end
    } else {
        (rt.nursery.alloc_ptr + CHUNK_SIZE) as u64
    }
}

/// The runtime after a successful `check_bounds`.
pub open spec fn bounds_rt(rt: Runtime, reqd: u64, dst: u64, dst_end: u64) -> Runtime {
    if has_room(dst, dst_end, reqd) {
        rt
    } else {
        Runtime {
            mem: rt.mem,
            nursery: Nursery { alloc_ptr: (rt.nursery.alloc_ptr + CHUNK_SIZE) as u64, ..rt.nursery },
            ..rt
        }
    }
}

/// The memory after a successful `check_bounds`.
pub open spec fn bounds_mem(rt: Runtime, reqd: u64, dst: u64, dst_end: u64) -> Seq<u8> {
    if has_room(dst, dst_end, reqd) {
        rt.mem@
    } else {
        overwrite(rt.mem@, dst as int, tagged(REDIRECTION_TAG, rt.nursery.alloc_ptr))
    }
}

/// The part of the runtime that copying reads and writes.
pub ghost struct CopyState {
    pub mem: Seq<u8>,
    pub nursery: Nursery,
}

/// The copying state of `rt`.
pub open spec fn cstate(rt: Runtime) -> CopyState {
    CopyState { mem: rt.mem@, nursery: rt.nursery }
}

/// What `check_bounds` returns and leaves: `None` for an error.
pub open spec fn bounds_spec(st: CopyState, reqd: u64, dst: u64, dst_end: u64) -> (
    Option<(u64, u64)>,
    CopyState,
) {
    let a = st.nursery.alloc_ptr;
    if has_room(dst, dst_end, reqd) {
        (Some((dst, dst_end)), st)
    } else if !in_range(st.mem.len() as int, dst as int, 9) || CHUNK_SIZE > st.nursery.space() {
        (None, st)
    } else {
        (
            Some((a, (a + CHUNK_SIZE) as u64)),
            CopyState {
                mem: overwrite(st.mem, dst as int, tagged(REDIRECTION_TAG, a)),
                nursery: Nursery { alloc_ptr: (a + CHUNK_SIZE) as u64, ..st.nursery },
            },
        )
    }
}

/// Makes sure `space_reqd` bytes are free at `dst`. If they are not, a fresh
/// chunk is taken from the nursery and a redirection to it is written at `dst`.
pub fn check_bounds(rt: &mut Runtime, space_reqd: u64, dst: u64, dst_end: u64) -> (r: Result<
    (u64, u64),
    RtsError,
>)
    requires
        old(rt).nursery.wf(),
    ensures
        same_frame(*old(rt), *final(rt)),
        has_room(dst, dst_end, space_reqd) ==> r == Ok::<(u64, u64), RtsError>((dst, dst_end))
            && *final(rt) == *old(rt),
        !has_room(dst, dst_end, space_reqd) && CHUNK_SIZE <= old(rt).nursery.space() && in_range(
            old(rt).mem@.len() as int,
            dst as int,
            9,
        ) ==> r == Ok::<(u64, u64), RtsError>(
            (old(rt).nursery.alloc_ptr, (old(rt).nursery.alloc_ptr + CHUNK_SIZE) as u64),
        ) && after_new_chunk(*old(rt), *final(rt), dst),
        !has_room(dst, dst_end, space_reqd) && !(CHUNK_SIZE <= old(rt).nursery.space() && in_range(
            old(rt).mem@.len() as int,
            dst as int,
            9,
        )) ==> r is Err && r->Err_0 is Gc && *final(rt) == *old(rt),
        (r is Ok) == (bounds_spec(cstate(*old(rt)), space_reqd, dst, dst_end).0 is Some),
        r matches Ok(v) ==> bounds_spec(cstate(*old(rt)), space_reqd, dst, dst_end).0 == Some(v),
        cstate(*final(rt)) == bounds_spec(cstate(*old(rt)), space_reqd, dst, dst_end).1,
        bounds_ok(*old(rt), space_reqd, dst, dst_end) ==> r == Ok::<(u64, u64), RtsError>(
            (
                bounds_dst(*old(rt), space_reqd, dst, dst_end),
                bounds_end(*old(rt), space_reqd, dst, dst_end),
            ),
        ) && final(rt).mem@ == bounds_mem(*old(rt), space_reqd, dst, dst_end) && final(rt).nursery
            == bounds_rt(*old(rt), space_reqd, dst, dst_end).nursery,
{
    if dst <= dst_end && dst_end - dst >= space_reqd {
        return Ok((dst, dst_end));
    }
    if dst > rt.mem.len() as u64 || rt.mem.len() as u64 - dst < 9 {
        return Err(out_of_range());
    }
    let (new_dst, new_dst_end) = nursery_malloc(&mut rt.nursery, CHUNK_SIZE)?;
    let w = write_tagged(&mut rt.mem, dst, REDIRECTION_TAG, new_dst);
    assert(w is Ok);
    Ok((new_dst, new_dst_end))
}

/// Records that the collector asks for promotion to the old generation;
/// that collector is not part of this library.
pub fn promote_to_oldgen(rt: &mut Runtime) -> (r: Result<(), RtsError>)
    ensures
        r == Ok::<(), RtsError>(()),
        *final(rt) == (Runtime { promotions: bump(old(rt).promotions), ..*old(rt) }),
{
    rt.promotions = if rt.promotions < u64::MAX {
        rt.promotions + 1
    } else {
        rt.promotions
    };
    Ok(())
}

/// One more, short of overflow.
pub open spec fn bump(n: u64) -> u64 {
    if n < u64::MAX {
        (n + 1) as u64
    } else {
        n
    }
}

/// Memory after the first `k` write frames of `s` were cauterized in order:
/// at each frame's cursor, CAUTERIZED followed by the frame's own address.
pub open spec fn cauterized(m: Seq<u8>, s: Shadowstack, k: nat) -> Seq<u8>
    decreases k,
{
    if k == 0 {
        m
    } else {
        let m1 = cauterized(m, s, (k - 1) as nat);
        let f = s.frame_addr(k - 1);
        overwrite(m1, u64_at(m1, f) as int, tagged(CAUTERIZED_TAG, f as u64))
    }
}

/// Whether each of the first `k` cauterizations reads and writes inside memory.
pub open spec fn cauterize_fits(m: Seq<u8>, s: Shadowstack, k: nat) -> bool
    decreases k,
{
    if k == 0 {
        true
    } else {
        let m1 = cauterized(m, s, (k - 1) as nat);
        let f = s.frame_addr(k - 1);
        &&& cauterize_fits(m, s, (k - 1) as nat)
        &&& in_range(m.len() as int, f, 8)
        &&& in_range(m.len() as int, u64_at(m1, f) as int, 9)
    }
}

proof fn lemma_cauterized_len(m: Seq<u8>, s: Shadowstack, k: nat)
    ensures
        cauterized(m, s, k).len() == m.len(),
    decreases k,
{
    if k > 0 {
        lemma_cauterized_len(m, s, (k - 1) as nat);
    }
}

/// Writes CAUTERIZED and the frame's address at every write cursor, so that
/// the copier stops there and can find the cursor's frame.
pub fn cauterize_writers(rt: &mut Runtime) -> (r: Result<(), RtsError>)
    requires
        old(rt).write_stack.wf(),
    ensures
        final(rt).nursery == old(rt).nursery,
        final(rt).read_stack == old(rt).read_stack,
        final(rt).write_stack == old(rt).write_stack,
        final(rt).shadowstack_initialized == old(rt).shadowstack_initialized,
        final(rt).promotions == old(rt).promotions,
        final(rt).mem@.len() == old(rt).mem@.len(),
        cauterize_fits(old(rt).mem@, old(rt).write_stack, old(rt).write_stack.len() as nat)
            <==> r is Ok,
        r is Ok ==> final(rt).mem@ == cauterized(
            old(rt).mem@,
            old(rt).write_stack,
            old(rt).write_stack.len() as nat,
        ),
{
    let ghost m0 = rt.mem@;
    let ghost s = rt.write_stack;
    let mut it = ShadowstackIter::new(&rt.write_stack);
    let mut k: u64 = 0;
    while it.run_ptr < it.end_ptr
        invariant
            s == rt.write_stack,
            s == old(rt).write_stack,
            m0 == old(rt).mem@,
            s.wf(),
            it.end_ptr == s.alloc_ptr,
            it.run_ptr == s.start + k * FRAME_SIZE,
            k <= s.len(),
            rt.nursery == old(rt).nursery,
            rt.read_stack == old(rt).read_stack,
            rt.shadowstack_initialized == old(rt).shadowstack_initialized,
            rt.promotions == old(rt).promotions,
            rt.mem@ == cauterized(m0, s, k as nat),
            cauterize_fits(m0, s, k as nat),
        decreases it.end_ptr - it.run_ptr,
    {
        assert(it.run_ptr + FRAME_SIZE <= it.end_ptr && k < s.len()) by (nonlinear_arith)
            requires
                it.run_ptr < it.end_ptr,
                it.run_ptr == s.start + k * 12,
                (s.alloc_ptr - s.start) % 12 == 0,
                it.end_ptr == s.alloc_ptr,
                s.start <= s.alloc_ptr,
                FRAME_SIZE == 12,
        ;
        let f = match it.next() {
            Some(f) => f,
            None => {
                assert(false);
                return Err(out_of_range());
            },
        };
        proof {
            lemma_cauterized_len(m0, s, k as nat);
        }
        let ptr = match read_u64(&rt.mem, f) {
            Ok(p) => p,
            Err(e) => {
                assert(!cauterize_fits(m0, s, (k + 1) as nat));
                proof {
                    if cauterize_fits(m0, s, s.len() as nat) {
                        lemma_fits_prefix(m0, s, (k + 1) as nat, s.len() as nat);
                    }
                }
                return Err(e);
            },
        };
        match write_tagged(&mut rt.mem, ptr, CAUTERIZED_TAG, f) {
            Ok(()) => {},
            Err(e) => {
                assert(!cauterize_fits(m0, s, (k + 1) as nat));
                proof {
                    if cauterize_fits(m0, s, s.len() as nat) {
                        lemma_fits_prefix(m0, s, (k + 1) as nat, s.len() as nat);
                    }
                }
                return Err(e);
            },
        }
        k = k + 1;
    }
    assert(k == s.len()) by (nonlinear_arith)
        requires
            it.run_ptr >= it.end_ptr,
            it.run_ptr == s.start + k * 12,
            it.end_ptr == s.alloc_ptr,
            k <= s.len(),
            s.len() == (s.alloc_ptr - s.start) / 12,
            s.start <= s.alloc_ptr,
    ;
    proof {
        lemma_cauterized_len(m0, s, k as nat);
    }
    Ok(())
}

proof fn lemma_fits_prefix(m: Seq<u8>, s: Shadowstack, j: nat, k: nat)
    requires
        j <= k,
        cauterize_fits(m, s, k),
    ensures
        cauterize_fits(m, s, j),
    decreases k,
{
    if j < k {
        lemma_fits_prefix(m, s, j, (k - 1) as nat);
    }
}

/// Room for a plain value of `n` bytes at `p`, owned by the frame at `f`, to
/// be evacuated into a fresh chunk at the bump pointer of `nu`: the chunk
/// fits, and the source, the copy, the frame's pointer and the forwarding
/// pointer after the source do not meet one another.
pub open spec fn readers_plain_fits(nu: Nursery, len: int, f: int, p: int, n: int) -> bool {
    let a = nu.alloc_ptr as int;
    &&& CHUNK_SIZE <= nu.space()
    &&& n + CONSTRUCTOR_RESERVE <= CHUNK_SIZE
    &&& in_range(len, a, n)
    &&& in_range(len, p + n, 9)
    &&& apart(p, n + 9, a, n)
    &&& apart(f, 8, a, n)
    &&& apart(f, 8, p + n, 9)
    &&& apart(f, 8, p, n)
}

/// Evacuating the read frame at `f`, as `copy_reader` performs it: `None`
/// for an error, and the state it leaves, also on an error.
pub open spec fn reader_spec(t: Map<Datatype, DatatypeSpec>, st: CopyState, f: u64) -> (
    Option<()>,
    CopyState,
) {
    let m = st.mem;
    let len = m.len() as int;
    let p = u64_at(m, f as int);
    let dt = frame_datatype_at(m, f as int);
    let a = st.nursery.alloc_ptr;
    if !in_range(len, f as int, FRAME_SIZE as int) || !t.contains_key(dt) {
        (None, st)
    } else {
        match t[dt] {
            DatatypeSpec::Scalar(w) => if w > st.nursery.space() {
                (None, st)
            } else {
                let nu = Nursery { alloc_ptr: (a + w) as u64, ..st.nursery };
                if !(in_range(len, p as int, w as int) && in_range(len, a as int, w as int)) {
                    (None, CopyState { nursery: nu, ..st })
                } else {
                    (
                        Some(()),
                        CopyState {
                            mem: overwrite(
                                overwrite(m, a as int, m.subrange(p as int, p + w)),
                                f as int,
                                u64_bytes(a),
                            ),
                            nursery: nu,
                        },
                    )
                }
            },
            DatatypeSpec::Packed(_) => if CHUNK_SIZE > st.nursery.space() {
                (None, st)
            } else {
                let st1 = CopyState {
                    nursery: Nursery { alloc_ptr: (a + CHUNK_SIZE) as u64, ..st.nursery },
                    ..st
                };
                let (o, st2) = copy_spec(t, st1, dt, p, a, (a + CHUNK_SIZE) as u64, m.len() as nat);
                match o {
                    None => (None, st2),
                    Some((sa, da, _, tag)) => if !in_range(st2.mem.len() as int, f as int, 8) {
                        (None, st2)
                    } else {
                        // The frame points at the chunk; an interval evacuated up
                        // to an ordinary constructor or a link ends in a
                        // forwarding pointer to the copy's end.
                        let st3 = CopyState { mem: overwrite(st2.mem, f as int, u64_bytes(a)), ..st2 };
                        if tag is Some && tag != Some(CAUTERIZED_TAG) && tag != Some(COPIED_TO_TAG)
                            && tag != Some(COPIED_TAG) {
                            if !in_range(st3.mem.len() as int, sa as int, 9) {
                                (None, st3)
                            } else {
                                (
                                    Some(()),
                                    CopyState {
                                        mem: overwrite(st3.mem, sa as int, tagged(COPIED_TO_TAG, da)),
                                        ..st3
                                    },
                                )
                            }
                        } else {
                            (Some(()), st3)
                        }
                    },
                }
            },
        }
    }
}

/// Evacuating the read frames of `s` from the `i`-th on, oldest first,
/// stopping at the first error.
pub open spec fn readers_spec(t: Map<Datatype, DatatypeSpec>, st: CopyState, s: Shadowstack, i: int) -> (
    Option<()>,
    CopyState,
)
    decreases s.len() - i,
{
    if i < 0 || i >= s.len() {
        (Some(()), st)
    } else {
        let (o, st1) = reader_spec(t, st, s.frame_addr(i) as u64);
        if o is None {
            (None, st1)
        } else {
            readers_spec(t, st1, s, i + 1)
        }
    }
}

/// What evacuating the read frame at `f` does, from `rt0` to `rt1` with
/// result `r`.
pub open spec fn reader_step(
    tbl: InfoTable,
    rt0: Runtime,
    rt1: Runtime,
    f: u64,
    r: Result<(), RtsError>,
) -> bool {
    &&& same_frame(rt0, rt1)
    // Whatever the frame holds.
    &&& (r is Ok) == (reader_spec(table_of(tbl@), cstate(rt0), f).0 is Some)
    &&& cstate(rt1) == reader_spec(table_of(tbl@), cstate(rt0), f).1
    // A scalar frame: `size` bytes copied to the bump pointer, the frame
    // pointed there, and the bump pointer advanced by `size`.
    &&& ({
        let m0 = rt0.mem@;
        let p = u64_at(m0, f as int);
        let dt = frame_datatype_at(m0, f as int);
        let a = rt0.nursery.alloc_ptr;
        in_range(m0.len() as int, f as int, FRAME_SIZE as int) && table_of(tbl@).contains_key(dt)
            && entry(tbl, dt) is Scalar ==> {
            let w = entry(tbl, dt)->Scalar_0 as int;
            if w <= rt0.nursery.space() && in_range(m0.len() as int, p as int, w) && in_range(
                m0.len() as int,
                a as int,
                w,
            ) {
                let m1 = overwrite(m0, a as int, m0.subrange(p as int, p + w));
                &&& r is Ok
                &&& rt1.nursery == (Nursery {
                    alloc_ptr: (a + w) as u64,
                    ..rt0.nursery
                })
                &&& rt1.mem@ == overwrite(m1, f as int, u64_bytes(a))
            } else {
                r is Err
            }
        }
    })
    // An unregistered datatype: an error naming it, and nothing changed.
    &&& in_range(rt0.mem@.len() as int, f as int, FRAME_SIZE as int) && !table_of(tbl@).contains_key(
        frame_datatype_at(rt0.mem@, f as int),
    ) ==> r is Err && r->Err_0 is Gc && r->Err_0->Gc_0@ == "copy_readers: Unknown datatype, "@
        + decimal(frame_datatype_at(rt0.mem@, f as int) as nat) && rt1 == rt0
    // A packed frame holding a plain value, with room in a fresh chunk and
    // all parts apart: the frame points at a byte-for-byte copy at the
    // bump pointer, and the source interval ends in a forwarding pointer
    // to the copy's end.
    &&& ({
        let m0 = rt0.mem@;
        let len = m0.len() as int;
        let p = u64_at(m0, f as int);
        let dt = frame_datatype_at(m0, f as int);
        let a = rt0.nursery.alloc_ptr;
        in_range(len, f as int, FRAME_SIZE as int) && table_of(tbl@).contains_key(dt) && entry(
            tbl,
            dt,
        ) is Packed ==> (plain_size(table_of(tbl@), m0, dt, p as int, m0.len() as nat) matches Some(
            n,
        ) ==> (readers_plain_fits(rt0.nursery, len, f as int, p as int, n) ==> {
            &&& r is Ok
            &&& rt1.nursery == (Nursery {
                alloc_ptr: (a + CHUNK_SIZE) as u64,
                ..rt0.nursery
            })
            &&& u64_at(rt1.mem@, f as int) == a
            &&& rt1.mem@.subrange(a as int, a + n) == m0.subrange(p as int, p + n)
            &&& rt1.mem@.subrange(p + n, p + n + 9) == tagged(COPIED_TO_TAG, (a + n) as u64)
            &&& header_forwarded(tbl, dt, m0, rt1.mem@, p as int, a)
            &&& rt1.mem@.subrange(p as int, p + n) == fwd_image(
                table_of(tbl@),
                m0,
                dt,
                p as int,
                a as int,
                m0.len() as nat,
            )
            &&& rt1.mem@.len() == m0.len()
            &&& forall|i: int|
                0 <= i < len && !(p <= i < p + n + 9) && !(a <= i < a + n) && !(f <= i < f + 8)
                    ==> #[trigger] rt1.mem@[i] == m0[i]
        }))
    })
    &&& !in_range(rt0.mem@.len() as int, f as int, FRAME_SIZE as int) ==> r is Err && rt1 == rt0
}

/// Evacuates the value of the read frame at `f` into fresh nursery space and
/// points the frame at the copy. A scalar is copied as it is; a packed value
/// goes through `copy_packed` in a new chunk, and where its evacuation ended
/// on an ordinary constructor or a link, a forwarding pointer to the end of
/// the copy is left right after the source interval.
#[verifier::rlimit(80)]
pub fn copy_reader(tbl: &InfoTable, rt: &mut Runtime, f: u64) -> (r: Result<(), RtsError>)
    requires
        old(rt).nursery.wf(),
    ensures
        reader_step(*tbl, *old(rt), *final(rt), f, r),
{
    let frame = read_frame(&rt.mem, f)?;
    let datatype = frame.datatype;
    let src = frame.ptr;
    match tbl.lookup(datatype) {
        None => Err(gc_error_with("copy_readers: Unknown datatype, ", datatype as u64)),
        Some(DatatypeInfo::Scalar(size)) => {
            let (dst, _) = nursery_malloc(&mut rt.nursery, *size as u64)?;
            copy_bytes(&mut rt.mem, src, dst, *size as u64)?;
            let w = set_frame_ptr(&mut rt.mem, f, dst);
            assert(w is Ok);
            Ok(())
        },
        Some(DatatypeInfo::Packed(_)) => {
            let (dst, dst_end) = nursery_malloc(&mut rt.nursery, CHUNK_SIZE)?;
            let depth = rt.mem.len() as u64;
            let (src_after, dst_after, _dst_after_end, tag) = copy_packed(
                tbl,
                rt,
                datatype,
                src,
                dst,
                dst_end,
                depth,
            )?;
            let ghost m2 = rt.mem@;
            set_frame_ptr(&mut rt.mem, f, dst)?;
            let ghost m3 = rt.mem@;
            proof {
                let t = table_of(tbl@);
                let m0 = old(rt).mem@;
                let ps = plain_size(t, m0, datatype, src as int, m0.len() as nat);
                if ps is Some {
                    let n = ps->Some_0;
                    if readers_plain_fits(old(rt).nursery, m0.len() as int, f as int, src as int, n) {
                        lemma_plain_bounds(t, m0, datatype, src as int, m0.len() as nat);
                        crate::cursor::lemma_u64_round_trip(m2, f as int, dst);
                        assert(m3.subrange(dst as int, dst + n) =~= m2.subrange(dst as int, dst + n));
                        assert(tag == Some(m0[src as int]));
                    }
                }
            }
            match tag {
                None => {},
                Some(t) => {
                    if t != CAUTERIZED_TAG && t != COPIED_TO_TAG && t != COPIED_TAG {
                        write_tagged(&mut rt.mem, src_after, COPIED_TO_TAG, dst_after)?;
                        proof {
                            let t = table_of(tbl@);
                            let m0 = old(rt).mem@;
                            let ps = plain_size(t, m0, datatype, src as int, m0.len() as nat);
                            if ps is Some {
                                let n = ps->Some_0;
                                if readers_plain_fits(old(rt).nursery, m0.len() as int, f as int, src as int, n) {
                                    let m4 = rt.mem@;
                                    assert(m4.subrange(src + n, src + n + 9) =~= tagged(COPIED_TO_TAG, dst_after));
                                    let sb = dcon(*tbl, datatype, m0[src as int]).scalar_bytes as int;
                                    let c = dcon(*tbl, datatype, m0[src as int]);
                                    crate::plain::lemma_plain_fields_bounds(t, m0, c.field_tys, src + 1 + sb, (m0.len() - 1) as nat);
                                    assert(sb + 1 <= n);
                                    assert(m4.subrange(src as int, src + 1 + sb) =~= m2.subrange(src as int, src + 1 + sb));
                                    assert(m4.subrange(src as int, src + n) =~= m2.subrange(src as int, src + n));
                                    assert(m4.subrange(dst as int, dst + n) =~= m3.subrange(dst as int, dst + n));
                                    assert forall|i: int| f <= i < f + 8 implies #[trigger] m4[i] == m3[i] by {}
                                    crate::cursor::lemma_u64_round_trip(m2, f as int, dst);
                                    lemma_u64_at_same(m3, m4, f as int);
                                }
                            }
                        }
                    }
                },
            }
            Ok(())
        },
    }
}

/// The cursor of the `i`-th read frame of `s`.
pub open spec fn rptr(m: Seq<u8>, s: Shadowstack, i: int) -> int {
    u64_at(m, s.frame_addr(i)) as int
}

/// The datatype of the `i`-th read frame of `s`.
pub open spec fn rdt(m: Seq<u8>, s: Shadowstack, i: int) -> Datatype {
    frame_datatype_at(m, s.frame_addr(i))
}

/// The size of the plain value of the `i`-th read frame.
pub open spec fn rsize(t: Map<Datatype, DatatypeSpec>, m: Seq<u8>, s: Shadowstack, i: int) -> int {
    plain_size(t, m, rdt(m, s, i), rptr(m, s, i), m.len() as nat)->Some_0
}

/// Where the copy of the `i`-th read frame's value goes: the `i`-th fresh chunk.
pub open spec fn rchunk(nu: Nursery, i: int) -> int {
    nu.alloc_ptr + i * CHUNK_SIZE
}

/// The `i`-th read frame holds a plain packed value that fits a chunk, with
/// room for a forwarding pointer after it, and its source meets neither the
/// stack nor the chunks that will be taken.
pub open spec fn reader_ok(
    t: Map<Datatype, DatatypeSpec>,
    m: Seq<u8>,
    s: Shadowstack,
    nu: Nursery,
    i: int,
) -> bool {
    let p = rptr(m, s, i);
    let dt = rdt(m, s, i);
    let n = rsize(t, m, s, i);
    &&& t.contains_key(dt)
    &&& t[dt] is Packed
    &&& plain_size(t, m, dt, p, m.len() as nat) is Some
    &&& n + CONSTRUCTOR_RESERVE <= CHUNK_SIZE
    &&& in_range(m.len() as int, p + n, 9)
    &&& apart(p, n + 9, s.start as int, s.alloc_ptr - s.start)
    &&& apart(p, n + 9, nu.alloc_ptr as int, s.len() * CHUNK_SIZE)
}

/// Every read frame holds a plain packed value; the stack, the sources and
/// the chunks that evacuation takes lie in memory and apart from each other.
pub open spec fn readers_plain(t: Map<Datatype, DatatypeSpec>, m: Seq<u8>, s: Shadowstack, nu: Nursery) -> bool {
    &&& s.wf()
    &&& nu.wf()
    &&& s.len() * CHUNK_SIZE <= nu.space()
    &&& in_range(m.len() as int, s.start as int, s.alloc_ptr - s.start)
    &&& in_range(m.len() as int, nu.alloc_ptr as int, s.len() * CHUNK_SIZE)
    &&& apart(s.start as int, s.alloc_ptr - s.start, nu.alloc_ptr as int, s.len() * CHUNK_SIZE)
    &&& forall|i: int| 0 <= i < s.len() ==> #[trigger] reader_ok(t, m, s, nu, i)
    &&& forall|i: int, j: int|
        0 <= i < s.len() && 0 <= j < s.len() && i != j ==> apart(
            rptr(m, s, i),
            #[trigger] rsize(t, m, s, i) + 9,
            rptr(m, s, j),
            #[trigger] rsize(t, m, s, j) + 9,
        )
}

/// The `i`-th read frame points at its chunk, which repeats its value.
pub open spec fn reader_done(
    t: Map<Datatype, DatatypeSpec>,
    m0: Seq<u8>,
    m: Seq<u8>,
    s: Shadowstack,
    nu: Nursery,
    i: int,
) -> bool {
    &&& u64_at(m, s.frame_addr(i)) == rchunk(nu, i)
    &&& m.subrange(rchunk(nu, i), rchunk(nu, i) + rsize(t, m0, s, i)) == m0.subrange(
        rptr(m0, s, i),
        rptr(m0, s, i) + rsize(t, m0, s, i),
    )
}

/// The `j`-th read frame and the source of its value are as in `m0`.
pub open spec fn reader_kept(
    t: Map<Datatype, DatatypeSpec>,
    m0: Seq<u8>,
    m: Seq<u8>,
    s: Shadowstack,
    j: int,
) -> bool {
    &&& forall|b: int|
        s.frame_addr(j) <= b < s.frame_addr(j) + FRAME_SIZE ==> #[trigger] m[b] == m0[b]
    &&& forall|b: int|
        rptr(m0, s, j) <= b < rptr(m0, s, j) + rsize(t, m0, s, j) + 9 ==> #[trigger] m[b] == m0[b]
}

/// The read frames of `trace[0]` were evacuated oldest first: each state of
/// `trace` follows from the one before by a successful step on the next
/// frame. The run ends in `rt1` with result `r`: after every frame when it
/// succeeded, else after a failing step on the first frame not done.
pub open spec fn readers_trace(
    tbl: InfoTable,
    trace: Seq<Runtime>,
    rt1: Runtime,
    r: Result<(), RtsError>,
) -> bool {
    let s = trace[0].read_stack;
    let k = trace.len() - 1;
    &&& 1 <= trace.len() <= s.len() + 1
    &&& forall|i: int|
        0 <= i < k ==> #[trigger] reader_step(
            tbl,
            trace[i],
            trace[i + 1],
            s.frame_addr(i) as u64,
            Ok(()),
        )
    &&& r is Ok ==> k == s.len() && rt1 == trace[k]
    &&& r is Err ==> k < s.len() && reader_step(tbl, trace[k], rt1, s.frame_addr(k) as u64, r)
}

/// Evacuates the value of every read frame, oldest first.
#[verifier::rlimit(100)]
pub fn copy_readers(tbl: &InfoTable, rt: &mut Runtime) -> (r: Result<(), RtsError>)
    requires
        old(rt).nursery.wf(),
        old(rt).read_stack.wf(),
    ensures
        same_frame(*old(rt), *final(rt)),
        old(rt).read_stack.len() == 0 ==> r is Ok && *final(rt) == *old(rt),
        // All frames, whatever they hold.
        (r is Ok) == (readers_spec(table_of(tbl@), cstate(*old(rt)), old(rt).read_stack, 0).0 is Some),
        cstate(*final(rt)) == readers_spec(table_of(tbl@), cstate(*old(rt)), old(rt).read_stack, 0).1,
        // Frame by frame, what `copy_reader` states.
        exists|trace: Seq<Runtime>|
            trace[0] == *old(rt) && #[trigger] readers_trace(*tbl, trace, *final(rt), r),
        // Frames of plain values, all apart: each frame ends up pointing at
        // its own fresh chunk, taken in stack order, holding its value's bytes.
        readers_plain(table_of(tbl@), old(rt).mem@, old(rt).read_stack, old(rt).nursery) ==> r is Ok
            && final(rt).nursery == (Nursery {
            alloc_ptr: rchunk(old(rt).nursery, old(rt).read_stack.len()) as u64,
            ..old(rt).nursery
        }) && forall|i: int|
            0 <= i < old(rt).read_stack.len() ==> #[trigger] reader_done(
                table_of(tbl@),
                old(rt).mem@,
                final(rt).mem@,
                old(rt).read_stack,
                old(rt).nursery,
                i,
            ),
{
    let ghost rt0 = *rt;
    let mut it = ShadowstackIter::new(&rt.read_stack);
    let ghost s = rt.read_stack;
    let ghost t = table_of(tbl@);
    let ghost m0 = rt.mem@;
    let ghost nu0 = rt.nursery;
    let ghost rp = readers_plain(t, m0, s, nu0);
    let mut k: u64 = 0;
    let ghost mut trace: Seq<Runtime> = seq![rt0];
    while it.run_ptr < it.end_ptr
        invariant
            rt0 == *old(rt),
            trace.len() == k + 1,
            t == table_of(tbl@),
            readers_spec(t, cstate(*rt), s, k as int) == readers_spec(t, cstate(rt0), s, 0),
            trace[0] == rt0,
            trace[k as int] == *rt,
            forall|i: int|
                0 <= i < k ==> #[trigger] reader_step(
                    *tbl,
                    trace[i],
                    trace[i + 1],
                    s.frame_addr(i) as u64,
                    Ok(()),
                ),
            s == rt0.read_stack,
            s.wf(),
            it.end_ptr == s.alloc_ptr,
            it.run_ptr == s.start + k * FRAME_SIZE,
            k <= s.len(),
            same_frame(rt0, *rt),
            s.len() == 0 ==> *rt == rt0,
            t == table_of(tbl@),
            m0 == rt0.mem@,
            nu0 == rt0.nursery,
            rp == readers_plain(t, m0, s, nu0),
            rp ==> rt.nursery == (Nursery { alloc_ptr: rchunk(nu0, k as int) as u64, ..nu0 }),
            rp ==> forall|i: int| 0 <= i < k ==> #[trigger] reader_done(t, m0, rt.mem@, s, nu0, i),
            rp ==> forall|j: int| k <= j < s.len() ==> #[trigger] reader_kept(t, m0, rt.mem@, s, j),
        decreases it.end_ptr - it.run_ptr,
    {
        assert(it.run_ptr + FRAME_SIZE <= it.end_ptr && k < s.len()) by (nonlinear_arith)
            requires
                it.run_ptr < it.end_ptr,
                it.run_ptr == s.start + k * 12,
                (s.alloc_ptr - s.start) % 12 == 0,
                it.end_ptr == s.alloc_ptr,
                s.start <= s.alloc_ptr,
                FRAME_SIZE == 12,
        ;
        let f = match it.next() {
            Some(f) => f,
            None => {
                assert(false);
                return Err(out_of_range());
            },
        };
        let ghost before = *rt;
        proof {
            if rp {
                lemma_reader_pre(t, m0, before.mem@, s, nu0, before.nursery, k as int);
            }
        }
        let res = copy_reader(tbl, rt, f);
        proof {
            if rp {
                assert(res is Ok);
                lemma_reader_step(t, m0, before.mem@, rt.mem@, s, nu0, k as int);
                lemma_chunk_arith(nu0, s.len(), k as int, k as int);
            }
        }
        if res.is_err() {
            proof {
                assert(s.frame_addr(k as int) as u64 == f);
                assert(readers_trace(*tbl, trace, *rt, res));
            }
            return res;
        }
        proof {
            assert(s.frame_addr(k as int) as u64 == f);
            trace = trace.push(*rt);
        }
        k = k + 1;
    }
    proof {
        assert(k == s.len()) by (nonlinear_arith)
            requires
                it.run_ptr >= it.end_ptr,
                it.run_ptr == s.start + k * 12,
                it.end_ptr == s.alloc_ptr,
                k <= s.len(),
                s.len() == (s.alloc_ptr - s.start) / 12,
                s.start <= s.alloc_ptr,
        ;
        assert(readers_trace(*tbl, trace, *rt, Ok(())));
    }
    Ok(())
}

/// The nursery once the allocator was pointed at the whole to-half.
pub open spec fn switched(nu: Nursery) -> Nursery {
    Nursery { alloc_ptr: nu.to_space_start, alloc_ptr_end: nu.to_space_end, ..nu }
}

/// The copying state once the allocator was pointed at to-space and every
/// write cursor of `rt` was cauterized.
pub open spec fn minor_start(rt: Runtime) -> CopyState {
    CopyState {
        mem: cauterized(rt.mem@, rt.write_stack, rt.write_stack.len() as nat),
        nursery: switched(rt.nursery),
    }
}

/// `rt1` is `rt0` with the allocator pointed at to-space and every write
/// cursor cauterized.
pub open spec fn cauterized_state(rt0: Runtime, rt1: Runtime) -> bool {
    &&& rt1.mem@ == cauterized(rt0.mem@, rt0.write_stack, rt0.write_stack.len() as nat)
    &&& rt1.nursery == switched(rt0.nursery)
    &&& rt1.read_stack == rt0.read_stack
    &&& rt1.write_stack == rt0.write_stack
    &&& rt1.shadowstack_initialized == rt0.shadowstack_initialized
    &&& rt1.promotions == rt0.promotions
}

/// Copies everything reachable from the shadow stacks out of from-space:
/// switches the allocator to to-space, cauterizes the write cursors, then
/// evacuates the read cursors.
pub fn copy_to_tospace(tbl: &InfoTable, rt: &mut Runtime) -> (r: Result<(), RtsError>)
    requires
        old(rt).nursery.wf(),
        old(rt).read_stack.wf(),
        old(rt).write_stack.wf(),
    ensures
        final(rt).mem@.len() == old(rt).mem@.len(),
        final(rt).nursery.wf(),
        final(rt).nursery.alloc_ptr >= old(rt).nursery.to_space_start,
        final(rt).nursery.alloc_ptr_end == old(rt).nursery.to_space_end,
        final(rt).nursery.to_space_start == old(rt).nursery.to_space_start,
        final(rt).nursery.to_space_end == old(rt).nursery.to_space_end,
        final(rt).nursery.from_space_start == old(rt).nursery.from_space_start,
        final(rt).nursery.initialized == old(rt).nursery.initialized,
        // Cauterizing, then evacuating every read frame, whatever they hold.
        cauterize_fits(old(rt).mem@, old(rt).write_stack, old(rt).write_stack.len() as nat) ==> (r
            is Ok) == (readers_spec(table_of(tbl@), minor_start(*old(rt)), old(rt).read_stack, 0).0 is Some)
            && cstate(*final(rt)) == readers_spec(
            table_of(tbl@),
            minor_start(*old(rt)),
            old(rt).read_stack,
            0,
        ).1,
        // After cauterizing, the read frames are evacuated as `copy_readers` states.
        cauterize_fits(old(rt).mem@, old(rt).write_stack, old(rt).write_stack.len() as nat)
            ==> exists|trace: Seq<Runtime>|
            cauterized_state(*old(rt), trace[0]) && #[trigger] readers_trace(
                *tbl,
                trace,
                *final(rt),
                r,
            ),
        final(rt).read_stack == old(rt).read_stack,
        final(rt).write_stack == old(rt).write_stack,
        final(rt).shadowstack_initialized == old(rt).shadowstack_initialized,
        final(rt).promotions == old(rt).promotions,
        !cauterize_fits(old(rt).mem@, old(rt).write_stack, old(rt).write_stack.len() as nat)
            ==> r is Err,
        old(rt).read_stack.len() == 0 && cauterize_fits(
            old(rt).mem@,
            old(rt).write_stack,
            old(rt).write_stack.len() as nat,
        ) ==> r is Ok && final(rt).mem@ == cauterized(
            old(rt).mem@,
            old(rt).write_stack,
            old(rt).write_stack.len() as nat,
        ) && final(rt).nursery.alloc_ptr == old(rt).nursery.to_space_start,
        // With no read cursor, and the write cursors' markers apart, every
        // write frame still points at its cursor, where CAUTERIZED and the
        // frame's address now stand.
        old(rt).read_stack.len() == 0 && writers_apart(old(rt).mem@, old(rt).write_stack) ==> r is Ok
            && writers_marked(old(rt).mem@, final(rt).mem@, old(rt).write_stack),
        // With no write cursor, read frames of plain values each get a copy
        // in to-space.
        old(rt).write_stack.len() == 0 && readers_plain(
            table_of(tbl@),
            old(rt).mem@,
            old(rt).read_stack,
            switched(old(rt).nursery),
        ) ==> r is Ok && forall|i: int|
            0 <= i < old(rt).read_stack.len() ==> #[trigger] reader_done(
                table_of(tbl@),
                old(rt).mem@,
                final(rt).mem@,
                old(rt).read_stack,
                switched(old(rt).nursery),
                i,
            ),
{
    allocator_switch_to_tospace(&mut rt.nursery);
    let ghost m0 = rt.mem@;
    let ghost ws = rt.write_stack;
    proof {
        if writers_apart(m0, ws) {
            lemma_writers_cauterized(m0, ws);
        }
    }
    cauterize_writers(rt)?;
    let ghost mid = *rt;
    let r = copy_readers(tbl, rt);
    proof {
        let tr = choose|tr: Seq<Runtime>| tr[0] == mid && #[trigger] readers_trace(*tbl, tr, *rt, r);
        assert(cauterized_state(*old(rt), tr[0]));
        if rt.read_stack.len() == 0 && writers_apart(m0, ws) {
            assert(r is Ok);
            assert(m0 == old(rt).mem@);
            assert(ws == old(rt).write_stack);
            assert(rt.mem@ == cauterized(m0, ws, ws.len() as nat));
            assert(writers_marked(m0, rt.mem@, ws));
        }
    }
    r
}

/// A minor collection. If the allocator already works in to-space, the data
/// is promoted to the old generation. Otherwise live data is copied to
/// to-space, and promoted when that freed no space.
pub fn collect_minor(tbl: &InfoTable, rt: &mut Runtime) -> (r: Result<(), RtsError>)
    requires
        old(rt).nursery.initialized,
        old(rt).nursery.wf(),
        old(rt).nursery.alloc_ptr < old(rt).nursery.alloc_ptr_end,
        old(rt).shadowstack_initialized,
        old(rt).read_stack.wf(),
        old(rt).read_stack.alloc_ptr < old(rt).read_stack.end,
        old(rt).write_stack.wf(),
        old(rt).write_stack.alloc_ptr < old(rt).write_stack.end,
    ensures
        final(rt).read_stack == old(rt).read_stack,
        final(rt).write_stack == old(rt).write_stack,
        final(rt).mem@.len() == old(rt).mem@.len(),
        final(rt).nursery.wf(),
        final(rt).nursery.from_space_start == old(rt).nursery.from_space_start,
        final(rt).nursery.to_space_start == old(rt).nursery.to_space_start,
        final(rt).nursery.to_space_end == old(rt).nursery.to_space_end,
        final(rt).nursery.initialized == old(rt).nursery.initialized,
        // Cauterizing, then evacuating every read frame, whatever they hold.
        !old(rt).nursery.in_to_space() && cauterize_fits(
            old(rt).mem@,
            old(rt).write_stack,
            old(rt).write_stack.len() as nat,
        ) ==> (r is Ok) == (readers_spec(
            table_of(tbl@),
            minor_start(*old(rt)),
            old(rt).read_stack,
            0,
        ).0 is Some) && final(rt).mem@ == readers_spec(
            table_of(tbl@),
            minor_start(*old(rt)),
            old(rt).read_stack,
            0,
        ).1.mem && final(rt).nursery == readers_spec(
            table_of(tbl@),
            minor_start(*old(rt)),
            old(rt).read_stack,
            0,
        ).1.nursery,
        // A failed collection asks for no promotion.
        r is Err ==> final(rt).promotions == old(rt).promotions,
        // The write cursors are cauterized, then the read frames evacuated as
        // `copy_readers` states.
        !old(rt).nursery.in_to_space() && cauterize_fits(
            old(rt).mem@,
            old(rt).write_stack,
            old(rt).write_stack.len() as nat,
        ) ==> exists|trace: Seq<Runtime>, last: Runtime|
            cauterized_state(*old(rt), trace[0]) && #[trigger] readers_trace(*tbl, trace, last, r)
                && final(rt).mem@ == last.mem@ && final(rt).nursery == last.nursery,
        // Promotion is requested exactly when no space was freed.
        r is Ok ==> final(rt).promotions == if final(rt).nursery.space() == old(rt).nursery.space() {
            bump(old(rt).promotions)
        } else {
            old(rt).promotions
        },
        old(rt).nursery.in_to_space() ==> r is Ok && *final(rt) == (Runtime {
            promotions: bump(old(rt).promotions),
            ..*old(rt)
        }),
        !old(rt).nursery.in_to_space() ==> final(rt).nursery.alloc_ptr_end == old(
            rt,
        ).nursery.to_space_end && final(rt).nursery.alloc_ptr >= old(rt).nursery.to_space_start,
        !old(rt).nursery.in_to_space() && !cauterize_fits(
            old(rt).mem@,
            old(rt).write_stack,
            old(rt).write_stack.len() as nat,
        ) ==> r is Err,
        // With no read cursor, and the write cursors' markers apart, every
        // write frame still points at its cursor, where CAUTERIZED and the
        // frame's address now stand.
        !old(rt).nursery.in_to_space() && old(rt).read_stack.len() == 0
            && writers_apart(old(rt).mem@, old(rt).write_stack) ==> r is Ok
            && writers_marked(old(rt).mem@, final(rt).mem@, old(rt).write_stack),
        // Read cursors move to to-space, onto copies of their values.
        !old(rt).nursery.in_to_space() && old(rt).write_stack.len() == 0 && readers_plain(
            table_of(tbl@),
            old(rt).mem@,
            old(rt).read_stack,
            switched(old(rt).nursery),
        ) ==> r is Ok && forall|i: int|
            0 <= i < old(rt).read_stack.len() ==> #[trigger] reader_done(
                table_of(tbl@),
                old(rt).mem@,
                final(rt).mem@,
                old(rt).read_stack,
                switched(old(rt).nursery),
                i,
            ),
{
    if allocator_in_tospace(&rt.nursery) {
        promote_to_oldgen(rt)
    } else {
        let current_space_avail = allocator_space_available(&rt.nursery);
        let res = copy_to_tospace(tbl, rt);
        let ghost last = *rt;
        let ghost tr = choose|tr: Seq<Runtime>|
            cauterized_state(*old(rt), tr[0]) && #[trigger] readers_trace(*tbl, tr, last, res);
        if res.is_err() {
            proof {
                if cauterize_fits(old(rt).mem@, old(rt).write_stack, old(rt).write_stack.len() as nat) {
                    assert(cauterized_state(*old(rt), tr[0]) && readers_trace(*tbl, tr, last, res));
                }
            }
            return res;
        }
        proof {
            if cauterize_fits(old(rt).mem@, old(rt).write_stack, old(rt).write_stack.len() as nat) {
                assert(cauterized_state(*old(rt), tr[0]) && readers_trace(*tbl, tr, last, Ok(())));
            }
        }
        let new_space_avail = allocator_space_available(&rt.nursery);
        let r = if current_space_avail == new_space_avail {
            promote_to_oldgen(rt)
        } else {
            Ok(())
        };
        proof {
            if cauterize_fits(old(rt).mem@, old(rt).write_stack, old(rt).write_stack.len() as nat) {
                assert(r == Ok::<(), RtsError>(()));
                assert(rt.mem@ == last.mem@ && rt.nursery == last.nursery);
                assert(cauterized_state(*old(rt), tr[0]) && readers_trace(*tbl, tr, last, r));
            }
        }
        r
    }
}

/// The cursor of the `i`-th write frame, as memory `m` holds it.
pub open spec fn site(m: Seq<u8>, s: Shadowstack, i: int) -> int {
    u64_at(m, s.frame_addr(i)) as int
}

/// Every write frame and the nine bytes at its cursor lie in memory, and no
/// cursor's nine bytes meet another's or any frame.
pub open spec fn writers_apart(m: Seq<u8>, s: Shadowstack) -> bool {
    &&& forall|i: int|
        0 <= i < s.len() ==> in_range(m.len() as int, #[trigger] s.frame_addr(i), FRAME_SIZE as int)
    &&& forall|i: int| 0 <= i < s.len() ==> in_range(m.len() as int, #[trigger] site(m, s, i), 9)
    &&& forall|i: int, j: int|
        0 <= i < s.len() && 0 <= j < s.len() && i != j ==> apart(
            #[trigger] site(m, s, i),
            9,
            #[trigger] site(m, s, j),
            9,
        )
    &&& forall|i: int, j: int|
        0 <= i < s.len() && 0 <= j < s.len() ==> apart(
            #[trigger] site(m, s, i),
            9,
            #[trigger] s.frame_addr(j),
            FRAME_SIZE as int,
        )
}

pub(crate) proof fn lemma_u64_at_same(m: Seq<u8>, m2: Seq<u8>, a: int)
    requires
        in_range(m.len() as int, a, 8),
        m2.len() == m.len(),
        forall|i: int| a <= i < a + 8 ==> #[trigger] m2[i] == m[i],
    ensures
        u64_at(m2, a) == u64_at(m, a),
{
    assert(m2[a] == m[a] && m2[a + 1] == m[a + 1] && m2[a + 2] == m[a + 2] && m2[a + 3] == m[a
        + 3]);
    assert(m2[a + 4] == m[a + 4] && m2[a + 5] == m[a + 5] && m2[a + 6] == m[a + 6] && m2[a + 7]
        == m[a + 7]);
}

proof fn lemma_cauterized_prefix(m: Seq<u8>, s: Shadowstack, k: nat)
    requires
        s.wf(),
        k <= s.len(),
        writers_apart(m, s),
    ensures
        cauterize_fits(m, s, k),
        cauterized(m, s, k).len() == m.len(),
        forall|j: int, b: int|
            #![trigger cauterized(m, s, k)[b], s.frame_addr(j)]
            0 <= j < s.len() && s.frame_addr(j) <= b < s.frame_addr(j) + FRAME_SIZE ==> cauterized(
                m,
                s,
                k,
            )[b] == m[b],
        forall|i: int|
            0 <= i < k ==> #[trigger] cauterized(m, s, k).subrange(site(m, s, i), site(m, s, i) + 9)
                == tagged(CAUTERIZED_TAG, s.frame_addr(i) as u64),
    decreases k,
{
    lemma_cauterized_len(m, s, k);
    if k > 0 {
        let k1 = (k - 1) as nat;
        lemma_cauterized_prefix(m, s, k1);
        let m1 = cauterized(m, s, k1);
        let f = s.frame_addr(k1 as int);
        assert(0 <= k1 < s.len());
        assert(in_range(m.len() as int, f, FRAME_SIZE as int));
        assert(in_range(m.len() as int, site(m, s, k1 as int), 9));
        assert forall|i: int| f <= i < f + 8 implies #[trigger] m1[i] == m[i] by {
            assert(s.frame_addr(k1 as int) <= i < s.frame_addr(k1 as int) + FRAME_SIZE);
            assert(m1[i] == m[i]);
        }
        lemma_u64_at_same(m, m1, f);
        let p = site(m, s, k1 as int);
        assert(u64_at(m1, f) as int == p);
        let m2 = cauterized(m, s, k);
        assert(m2 == overwrite(m1, p, tagged(CAUTERIZED_TAG, f as u64)));
        assert forall|j: int, b: int|
            #![trigger m2[b], s.frame_addr(j)]
            0 <= j < s.len() && s.frame_addr(j) <= b < s.frame_addr(j) + FRAME_SIZE implies m2[b]
                == m[b] by {
            assert(in_range(m.len() as int, s.frame_addr(j), FRAME_SIZE as int));
            assert(apart(site(m, s, k1 as int), 9, s.frame_addr(j), FRAME_SIZE as int));
            assert(m1[b] == m[b]);
        }
        assert forall|i: int| 0 <= i < k implies #[trigger] m2.subrange(site(m, s, i), site(m, s, i) + 9)
            == tagged(CAUTERIZED_TAG, s.frame_addr(i) as u64) by {
            if i < k1 {
                assert(apart(site(m, s, i), 9, site(m, s, k1 as int), 9));
                assert(m1.subrange(site(m, s, i), site(m, s, i) + 9) == tagged(CAUTERIZED_TAG, s.frame_addr(i) as u64));
                assert(m2.subrange(site(m, s, i), site(m, s, i) + 9) =~= m1.subrange(site(m, s, i), site(m, s, i) + 9));
            } else {
                assert(m2.subrange(p, p + 9) =~= tagged(CAUTERIZED_TAG, f as u64));
            }
        }
    }
}

/// Every write frame of `s` points in `m` where it pointed in `m0`, and
/// there stand CAUTERIZED and the frame's own address.
pub open spec fn writers_marked(m0: Seq<u8>, m: Seq<u8>, s: Shadowstack) -> bool {
    forall|i: int|
        0 <= i < s.len() ==> u64_at(m, s.frame_addr(i)) == u64_at(m0, s.frame_addr(i))
            && #[trigger] m.subrange(site(m0, s, i), site(m0, s, i) + 9) == tagged(
            CAUTERIZED_TAG,
            s.frame_addr(i) as u64,
        )
}

/// When no write cursor's marker meets another's or a frame, cauterizing the
/// write stack succeeds; afterwards every frame still points at its cursor,
/// and there stand CAUTERIZED and the frame's own address.
pub proof fn lemma_writers_cauterized(m: Seq<u8>, s: Shadowstack)
    requires
        s.wf(),
        writers_apart(m, s),
    ensures
        cauterize_fits(m, s, s.len() as nat),
        writers_marked(m, cauterized(m, s, s.len() as nat), s),
{
    let k = s.len() as nat;
    lemma_cauterized_prefix(m, s, k);
    let mc = cauterized(m, s, k);
    assert forall|i: int| 0 <= i < s.len() implies u64_at(mc, s.frame_addr(i)) == u64_at(m, s.frame_addr(i))
        && #[trigger] mc.subrange(site(m, s, i), site(m, s, i) + 9) == tagged(CAUTERIZED_TAG, s.frame_addr(i) as u64) by {
        let f = s.frame_addr(i);
        assert(in_range(m.len() as int, f, FRAME_SIZE as int));
        assert(in_range(m.len() as int, site(m, s, i), 9));
        assert forall|b: int| f <= b < f + 8 implies #[trigger] mc[b] == m[b] by {
            assert(mc[b] == m[b]);
        }
        lemma_u64_at_same(m, mc, f);
    }
}

proof fn lemma_slot_arith(s: Shadowstack, i: int, j: int)
    requires
        s.wf(),
        0 <= i < s.len(),
        0 <= j < s.len(),
    ensures
        s.start <= s.frame_addr(i),
        s.frame_addr(i) + FRAME_SIZE <= s.alloc_ptr,
        i < j ==> s.frame_addr(i) + FRAME_SIZE <= s.frame_addr(j),
{
    assert(s.frame_addr(i) + FRAME_SIZE <= s.alloc_ptr) by (nonlinear_arith)
        requires
            0 <= i < (s.alloc_ptr - s.start) / 12,
            s.frame_addr(i) == s.start + i * 12,
            FRAME_SIZE == 12,
            s.start <= s.alloc_ptr,
    ;
    assert(s.start <= s.frame_addr(i)) by (nonlinear_arith)
        requires
            0 <= i,
            s.frame_addr(i) == s.start + i * 12,
    ;
    assert(i < j ==> s.frame_addr(i) + FRAME_SIZE <= s.frame_addr(j)) by (nonlinear_arith)
        requires
            s.frame_addr(i) == s.start + i * 12,
            s.frame_addr(j) == s.start + j * 12,
            FRAME_SIZE == 12,
    ;
}

proof fn lemma_chunk_arith(nu: Nursery, len: int, i: int, j: int)
    requires
        0 <= i < len,
        0 <= j < len,
    ensures
        nu.alloc_ptr <= rchunk(nu, i),
        rchunk(nu, i) + CHUNK_SIZE <= nu.alloc_ptr + len * CHUNK_SIZE,
        i < j ==> rchunk(nu, i) + CHUNK_SIZE <= rchunk(nu, j),
{
    assert(nu.alloc_ptr <= rchunk(nu, i) && rchunk(nu, i) + CHUNK_SIZE <= nu.alloc_ptr + len
        * CHUNK_SIZE) by (nonlinear_arith)
        requires
            0 <= i < len,
            rchunk(nu, i) == nu.alloc_ptr + i * 1024,
            CHUNK_SIZE == 1024,
    ;
    assert(i < j ==> rchunk(nu, i) + CHUNK_SIZE <= rchunk(nu, j)) by (nonlinear_arith)
        requires
            rchunk(nu, i) == nu.alloc_ptr + i * 1024,
            rchunk(nu, j) == nu.alloc_ptr + j * 1024,
            CHUNK_SIZE == 1024,
    ;
}

proof fn lemma_frame_read_same(m0: Seq<u8>, m: Seq<u8>, f: int)
    requires
        in_range(m0.len() as int, f, FRAME_SIZE as int),
        m.len() == m0.len(),
        forall|b: int| f <= b < f + FRAME_SIZE ==> #[trigger] m[b] == m0[b],
    ensures
        u64_at(m, f) == u64_at(m0, f),
        frame_datatype_at(m, f) == frame_datatype_at(m0, f),
{
    lemma_u64_at_same(m0, m, f);
    assert(m[f + 8] == m0[f + 8] && m[f + 9] == m0[f + 9] && m[f + 10] == m0[f + 10] && m[f + 11]
        == m0[f + 11]);
}

/// Before the `k`-th read frame is evacuated, what `copy_reader` needs of it
/// holds in the current memory.
proof fn lemma_reader_pre(
    t: Map<Datatype, DatatypeSpec>,
    m0: Seq<u8>,
    m: Seq<u8>,
    s: Shadowstack,
    nu0: Nursery,
    nu: Nursery,
    k: int,
)
    requires
        readers_plain(t, m0, s, nu0),
        0 <= k < s.len(),
        m.len() == m0.len(),
        reader_kept(t, m0, m, s, k),
        nu == (Nursery { alloc_ptr: rchunk(nu0, k) as u64, ..nu0 }),
    ensures
        in_range(m.len() as int, s.frame_addr(k), FRAME_SIZE as int),
        u64_at(m, s.frame_addr(k)) == rptr(m0, s, k),
        frame_datatype_at(m, s.frame_addr(k)) == rdt(m0, s, k),
        t.contains_key(rdt(m0, s, k)),
        t[rdt(m0, s, k)] is Packed,
        plain_size(t, m, rdt(m0, s, k), rptr(m0, s, k), m.len() as nat) == Some(rsize(t, m0, s, k)),
        readers_plain_fits(nu, m.len() as int, s.frame_addr(k), rptr(m0, s, k), rsize(t, m0, s, k)),
        nu.wf(),
{
    let f = s.frame_addr(k);
    let p = rptr(m0, s, k);
    let n = rsize(t, m0, s, k);
    let len = s.len();
    assert(reader_ok(t, m0, s, nu0, k));
    lemma_slot_arith(s, k, k);
    lemma_chunk_arith(nu0, len, k, k);
    lemma_frame_read_same(m0, m, f);
    lemma_plain_bounds(t, m0, rdt(m0, s, k), p, m0.len() as nat);
    assert forall|b: int| p <= b < p + n implies #[trigger] m[b] == m0[b] by {}
    crate::plain::lemma_plain_frame(t, m0, m, rdt(m0, s, k), p, m0.len() as nat);
    assert((len - k) * CHUNK_SIZE >= CHUNK_SIZE) by (nonlinear_arith)
        requires
            k < len,
            CHUNK_SIZE == 1024,
    ;
    assert(nu0.space() - k * CHUNK_SIZE >= (len - k) * CHUNK_SIZE) by (nonlinear_arith)
        requires
            len * CHUNK_SIZE <= nu0.space(),
    ;
}

/// Evacuating the `k`-th read frame keeps what was done for the earlier ones
/// and what is needed of the later ones.
proof fn lemma_reader_step(
    t: Map<Datatype, DatatypeSpec>,
    m0: Seq<u8>,
    m: Seq<u8>,
    m2: Seq<u8>,
    s: Shadowstack,
    nu0: Nursery,
    k: int,
)
    requires
        readers_plain(t, m0, s, nu0),
        0 <= k < s.len(),
        m.len() == m0.len(),
        forall|i: int| 0 <= i < k ==> #[trigger] reader_done(t, m0, m, s, nu0, i),
        forall|j: int| k <= j < s.len() ==> #[trigger] reader_kept(t, m0, m, s, j),
        m2.len() == m.len(),
        u64_at(m2, s.frame_addr(k)) == rchunk(nu0, k),
        m2.subrange(rchunk(nu0, k), rchunk(nu0, k) + rsize(t, m0, s, k)) == m.subrange(
            rptr(m0, s, k),
            rptr(m0, s, k) + rsize(t, m0, s, k),
        ),
        forall|i: int|
            0 <= i < m.len() && !(rptr(m0, s, k) <= i < rptr(m0, s, k) + rsize(t, m0, s, k) + 9)
                && !(rchunk(nu0, k) <= i < rchunk(nu0, k) + rsize(t, m0, s, k)) && !(s.frame_addr(k)
                <= i < s.frame_addr(k) + 8) ==> #[trigger] m2[i] == m[i],
    ensures
        forall|i: int| 0 <= i < k + 1 ==> #[trigger] reader_done(t, m0, m2, s, nu0, i),
        forall|j: int| k + 1 <= j < s.len() ==> #[trigger] reader_kept(t, m0, m2, s, j),
{
    let len = s.len();
    let pk = rptr(m0, s, k);
    let nk = rsize(t, m0, s, k);
    let ak = rchunk(nu0, k);
    let fk = s.frame_addr(k);
    assert(reader_ok(t, m0, s, nu0, k));
    lemma_plain_bounds(t, m0, rdt(m0, s, k), pk, m0.len() as nat);
    lemma_slot_arith(s, k, k);
    lemma_chunk_arith(nu0, len, k, k);
    assert(reader_kept(t, m0, m, s, k));
    assert(m.subrange(pk, pk + nk) =~= m0.subrange(pk, pk + nk));
    assert forall|i: int| 0 <= i < k + 1 implies #[trigger] reader_done(t, m0, m2, s, nu0, i) by {
        if i < k {
            assert(reader_done(t, m0, m, s, nu0, i));
            assert(reader_ok(t, m0, s, nu0, i));
            let fi = s.frame_addr(i);
            let ai = rchunk(nu0, i);
            let ni = rsize(t, m0, s, i);
            lemma_plain_bounds(t, m0, rdt(m0, s, i), rptr(m0, s, i), m0.len() as nat);
            lemma_slot_arith(s, i, k);
            lemma_chunk_arith(nu0, len, i, k);
            assert forall|b: int| fi <= b < fi + 8 implies #[trigger] m2[b] == m[b] by {}
            lemma_u64_at_same(m, m2, fi);
            assert forall|b: int| ai <= b < ai + ni implies #[trigger] m2[b] == m[b] by {}
            assert(m2.subrange(ai, ai + ni) =~= m.subrange(ai, ai + ni));
        }
    }
    assert forall|j: int| k + 1 <= j < len implies #[trigger] reader_kept(t, m0, m2, s, j) by {
        assert(reader_kept(t, m0, m, s, j));
        assert(reader_ok(t, m0, s, nu0, j));
        lemma_plain_bounds(t, m0, rdt(m0, s, j), rptr(m0, s, j), m0.len() as nat);
        lemma_slot_arith(s, k, j);
        lemma_slot_arith(s, j, j);
        assert(apart(pk, nk + 9, rptr(m0, s, j), rsize(t, m0, s, j) + 9));
        let fj = s.frame_addr(j);
        assert forall|b: int| fj <= b < fj + FRAME_SIZE implies #[trigger] m2[b] == m0[b] by {
            assert(m[b] == m0[b]);
        }
        assert forall|b: int| rptr(m0, s, j) <= b < rptr(m0, s, j) + rsize(t, m0, s, j) + 9 implies #[trigger] m2[b] == m0[b] by {
            assert(m[b] == m0[b]);
        }
    }
}

/// After the read frames of plain values were evacuated, each frame points
/// into to-space, and decoding from there with the frame's datatype gives a
/// plain value of the same size and the same bytes as at its old place.
pub proof fn lemma_read_cursor_migrated(
    t: Map<Datatype, DatatypeSpec>,
    m0: Seq<u8>,
    m: Seq<u8>,
    s: Shadowstack,
    nu: Nursery,
    i: int,
)
    requires
        nu.wf(),
        readers_plain(t, m0, s, switched(nu)),
        m.len() == m0.len(),
        0 <= i < s.len(),
        reader_done(t, m0, m, s, switched(nu), i),
    ensures
        nu.to_space_start <= u64_at(m, s.frame_addr(i)) < nu.to_space_end,
        plain_size(t, m, rdt(m0, s, i), u64_at(m, s.frame_addr(i)) as int, m.len() as nat) == plain_size(
            t,
            m0,
            rdt(m0, s, i),
            rptr(m0, s, i),
            m0.len() as nat,
        ),
        m.subrange(u64_at(m, s.frame_addr(i)) as int, u64_at(m, s.frame_addr(i)) + rsize(t, m0, s, i))
            == m0.subrange(rptr(m0, s, i), rptr(m0, s, i) + rsize(t, m0, s, i)),
{
    let sw = switched(nu);
    assert(readers_plain(t, m0, s, sw));
    assert(reader_ok(t, m0, s, sw, i));
    lemma_chunk_arith(sw, s.len(), i, i);
    lemma_plain_bounds(t, m0, rdt(m0, s, i), rptr(m0, s, i), m0.len() as nat);
    crate::plain::lemma_plain_copy_same_value(
        t,
        m0,
        m,
        rdt(m0, s, i),
        rptr(m0, s, i),
        rchunk(sw, i),
        m0.len() as nat,
    );
}

} // verus!
