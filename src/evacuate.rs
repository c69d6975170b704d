//! The copying engine: evacuates one packed value, following the info
//! table and the in-band collector tags.

use vstd::prelude::*;
use crate::error::{RtsError, gc_error};
use crate::message::{gc_error_with, decimal};
use crate::cursor::{
    read_u8, read_u64, write_u8, write_u64, copy_bytes, fill_bytes, u64_at, u64_bytes, overwrite,
    in_range, out_of_range,
};
use crate::info_table::{
    Datatype, PackedTag, InfoTable, DatatypeInfo, DataconSpec, DatatypeSpec, REDIRECTION_TAG,
    INDIRECTION_TAG, CAUTERIZED_TAG, COPIED_TO_TAG, COPIED_TAG,
};
use crate::gc::{
    CopyState, cstate, bounds_spec, Runtime, tagged, write_tagged, has_room, same_frame, check_bounds, CONSTRUCTOR_RESERVE,
    INDIRECTION_RESERVE, bounds_ok, bounds_dst, bounds_end, bounds_mem, bounds_rt,
};
use crate::plain::{
    plain_size, plain_fields_size, plain_tag, changed_only, plain_fits, apart, lemma_plain_bounds,
    lemma_plain_fields_bounds, lemma_plain_frame, lemma_plain_fields_frame, lemma_same_bytes,
    fwd_image, fields_image, lemma_image, lemma_fields_image,
};

verus! {

/// The bytes left over the `1 + sb` bytes of an evacuated constructor header:
/// a forwarding pointer to `d` where it fits, then COPIED filler.
pub open spec fn forwarding(sb: int, d: u64) -> Seq<u8> {
    if sb >= 8 {
        tagged(COPIED_TO_TAG, d) + Seq::new((sb - 8) as nat, |i: int| COPIED_TAG)
    } else {
        Seq::new((sb + 1) as nat, |i: int| COPIED_TAG)
    }
}

/// Memory after the header of a constructor (tag `tag`, `sb` scalar bytes) at
/// `src` was copied to `d` and forwarding metadata was left at `src`.
pub open spec fn header_moved(m: Seq<u8>, src: int, tag: u8, sb: int, d: u64) -> Seq<u8> {
    let m1 = m.update(d as int, tag);
    let m2 = overwrite(m1, d + 1, m1.subrange(src + 1, src + 1 + sb));
    overwrite(m2, src, forwarding(sb, d))
}

/// The header of the constructor that `m0` holds at `src` is covered in `m`
/// by its forwarding bytes to `d`: COPIED_TO and `d` where the scalar prefix
/// has room, COPIED filler otherwise.
pub open spec fn header_forwarded(
    tbl: InfoTable,
    dt: Datatype,
    m0: Seq<u8>,
    m: Seq<u8>,
    src: int,
    d: u64,
) -> bool {
    let sb = dcon(tbl, dt, m0[src]).scalar_bytes as int;
    m.subrange(src, src + 1 + sb) == forwarding(sb, d)
}

/// `p` holds the first COPIED_TO tag after `src`.
pub open spec fn first_copied_to(m: Seq<u8>, src: int, p: int) -> bool {
    &&& src < p < m.len()
    &&& m[p] == COPIED_TO_TAG
    &&& forall|q: int| src < q < p ==> m[q] != COPIED_TO_TAG
}

/// The entries of a table: none before it is initialized.
pub open spec fn table_of(v: Option<Map<Datatype, DatatypeSpec>>) -> Map<Datatype, DatatypeSpec> {
    match v {
        Some(t) => t,
        None => Map::empty(),
    }
}

/// The entry of `dt` in the table.
pub open spec fn entry(tbl: InfoTable, dt: Datatype) -> DatatypeSpec {
    table_of(tbl@)[dt]
}

/// `dt` is a registered packed type and `src` holds a tag byte.
pub open spec fn packed_at(tbl: InfoTable, rt: Runtime, dt: Datatype, src: u64) -> bool {
    &&& table_of(tbl@).contains_key(dt)
    &&& entry(tbl, dt) is Packed
    &&& in_range(rt.mem@.len() as int, src as int, 1)
}

/// The layout of constructor `tag` of `dt`.
pub open spec fn dcon(tbl: InfoTable, dt: Datatype, tag: PackedTag) -> DataconSpec {
    entry(tbl, dt)->Packed_0[tag]
}

/// Memory after the copier followed `k` redirections from `pos`, leaving a
/// forwarding pointer to `dst` over each link.
pub open spec fn chain_mem(m: Seq<u8>, pos: int, dst: u64, k: nat) -> Seq<u8>
    decreases k,
{
    if k == 0 || !in_range(m.len() as int, pos, 9) {
        m
    } else {
        chain_mem(overwrite(m, pos, tagged(COPIED_TO_TAG, dst)), u64_at(m, pos + 1) as int, dst, (k - 1) as nat)
    }
}

/// Where following `k` redirections from `pos` ends, and the size of the
/// plain value of type `dt` found there, in the memory the copier then sees.
pub open spec fn chain_plain(
    t: Map<Datatype, DatatypeSpec>,
    m: Seq<u8>,
    dt: Datatype,
    pos: int,
    dst: u64,
    k: nat,
    depth: nat,
) -> Option<(int, int)>
    decreases k,
{
    if k == 0 {
        match plain_size(t, m, dt, pos, depth) {
            Some(n) => Some((pos, n)),
            None => None,
        }
    } else if depth > 0 && t.contains_key(dt) && t[dt] is Packed && in_range(m.len() as int, pos, 9)
        && m[pos] == REDIRECTION_TAG {
        chain_plain(
            t,
            overwrite(m, pos, tagged(COPIED_TO_TAG, dst)),
            dt,
            u64_at(m, pos + 1) as int,
            dst,
            (k - 1) as nat,
            (depth - 1) as nat,
        )
    } else {
        None
    }
}

/// A copy's outcome: `None` for an error, else the source end, destination
/// end, destination chunk end and the tag met.
pub type CopyOut = Option<(u64, u64, u64, Option<PackedTag>)>;

/// The whole evacuation of the value of type `dt` at `src` to `dst`, as
/// `copy_packed` performs it: its outcome and the state it leaves, also on
/// an error.
pub open spec fn copy_spec(
    t: Map<Datatype, DatatypeSpec>,
    st: CopyState,
    dt: Datatype,
    src: u64,
    dst: u64,
    dst_end: u64,
    depth: nat,
) -> (CopyOut, CopyState)
    decreases depth, 2nat, 0nat,
{
    let m = st.mem;
    let len = m.len() as int;
    if depth == 0 || !t.contains_key(dt) {
        (None, st)
    } else {
        match t[dt] {
            DatatypeSpec::Scalar(w) => if in_range(len, src as int, w as int) && in_range(
                len,
                dst as int,
                w as int,
            ) {
                (
                    Some(((src + w) as u64, (dst + w) as u64, dst_end, None)),
                    CopyState { mem: overwrite(m, dst as int, m.subrange(src as int, src + w)), ..st },
                )
            } else {
                (None, st)
            },
            DatatypeSpec::Packed(_) => if !in_range(len, src as int, 1) {
                (None, st)
            } else if m[src as int] == CAUTERIZED_TAG {
                let f = u64_at(m, src + 1);
                if !in_range(len, src + 1, 8) || !in_range(len, f as int, 8) {
                    (None, st)
                } else {
                    (
                        Some((0, 0, 0, Some(CAUTERIZED_TAG))),
                        CopyState { mem: overwrite(m, f as int, u64_bytes(src)), ..st },
                    )
                }
            } else if m[src as int] == COPIED_TO_TAG {
                if !in_range(len, src + 1, 8) {
                    (None, st)
                } else {
                    let (b, st1) = bounds_spec(st, INDIRECTION_RESERVE, dst, dst_end);
                    match b {
                        None => (None, st1),
                        Some((d, e)) => if !in_range(st1.mem.len() as int, d as int, 9) {
                            (None, st1)
                        } else {
                            (
                                Some(((src + 9) as u64, (d + 9) as u64, e, Some(COPIED_TO_TAG))),
                                CopyState {
                                    mem: overwrite(
                                        st1.mem,
                                        d as int,
                                        tagged(INDIRECTION_TAG, u64_at(m, src + 1)),
                                    ),
                                    ..st1
                                },
                            )
                        },
                    }
                }
            } else if m[src as int] == COPIED_TAG {
                copied_spec(st, src, dst, dst_end)
            } else if m[src as int] == REDIRECTION_TAG {
                if !in_range(len, src + 1, 8) {
                    (None, st)
                } else {
                    copy_spec(
                        t,
                        CopyState { mem: overwrite(m, src as int, tagged(COPIED_TO_TAG, dst)), ..st },
                        dt,
                        u64_at(m, src + 1),
                        dst,
                        dst_end,
                        (depth - 1) as nat,
                    )
                }
            } else if m[src as int] == INDIRECTION_TAG {
                if !in_range(len, src + 1, 8) {
                    (None, st)
                } else {
                    let (o, st1) = copy_spec(
                        t,
                        st,
                        dt,
                        u64_at(m, src + 1),
                        dst,
                        dst_end,
                        (depth - 1) as nat,
                    );
                    match o {
                        None => (None, st1),
                        Some((_, da, de, pt)) => if pt == Some(CAUTERIZED_TAG) {
                            (Some((0, 0, 0, Some(CAUTERIZED_TAG))), st1)
                        } else {
                            (
                                Some(((src + 9) as u64, da, de, Some(INDIRECTION_TAG))),
                                CopyState {
                                    mem: overwrite(st1.mem, src as int, tagged(COPIED_TO_TAG, dst)),
                                    ..st1
                                },
                            )
                        },
                    }
                }
            } else {
                ctor_spec(t, st, dt, m[src as int], src, dst, dst_end, depth)
            },
        }
    }
}

/// Copying from COPIED filler at `src`: an indirection to the copy, found at
/// the same offset before the next forwarding pointer.
pub open spec fn copied_spec(st: CopyState, src: u64, dst: u64, dst_end: u64) -> (
    CopyOut,
    CopyState,
) {
    let m = st.mem;
    if !(exists|p: int| first_copied_to(m, src as int, p)) {
        (None, st)
    } else {
        let p = choose|p: int| first_copied_to(m, src as int, p);
        let fwd = u64_at(m, p + 1);
        if !in_range(m.len() as int, p + 1, 8) || fwd < p - src {
            (None, st)
        } else {
            let (b, st1) = bounds_spec(st, INDIRECTION_RESERVE, dst, dst_end);
            match b {
                None => (None, st1),
                Some((d, e)) => if !in_range(st1.mem.len() as int, d as int, 9) {
                    (None, st1)
                } else {
                    (
                        Some((0, (d + 9) as u64, e, Some(COPIED_TAG))),
                        CopyState {
                            mem: overwrite(
                                st1.mem,
                                d as int,
                                tagged(INDIRECTION_TAG, (fwd - (p - src)) as u64),
                            ),
                            ..st1
                        },
                    )
                },
            }
        }
    }
}

/// Copying the ordinary constructor `tag` of `dt` at `src`: its header, the
/// forwarding bytes over the source header, then its children in order.
pub open spec fn ctor_spec(
    t: Map<Datatype, DatatypeSpec>,
    st: CopyState,
    dt: Datatype,
    tag: PackedTag,
    src: u64,
    dst: u64,
    dst_end: u64,
    depth: nat,
) -> (CopyOut, CopyState)
    decreases depth, 1nat, 0nat,
{
    let dcons = t[dt]->Packed_0;
    if !dcons.contains_key(tag) {
        (None, st)
    } else {
        let c = dcons[tag];
        let sb = c.scalar_bytes as int;
        let len = st.mem.len() as int;
        if !in_range(len, src as int, 1 + sb) {
            (None, st)
        } else {
            let (b, st1) = bounds_spec(st, (CONSTRUCTOR_RESERVE + sb) as u64, dst, dst_end);
            match b {
                None => (None, st1),
                Some((d, e)) => if !in_range(st1.mem.len() as int, d as int, 1 + sb) {
                    (None, st1)
                } else {
                    fields_spec(
                        t,
                        CopyState { mem: header_moved(st1.mem, src as int, tag, sb, d), ..st1 },
                        c.field_tys,
                        0,
                        (src + 1 + sb) as u64,
                        (d + 1 + sb) as u64,
                        e,
                        tag,
                        depth,
                    )
                },
            }
        }
    }
}

/// Copying the children `tys[i..]` of a constructor with tag `tag`, one
/// after the other; the walk stops at a cauterized cursor or at a child whose
/// source end is lost.
pub open spec fn fields_spec(
    t: Map<Datatype, DatatypeSpec>,
    st: CopyState,
    tys: Seq<Datatype>,
    i: int,
    s: u64,
    d: u64,
    e: u64,
    tag: PackedTag,
    depth: nat,
) -> (CopyOut, CopyState)
    decreases depth, 0nat, tys.len() - i,
{
    if i < 0 || i >= tys.len() || depth == 0 {
        (Some((s, d, e, Some(tag))), st)
    } else {
        let (o, st1) = copy_spec(t, st, tys[i], s, d, e, (depth - 1) as nat);
        match o {
            None => (None, st1),
            Some((s1, d1, e1, ft)) => if ft == Some(CAUTERIZED_TAG) {
                (Some((0, 0, 0, Some(CAUTERIZED_TAG))), st1)
            } else if ft == Some(COPIED_TAG) {
                (Some((0, d1, e1, Some(COPIED_TAG))), st1)
            } else {
                fields_spec(t, st1, tys, i + 1, s1, d1, e1, tag, depth)
            },
        }
    }
}

/// The executable result `r` is the outcome `o`: an error exactly where
/// `o` is `None`, else the same values.
pub open spec fn matches_out(r: Result<(u64, u64, u64, Option<PackedTag>), RtsError>, o: CopyOut) -> bool {
    &&& (r is Ok) == (o is Some)
    &&& r matches Ok(v) ==> o == Some(v)
}

/// Whether an optional tag is `t`.
pub fn is_tag(o: Option<PackedTag>, t: PackedTag) -> (r: bool)
    ensures
        r == (o == Some(t)),
{
    match o {
        Some(x) => x == t,
        None => false,
    }
}

/// Copies the packed value of type `datatype` at `src` to `dst`, following
/// the info table, and leaves forwarding metadata at `src`. Redirections and
/// indirections in the source are inlined. Returns one past the source and
/// destination bytes, the destination chunk's end, and the tag met at `src`.
/// Values nested deeper than `depth` are refused.
#[verifier::rlimit(80)]
pub fn copy_packed(
    tbl: &InfoTable,
    rt: &mut Runtime,
    datatype: Datatype,
    src: u64,
    dst: u64,
    dst_end: u64,
    depth: u64,
) -> (r: Result<(u64, u64, u64, Option<PackedTag>), RtsError>)
    requires
        old(rt).nursery.wf(),
    ensures
        same_frame(*old(rt), *final(rt)),
        // The whole evacuation, whatever the value holds.
        matches_out(
            r,
            copy_spec(table_of(tbl@), cstate(*old(rt)), datatype, src, dst, dst_end, depth as nat).0,
        ),
        cstate(*final(rt)) == copy_spec(
            table_of(tbl@),
            cstate(*old(rt)),
            datatype,
            src,
            dst,
            dst_end,
            depth as nat,
        ).1,
        depth == 0 ==> r is Err && *final(rt) == *old(rt),
        // A value built from scalars and constructors alone takes as many
        // bytes in the destination as it took in the source.
        plain_size(table_of(tbl@), old(rt).mem@, datatype, src as int, depth as nat) matches Some(n)
            ==> (plain_fits(old(rt).mem@.len() as int, src, dst, dst_end, n) ==> r == Ok::<
            (u64, u64, u64, Option<PackedTag>),
            RtsError,
        >(
            (
                (src + n) as u64,
                (dst + n) as u64,
                dst_end,
                plain_tag(table_of(tbl@), old(rt).mem@, datatype, src as int),
            ),
        ) && final(rt).nursery == old(rt).nursery && changed_only(
            old(rt).mem@,
            final(rt).mem@,
            src as int,
            n,
            dst as int,
            n,
        ) && final(rt).mem@.subrange(dst as int, dst + n) == old(rt).mem@.subrange(
            src as int,
            src + n,
        ) && (entry(*tbl, datatype) is Packed ==> header_forwarded(
            *tbl,
            datatype,
            old(rt).mem@,
            final(rt).mem@,
            src as int,
            dst,
        )) && final(rt).mem@.subrange(src as int, src + n) == fwd_image(
            table_of(tbl@),
            old(rt).mem@,
            datatype,
            src as int,
            dst as int,
            depth as nat,
        )),
        // A value reached through any number of redirections is copied as
        // the plain value they lead to: no link reaches the destination, and
        // each crossed link's site keeps the COPIED_TO and `dst` written over
        // it (`chain_mem`) unless the copy itself covers it.
        forall|k: nat|
            #[trigger] chain_plain(table_of(tbl@), old(rt).mem@, datatype, src as int, dst, k, depth as nat)
                matches Some((e, n)) ==> (plain_fits(old(rt).mem@.len() as int, e as u64, dst, dst_end, n)
                && e <= u64::MAX ==> r == Ok::<(u64, u64, u64, Option<PackedTag>), RtsError>(
                (
                    (e + n) as u64,
                    (dst + n) as u64,
                    dst_end,
                    plain_tag(table_of(tbl@), chain_mem(old(rt).mem@, src as int, dst, k), datatype, e),
                ),
            ) && final(rt).mem@.subrange(dst as int, dst + n) == chain_mem(
                old(rt).mem@,
                src as int,
                dst,
                k,
            ).subrange(e, e + n) && changed_only(
                chain_mem(old(rt).mem@, src as int, dst, k),
                final(rt).mem@,
                e,
                n,
                dst as int,
                n,
            )),
        depth > 0 && !table_of(tbl@).contains_key(datatype) ==> r is Err && r->Err_0 is Gc
            && r->Err_0->Gc_0@ == "copy_packed: Unknown datatype, "@ + decimal(datatype as nat)
            && *final(rt) == *old(rt),
        // A scalar is copied as it is.
        depth > 0 && table_of(tbl@).contains_key(datatype) && entry(*tbl, datatype) is Scalar ==> {
            let w = entry(*tbl, datatype)->Scalar_0 as int;
            let m0 = old(rt).mem@;
            if in_range(m0.len() as int, src as int, w) && in_range(m0.len() as int, dst as int, w) {
                &&& r == Ok::<(u64, u64, u64, Option<PackedTag>), RtsError>(
                    ((src + w) as u64, (dst + w) as u64, dst_end, None),
                )
                &&& final(rt).mem@ == overwrite(m0, dst as int, m0.subrange(src as int, src + w))
                &&& final(rt).nursery == old(rt).nursery
            } else {
                r is Err
            }
        },
        depth > 0 && table_of(tbl@).contains_key(datatype) && entry(*tbl, datatype) is Packed
            && !in_range(old(rt).mem@.len() as int, src as int, 1) ==> r is Err,
        // A cauterized write cursor: its frame is pointed at `src` and the walk stops.
        depth > 0 && packed_at(*tbl, *old(rt), datatype, src) && old(rt).mem@[src as int]
            == CAUTERIZED_TAG ==> {
            let m0 = old(rt).mem@;
            let f = u64_at(m0, src + 1);
            if in_range(m0.len() as int, src as int, 9) && in_range(m0.len() as int, f as int, 8) {
                &&& r == Ok::<(u64, u64, u64, Option<PackedTag>), RtsError>(
                    (0, 0, 0, Some(CAUTERIZED_TAG)),
                )
                &&& final(rt).mem@ == overwrite(m0, f as int, u64_bytes(src))
                &&& final(rt).nursery == old(rt).nursery
            } else {
                r is Err
            }
        },
        // Already evacuated: an indirection to the copy takes the value's place.
        depth > 0 && packed_at(*tbl, *old(rt), datatype, src) && old(rt).mem@[src as int]
            == COPIED_TO_TAG ==> {
            let m0 = old(rt).mem@;
            let fwd = u64_at(m0, src + 1);
            &&& !in_range(m0.len() as int, src as int, 9) ==> r is Err
            // A new chunk is opened where the current one is too full.
            &&& in_range(m0.len() as int, src as int, 9) && bounds_ok(
                *old(rt),
                INDIRECTION_RESERVE,
                dst,
                dst_end,
            ) && in_range(
                m0.len() as int,
                bounds_dst(*old(rt), INDIRECTION_RESERVE, dst, dst_end) as int,
                9,
            ) ==> r == Ok::<(u64, u64, u64, Option<PackedTag>), RtsError>(
                (
                    (src + 9) as u64,
                    (bounds_dst(*old(rt), INDIRECTION_RESERVE, dst, dst_end) + 9) as u64,
                    bounds_end(*old(rt), INDIRECTION_RESERVE, dst, dst_end),
                    Some(COPIED_TO_TAG),
                ),
            ) && final(rt).mem@ == overwrite(
                bounds_mem(*old(rt), INDIRECTION_RESERVE, dst, dst_end),
                bounds_dst(*old(rt), INDIRECTION_RESERVE, dst, dst_end) as int,
                tagged(INDIRECTION_TAG, fwd),
            ) && final(rt).nursery == bounds_rt(*old(rt), INDIRECTION_RESERVE, dst, dst_end).nursery
            &&& r matches Ok((sa, da, de, t)) ==> sa == src + 9 && t == Some(COPIED_TO_TAG) && da
                >= 9 && final(rt).mem@.subrange(da - 9, da as int) == tagged(INDIRECTION_TAG, fwd)
        },
        // Filler of an evacuated interval: the copy is found from the next
        // forwarding pointer, at the same offset.
        depth > 0 && packed_at(*tbl, *old(rt), datatype, src) && old(rt).mem@[src as int]
            == COPIED_TAG ==> {
            let m0 = old(rt).mem@;
            &&& (forall|p: int| !#[trigger] first_copied_to(m0, src as int, p)) ==> r is Err
            &&& forall|p: int| #[trigger]
                first_copied_to(m0, src as int, p) ==> {
                    let fwd = u64_at(m0, p + 1);
                    let want = fwd - (p - src);
                    &&& !(in_range(m0.len() as int, p + 1, 8) && want >= 0) ==> r is Err
                    &&& in_range(m0.len() as int, p + 1, 8) && want >= 0 && bounds_ok(
                        *old(rt),
                        INDIRECTION_RESERVE,
                        dst,
                        dst_end,
                    ) && in_range(
                        m0.len() as int,
                        bounds_dst(*old(rt), INDIRECTION_RESERVE, dst, dst_end) as int,
                        9,
                    ) ==> r == Ok::<(u64, u64, u64, Option<PackedTag>), RtsError>(
                        (
                            0,
                            (bounds_dst(*old(rt), INDIRECTION_RESERVE, dst, dst_end) + 9) as u64,
                            bounds_end(*old(rt), INDIRECTION_RESERVE, dst, dst_end),
                            Some(COPIED_TAG),
                        ),
                    ) && final(rt).mem@ == overwrite(
                        bounds_mem(*old(rt), INDIRECTION_RESERVE, dst, dst_end),
                        bounds_dst(*old(rt), INDIRECTION_RESERVE, dst, dst_end) as int,
                        tagged(INDIRECTION_TAG, want as u64),
                    ) && final(rt).nursery == bounds_rt(
                        *old(rt),
                        INDIRECTION_RESERVE,
                        dst,
                        dst_end,
                    ).nursery
                    &&& r matches Ok((sa, da, de, t)) ==> sa == 0 && t == Some(COPIED_TAG) && da
                        >= 9 && final(rt).mem@.subrange(da - 9, da as int) == tagged(
                        INDIRECTION_TAG,
                        want as u64,
                    )
                }
        },
        // End of a chunk: the chunk start is forwarded and copying goes on in
        // the next chunk, at the same destination.
        depth > 0 && packed_at(*tbl, *old(rt), datatype, src) && old(rt).mem@[src as int]
            == REDIRECTION_TAG && !in_range(old(rt).mem@.len() as int, src as int, 9) ==> r is Err,
        // An indirection: the pointee is copied in its place, and the
        // indirection's site forwards to `dst`.
        depth > 0 && packed_at(*tbl, *old(rt), datatype, src) && old(rt).mem@[src as int]
            == INDIRECTION_TAG ==> {
            &&& !in_range(old(rt).mem@.len() as int, src as int, 9) ==> r is Err
            &&& r matches Ok((sa, da, de, t)) ==> (sa == src + 9 && t == Some(INDIRECTION_TAG)
                && final(rt).mem@.subrange(src as int, src + 9) == tagged(COPIED_TO_TAG, dst)) || (sa
                == 0 && da == 0 && de == 0 && t == Some(CAUTERIZED_TAG))
            // A plain pointee is inlined byte for byte.
            &&& in_range(old(rt).mem@.len() as int, src as int, 9) ==> (plain_size(
                table_of(tbl@),
                old(rt).mem@,
                datatype,
                u64_at(old(rt).mem@, src + 1) as int,
                (depth - 1) as nat,
            ) matches Some(n) ==> (plain_fits(
                old(rt).mem@.len() as int,
                u64_at(old(rt).mem@, src + 1),
                dst,
                dst_end,
                n,
            ) && apart(src as int, 9, dst as int, n) ==> r == Ok::<
                (u64, u64, u64, Option<PackedTag>),
                RtsError,
            >(((src + 9) as u64, (dst + n) as u64, dst_end, Some(INDIRECTION_TAG)))
                && final(rt).mem@.subrange(dst as int, dst + n) == old(rt).mem@.subrange(
                u64_at(old(rt).mem@, src + 1) as int,
                u64_at(old(rt).mem@, src + 1) + n,
            )))
        },
        // An ordinary constructor.
        depth > 0 && packed_at(*tbl, *old(rt), datatype, src) && old(rt).mem@[src as int]
            < COPIED_TAG ==> {
            let m0 = old(rt).mem@;
            let tag = m0[src as int];
            let known = entry(*tbl, datatype)->Packed_0.contains_key(tag);
            let c = dcon(*tbl, datatype, tag);
            let sb = c.scalar_bytes as int;
            &&& !known ==> r is Err && r->Err_0 is Gc && *final(rt) == *old(rt)
            &&& known && !in_range(m0.len() as int, src as int, 1 + sb) ==> r is Err
            // The walk stops at a cauterized cursor, and where a child's
            // source end is lost (COPIED filler).
            &&& r matches Ok((sa, da, de, t)) ==> t == Some(tag) || (sa == 0 && da == 0
                && de == 0 && t == Some(CAUTERIZED_TAG)) || (sa == 0 && t == Some(COPIED_TAG))
            // Without packed children, header and scalars are copied byte for
            // byte: as many bytes are consumed as are produced.
            &&& known && c.field_tys.len() == 0 && in_range(m0.len() as int, src as int, 1 + sb)
                && has_room(dst, dst_end, (CONSTRUCTOR_RESERVE + sb) as u64) && in_range(
                m0.len() as int,
                dst as int,
                1 + sb,
            ) ==> r == Ok::<(u64, u64, u64, Option<PackedTag>), RtsError>(
                ((src + 1 + sb) as u64, (dst + 1 + sb) as u64, dst_end, Some(tag)),
            ) && final(rt).mem@ == header_moved(m0, src as int, tag, sb, dst)
                && final(rt).nursery == old(rt).nursery
        },
    decreases depth, 1u64,
{
    if depth == 0 {
        return Err(gc_error("copy_packed: value nested too deeply"));
    }
    let info = match tbl.lookup(datatype) {
        None => {
            return Err(gc_error_with("copy_packed: Unknown datatype, ", datatype as u64));
        },
        Some(i) => i,
    };
    match info {
        DatatypeInfo::Scalar(w) => {
            let w = *w as u64;
            let len = rt.mem.len() as u64;
            if src > len || len - src < w || dst > len || len - dst < w {
                return Err(out_of_range());
            }
            copy_bytes(&mut rt.mem, src, dst, w)?;
            Ok((src + w, dst + w, dst_end, None))
        },
        DatatypeInfo::Packed(_) => {
            // Taking the length bounds every address read below by `usize::MAX`.
            let _len = rt.mem.len();
            let tag = read_u8(&rt.mem, src)?;
            if tag == CAUTERIZED_TAG {
                let wframe = read_u64(&rt.mem, src + 1)?;
                write_u64(&mut rt.mem, wframe, src)?;
                Ok((0, 0, 0, Some(tag)))
            } else if tag == COPIED_TO_TAG {
                let fwd_ptr = read_u64(&rt.mem, src + 1)?;
                let (dst1, dst_end1) = check_bounds(rt, INDIRECTION_RESERVE, dst, dst_end)?;
                write_tagged(&mut rt.mem, dst1, INDIRECTION_TAG, fwd_ptr)?;
                Ok((src + 9, dst1 + 9, dst_end1, Some(tag)))
            } else if tag == COPIED_TAG {
                copy_copied(rt, src, dst, dst_end)
            } else if tag == REDIRECTION_TAG {
                let next_chunk = read_u64(&rt.mem, src + 1)?;
                let ghost m0 = rt.mem@;
                write_tagged(&mut rt.mem, src, COPIED_TO_TAG, dst)?;
                let ghost m1 = rt.mem@;
                let ghost t = table_of(tbl@);
                let res = copy_packed(tbl, rt, datatype, next_chunk, dst, dst_end, depth - 1);
                proof {
                    assert forall|k: nat|
                        #[trigger] chain_plain(t, m0, datatype, src as int, dst, k, depth as nat) matches Some((e, n))
                            ==> (plain_fits(m0.len() as int, e as u64, dst, dst_end, n) && e <= u64::MAX
                            ==> res == Ok::<(u64, u64, u64, Option<PackedTag>), RtsError>(
                            (
                                (e + n) as u64,
                                (dst + n) as u64,
                                dst_end,
                                plain_tag(t, chain_mem(m0, src as int, dst, k), datatype, e),
                            ),
                        ) && rt.mem@.subrange(dst as int, dst + n) == chain_mem(m0, src as int, dst, k).subrange(
                            e,
                            e + n,
                        ) && changed_only(chain_mem(m0, src as int, dst, k), rt.mem@, e, n, dst as int, n)) by {
                        if k > 0 {
                            let k1 = (k - 1) as nat;
                            assert(chain_plain(t, m0, datatype, src as int, dst, k, depth as nat) == chain_plain(
                                t,
                                m1,
                                datatype,
                                next_chunk as int,
                                dst,
                                k1,
                                (depth - 1) as nat,
                            ));
                            assert(chain_mem(m0, src as int, dst, k) == chain_mem(m1, next_chunk as int, dst, k1));
                        }
                    }
                }
                res
            } else if tag == INDIRECTION_TAG {
                let pointee = read_u64(&rt.mem, src + 1)?;
                let (_, dst_after_pointee, dst_after_pointee_end, pointee_tag) = copy_packed(
                    tbl,
                    rt,
                    datatype,
                    pointee,
                    dst,
                    dst_end,
                    depth - 1,
                )?;
                if is_tag(pointee_tag, CAUTERIZED_TAG) {
                    return Ok((0, 0, 0, Some(CAUTERIZED_TAG)));
                }
                let ghost m1 = rt.mem@;
                let w = write_tagged(&mut rt.mem, src, COPIED_TO_TAG, dst);
                assert(w is Ok);
                proof {
                    let ps = plain_size(table_of(tbl@), old(rt).mem@, datatype, pointee as int, (depth - 1) as nat);
                    if ps is Some {
                        let n = ps->Some_0;
                        if plain_fits(old(rt).mem@.len() as int, pointee, dst, dst_end, n) && apart(src as int, 9, dst as int, n) {
                            assert(rt.mem@.subrange(dst as int, dst + n) =~= m1.subrange(dst as int, dst + n));
                        }
                    }
                }
                assert(rt.mem@.subrange(src as int, src + 9) =~= tagged(COPIED_TO_TAG, dst));
                Ok((src + 9, dst_after_pointee, dst_after_pointee_end, Some(tag)))
            } else {
                copy_constructor(tbl, rt, info, datatype, tag, src, dst, dst_end, depth)
            }
        },
    }
}

/// Copies a value whose source bytes are COPIED filler: scans for the next
/// forwarding pointer and writes an indirection to the same offset before it.
fn copy_copied(rt: &mut Runtime, src: u64, dst: u64, dst_end: u64) -> (r: Result<
    (u64, u64, u64, Option<PackedTag>),
    RtsError,
>)
    requires
        old(rt).nursery.wf(),
    ensures
        same_frame(*old(rt), *final(rt)),
        matches_out(r, copied_spec(cstate(*old(rt)), src, dst, dst_end).0),
        cstate(*final(rt)) == copied_spec(cstate(*old(rt)), src, dst, dst_end).1,
        ({
            let m0 = old(rt).mem@;
            &&& (forall|p: int| !#[trigger] first_copied_to(m0, src as int, p)) ==> r is Err
            &&& forall|p: int| #[trigger]
                first_copied_to(m0, src as int, p) ==> {
                    let fwd = u64_at(m0, p + 1);
                    let want = fwd - (p - src);
                    &&& !(in_range(m0.len() as int, p + 1, 8) && want >= 0) ==> r is Err
                    &&& in_range(m0.len() as int, p + 1, 8) && want >= 0 && bounds_ok(
                        *old(rt),
                        INDIRECTION_RESERVE,
                        dst,
                        dst_end,
                    ) && in_range(
                        m0.len() as int,
                        bounds_dst(*old(rt), INDIRECTION_RESERVE, dst, dst_end) as int,
                        9,
                    ) ==> r == Ok::<(u64, u64, u64, Option<PackedTag>), RtsError>(
                        (
                            0,
                            (bounds_dst(*old(rt), INDIRECTION_RESERVE, dst, dst_end) + 9) as u64,
                            bounds_end(*old(rt), INDIRECTION_RESERVE, dst, dst_end),
                            Some(COPIED_TAG),
                        ),
                    ) && final(rt).mem@ == overwrite(
                        bounds_mem(*old(rt), INDIRECTION_RESERVE, dst, dst_end),
                        bounds_dst(*old(rt), INDIRECTION_RESERVE, dst, dst_end) as int,
                        tagged(INDIRECTION_TAG, want as u64),
                    ) && final(rt).nursery == bounds_rt(
                        *old(rt),
                        INDIRECTION_RESERVE,
                        dst,
                        dst_end,
                    ).nursery
                    &&& r matches Ok((sa, da, de, t)) ==> sa == 0 && t == Some(COPIED_TAG) && da
                        >= 9 && final(rt).mem@.subrange(da - 9, da as int) == tagged(
                        INDIRECTION_TAG,
                        want as u64,
                    )
                }
        }),
{
    let ghost m0 = rt.mem@;
    let len = rt.mem.len() as u64;
    if src >= len {
        assert(forall|p: int| !#[trigger] first_copied_to(m0, src as int, p));
        return Err(out_of_range());
    }
    let ulen = rt.mem.len();
    let mut uscan: usize = src as usize + 1;
    while uscan < ulen && rt.mem[uscan] != COPIED_TO_TAG
        invariant
            rt.mem@ == m0,
            len == m0.len(),
            ulen == m0.len(),
            src < uscan <= ulen,
            forall|q: int| src < q < uscan ==> m0[q] != COPIED_TO_TAG,
        decreases ulen - uscan,
    {
        uscan = uscan + 1;
    }
    let scan = uscan as u64;
    if scan >= len {
        assert(forall|p: int| !#[trigger] first_copied_to(m0, src as int, p));
        return Err(gc_error("copy_packed: no forwarding pointer after COPIED"));
    }
    assert(first_copied_to(m0, src as int, scan as int));
    assert(forall|p: int| #[trigger] first_copied_to(m0, src as int, p) ==> p == scan);
    let offset = scan - src;
    let fwd_avail = read_u64(&rt.mem, scan + 1)?;
    if fwd_avail < offset {
        return Err(gc_error("copy_packed: forwarding pointer before the start of memory"));
    }
    let fwd_want = fwd_avail - offset;
    let (dst1, dst_end1) = check_bounds(rt, INDIRECTION_RESERVE, dst, dst_end)?;
    write_tagged(&mut rt.mem, dst1, INDIRECTION_TAG, fwd_want)?;
    assert(rt.mem@.subrange(dst1 as int, dst1 + 9) =~= tagged(INDIRECTION_TAG, fwd_want));
    Ok((0, dst1 + 9, dst_end1, Some(COPIED_TAG)))
}

/// Copies an ordinary constructor: tag and scalar prefix, forwarding
/// metadata over the source header, then each packed child in order.
#[verifier::rlimit(100)]
fn copy_constructor(
    tbl: &InfoTable,
    rt: &mut Runtime,
    info: &DatatypeInfo,
    datatype: Datatype,
    tag: PackedTag,
    src: u64,
    dst: u64,
    dst_end: u64,
    depth: u64,
) -> (r: Result<(u64, u64, u64, Option<PackedTag>), RtsError>)
    requires
        old(rt).nursery.wf(),
        depth > 0,
        table_of(tbl@).contains_key(datatype),
        entry(*tbl, datatype) == info@,
        info@ is Packed,
        in_range(old(rt).mem@.len() as int, src as int, 1),
        old(rt).mem@[src as int] == tag,
        tag < COPIED_TAG,
    ensures
        same_frame(*old(rt), *final(rt)),
        matches_out(
            r,
            ctor_spec(table_of(tbl@), cstate(*old(rt)), datatype, tag, src, dst, dst_end, depth as nat).0,
        ),
        cstate(*final(rt)) == ctor_spec(
            table_of(tbl@),
            cstate(*old(rt)),
            datatype,
            tag,
            src,
            dst,
            dst_end,
            depth as nat,
        ).1,
        ({
            let m0 = old(rt).mem@;
            let known = entry(*tbl, datatype)->Packed_0.contains_key(tag);
            let c = dcon(*tbl, datatype, tag);
            let sb = c.scalar_bytes as int;
            &&& !known ==> r is Err && r->Err_0 is Gc && *final(rt) == *old(rt)
            &&& known && !in_range(m0.len() as int, src as int, 1 + sb) ==> r is Err
            // The walk stops at a cauterized cursor, and where a child's
            // source end is lost (COPIED filler).
            &&& r matches Ok((sa, da, de, t)) ==> t == Some(tag) || (sa == 0 && da == 0
                && de == 0 && t == Some(CAUTERIZED_TAG)) || (sa == 0 && t == Some(COPIED_TAG))
            &&& known && c.field_tys.len() == 0 && in_range(m0.len() as int, src as int, 1 + sb)
                && has_room(dst, dst_end, (CONSTRUCTOR_RESERVE + sb) as u64) && in_range(
                m0.len() as int,
                dst as int,
                1 + sb,
            ) ==> r == Ok::<(u64, u64, u64, Option<PackedTag>), RtsError>(
                ((src + 1 + sb) as u64, (dst + 1 + sb) as u64, dst_end, Some(tag)),
            ) && final(rt).mem@ == header_moved(m0, src as int, tag, sb, dst)
                && final(rt).nursery == old(rt).nursery
        }),
        plain_size(table_of(tbl@), old(rt).mem@, datatype, src as int, depth as nat) matches Some(n)
            ==> (plain_fits(old(rt).mem@.len() as int, src, dst, dst_end, n) ==> r == Ok::<
            (u64, u64, u64, Option<PackedTag>),
            RtsError,
        >(((src + n) as u64, (dst + n) as u64, dst_end, Some(tag))) && final(rt).nursery == old(
            rt,
        ).nursery && changed_only(old(rt).mem@, final(rt).mem@, src as int, n, dst as int, n)
            && final(rt).mem@.subrange(dst as int, dst + n) == old(rt).mem@.subrange(
            src as int,
            src + n,
        ) && header_forwarded(*tbl, datatype, old(rt).mem@, final(rt).mem@, src as int, dst)
            && final(rt).mem@.subrange(src as int, src + n) == fwd_image(
            table_of(tbl@),
            old(rt).mem@,
            datatype,
            src as int,
            dst as int,
            depth as nat,
        )),
    decreases depth, 0u64,
{
    let ghost rt0 = *rt;
    let ghost m0 = rt.mem@;
    let c = match info.datacon(tag) {
        None => {
            return Err(gc_error("copy_packed: Unknown data constructor"));
        },
        Some(c) => c,
    };
    let sb = c.scalar_bytes as u64;
    let len = rt.mem.len() as u64;
    let ghost t = table_of(tbl@);
    let ghost ps = plain_size(t, m0, datatype, src as int, depth as nat);
    let ghost n_all: int = if ps is Some { ps->Some_0 } else { 0 };
    let ghost plain = ps is Some && plain_fits(m0.len() as int, src, dst, dst_end, n_all);
    let ghost h = 1 + sb as int;
    proof {
        if plain {
            assert(c@ == t[datatype]->Packed_0[tag]);
            lemma_plain_fields_bounds(t, m0, c.field_tys@, src + h, (depth - 1) as nat);
            assert(in_range(m0.len() as int, src as int, h));
            assert(has_room(dst, dst_end, (CONSTRUCTOR_RESERVE + sb) as u64));
        }
    }
    if src > len || len - src < 1 + sb {
        return Err(out_of_range());
    }
    let (d, e) = check_bounds(rt, CONSTRUCTOR_RESERVE + sb, dst, dst_end)?;
    if d > len || len - d < 1 + sb {
        return Err(out_of_range());
    }
    let ghost mb = rt.mem@;
    proof {
        if plain {
            assert(mb == m0);
            assert(d == dst && e == dst_end);
        }
    }
    write_u8(&mut rt.mem, d, tag)?;
    copy_bytes(&mut rt.mem, src + 1, d + 1, sb)?;
    let ghost m2 = rt.mem@;
    if sb >= 8 {
        write_tagged(&mut rt.mem, src, COPIED_TO_TAG, d)?;
        fill_bytes(&mut rt.mem, src + 9, sb - 8, COPIED_TAG)?;
    } else {
        write_u8(&mut rt.mem, src, COPIED_TAG)?;
        fill_bytes(&mut rt.mem, src + 1, sb, COPIED_TAG)?;
    }
    assert(rt.mem@ =~= overwrite(m2, src as int, forwarding(sb as int, d)));
    assert(rt.mem@ == header_moved(mb, src as int, tag, sb as int, d));
    proof {
        if plain {
            let hm = rt.mem@;
            assert(changed_only(m0, hm, src as int, h, dst as int, h));
            assert(forall|j: int| 0 <= j < h ==> #[trigger] hm[dst + j] == m0[src + j]);
            assert(c.field_tys@.skip(0) =~= c.field_tys@);
            let k = plain_fields_size(t, m0, c.field_tys@, src + h, (depth - 1) as nat)->Some_0;
            assert(forall|i: int| src + h <= i < src + h + k ==> #[trigger] hm[i] == m0[i]);
            assert(hm.subrange(src as int, src + h) =~= forwarding(sb as int, dst));
            assert(hm.subrange(src + h, src + h) + fields_image(t, m0, c.field_tys@, src + h, dst + h, (depth - 1) as nat)
                =~= fields_image(t, m0, c.field_tys@, src + h, dst + h, (depth - 1) as nat));
            lemma_plain_fields_frame(t, m0, hm, c.field_tys@, src + h, (depth - 1) as nat);
        }
    }
    let mut src_mut = src + 1 + sb;
    let mut dst_mut = d + 1 + sb;
    let mut dst_end_mut = e;
    let n = c.field_tys.len();
    let mut i: usize = 0;
    while i < n
        invariant
            rt0 == *old(rt),
            m0 == old(rt).mem@,
            in_range(m0.len() as int, src as int, 1 + sb),
            sb == c.scalar_bytes,
            same_frame(rt0, *rt),
            rt.nursery.wf(),
            depth > 0,
            i <= n,
            n == c.field_tys@.len(),
            c@ == dcon(*tbl, datatype, tag),
            entry(*tbl, datatype)->Packed_0.contains_key(tag),
            n == 0 ==> rt.mem@ == header_moved(mb, src as int, tag, sb as int, d),
            n == 0 ==> rt.nursery == rt0.nursery || !has_room(dst, dst_end, (CONSTRUCTOR_RESERVE + sb) as u64),
            src_mut == src + 1 + sb || i > 0,
            dst_mut == d + 1 + sb || i > 0,
            dst_end_mut == e || i > 0,
            t == table_of(tbl@),
            fields_spec(
                t,
                cstate(*rt),
                c.field_tys@,
                i as int,
                src_mut,
                dst_mut,
                dst_end_mut,
                tag,
                depth as nat,
            ) == ctor_spec(t, cstate(rt0), datatype, tag, src, dst, dst_end, depth as nat),
            h == 1 + sb,
            len == m0.len(),
            plain ==> src + n_all <= m0.len() && dst + n_all <= m0.len(),
            plain ==> h <= src_mut - src <= n_all,
            plain ==> dst_mut - dst == src_mut - src,
            plain ==> forall|j: int| 0 <= j < src_mut - src ==> #[trigger] rt.mem@[dst + j] == m0[src + j],
            plain ==> dst_end_mut == dst_end,
            plain ==> rt.nursery == rt0.nursery,
            plain ==> rt.mem@.subrange(src as int, src + h) == forwarding(sb as int, dst),
            plain ==> plain_fields_size(t, m0, c.field_tys@.skip(i as int), src_mut as int, (depth - 1) as nat)
                == Some(n_all - (src_mut - src)),
            plain ==> rt.mem@.subrange(src + h, src_mut as int) + fields_image(
                t,
                m0,
                c.field_tys@.skip(i as int),
                src_mut as int,
                dst_mut as int,
                (depth - 1) as nat,
            ) == fields_image(t, m0, c.field_tys@, src + h, dst + h, (depth - 1) as nat),
            plain ==> changed_only(m0, rt.mem@, src as int, src_mut - src, dst as int, src_mut - src),
            plain ==> plain_fields_size(t, rt.mem@, c.field_tys@.skip(i as int), src_mut as int, (depth - 1) as nat)
                    == Some(n_all - (src_mut - src)),
            ps == plain_size(t, m0, datatype, src as int, depth as nat),
            n_all == (if ps is Some { ps->Some_0 } else { 0 }),
            plain == (ps is Some && plain_fits(m0.len() as int, src, dst, dst_end, n_all)),
        decreases n - i,
    {
        let ty = c.field_tys[i];
        let ghost before = *rt;
        let ghost rest = c.field_tys@.skip(i as int);
        proof {
            if plain {
                assert(rest[0] == ty);
                assert(rest.drop_first() =~= c.field_tys@.skip(i + 1));
                lemma_plain_bounds(t, before.mem@, ty, src_mut as int, (depth - 1) as nat);
                let a = plain_size(t, before.mem@, ty, src_mut as int, (depth - 1) as nat)->Some_0;
                lemma_plain_fields_bounds(t, before.mem@, rest.drop_first(), src_mut + a, (depth - 1) as nat);
            }
        }
        let res = copy_packed(tbl, rt, ty, src_mut, dst_mut, dst_end_mut, depth - 1);
        assert(same_frame(before, *rt));
        proof {
            if plain {
                let a = plain_size(t, before.mem@, ty, src_mut as int, (depth - 1) as nat)->Some_0;
                let b = plain_fields_size(t, before.mem@, rest.drop_first(), src_mut + a, (depth - 1) as nat)->Some_0;
                assert(plain_fits(before.mem@.len() as int, src_mut, dst_mut, dst_end_mut, a));
                assert(res is Ok);
                assert(plain_tag(t, before.mem@, ty, src_mut as int) != Some(CAUTERIZED_TAG));
                let m3 = rt.mem@;
                assert(forall|j: int| src_mut + a <= j < src_mut + a + b ==> #[trigger] m3[j] == before.mem@[j]);
                lemma_plain_fields_frame(t, before.mem@, m3, rest.drop_first(), src_mut + a, (depth - 1) as nat);
                assert(changed_only(m0, m3, src as int, src_mut + a - src, dst as int, src_mut + a - src));
                assert(b >= 0);
                assert(src_mut + a <= src + n_all);
                assert(res->Ok_0.0 == src_mut + a);
                assert(res->Ok_0.1 == dst_mut + a);
                lemma_child_copied(m0, before.mem@, m3, src as int, dst as int, src_mut as int, dst_mut as int, a, n_all);
                assert(m3.subrange(src as int, src + h) =~= before.mem@.subrange(src as int, src + h));
                assert(m3.subrange(src + h, src_mut as int) =~= before.mem@.subrange(src + h, src_mut as int));
                lemma_image_step(t, m0, before.mem@, m3, c.field_tys@, i as int, src as int, h, src_mut as int, dst_mut as int, n_all, (depth - 1) as nat);
            }
        }
        assert(same_frame(rt0, *rt));
        let (src1, dst1, dst_end1, field_tag) = res?;
        if is_tag(field_tag, CAUTERIZED_TAG) {
            return Ok((0, 0, 0, Some(CAUTERIZED_TAG)));
        }
        if is_tag(field_tag, COPIED_TAG) {
            return Ok((0, dst1, dst_end1, Some(COPIED_TAG)));
        }
        src_mut = src1;
        dst_mut = dst1;
        dst_end_mut = dst_end1;
        i = i + 1;
    }
    proof {
        if plain {
            assert(c.field_tys@.skip(i as int).len() == 0);
            assert(rt.mem@.subrange(src as int, src + n_all) =~= rt.mem@.subrange(src as int, src + h) + rt.mem@.subrange(src + h, src + n_all));
            assert(rt.mem@.subrange(src + h, src + n_all) =~= rt.mem@.subrange(src + h, src_mut as int) + fields_image(
                t, m0, c.field_tys@.skip(i as int), src_mut as int, dst_mut as int, (depth - 1) as nat));
            lemma_same_bytes(m0, rt.mem@, src as int, dst as int, n_all);
        }
    }
    Ok((src_mut, dst_mut, dst_end_mut, Some(tag)))
}

/// After a constructor whose scalar prefix holds at least eight bytes was
/// evacuated to `d`, its source starts with COPIED_TO and a pointer to `d`:
/// copying from there again meets the forwarding pointer and writes a
/// nine-byte indirection to `d` instead of reading the value.
pub proof fn lemma_evacuated_header_forwards(m: Seq<u8>, src: int, tag: u8, sb: int, d: u64)
    requires
        8 <= sb,
        in_range(m.len() as int, src, 1 + sb),
        in_range(m.len() as int, d as int, 1 + sb),
    ensures
        header_moved(m, src, tag, sb, d)[src] == COPIED_TO_TAG,
        u64_at(header_moved(m, src, tag, sb, d), src + 1) == d,
{
    let h = header_moved(m, src, tag, sb, d);
    let g = overwrite(m, src + 1, u64_bytes(d));
    crate::cursor::lemma_u64_round_trip(m, src + 1, d);
    assert forall|i: int| src + 1 <= i < src + 9 implies #[trigger] h[i] == g[i] by {}
    crate::gc::lemma_u64_at_same(g, h, src + 1);
}

/// When the copier reaches a cauterized write cursor at `src` whose frame `f`
/// lies apart from the marker, the frame is pointed at `src`, and `src` still
/// holds CAUTERIZED followed by the frame's own address.
pub proof fn lemma_cauterized_cursor_kept(m: Seq<u8>, src: u64, f: u64)
    requires
        in_range(m.len() as int, src as int, 9),
        in_range(m.len() as int, f as int, 8),
        f + 8 <= src || src + 9 <= f,
        m.subrange(src as int, src + 9) == tagged(CAUTERIZED_TAG, f),
    ensures
        u64_at(overwrite(m, f as int, u64_bytes(src)), f as int) == src,
        overwrite(m, f as int, u64_bytes(src)).subrange(src as int, src + 9) == tagged(
            CAUTERIZED_TAG,
            f,
        ),
{
    crate::cursor::lemma_u64_round_trip(m, f as int, src);
    assert(overwrite(m, f as int, u64_bytes(src)).subrange(src as int, src + 9) =~= m.subrange(src as int, src + 9));
}

/// After a child was copied in place, the destination still repeats the
/// source byte for byte up to the end of that child.
proof fn lemma_child_copied(
    m0: Seq<u8>,
    before: Seq<u8>,
    m3: Seq<u8>,
    src: int,
    dst: int,
    src_mut: int,
    dst_mut: int,
    a: int,
    n_all: int,
)
    requires
        0 <= a,
        0 <= src,
        0 <= dst,
        src <= src_mut,
        src_mut + a <= src + n_all,
        dst_mut - dst == src_mut - src,
        src + n_all <= dst || dst + n_all <= src,
        src + n_all <= m0.len(),
        dst + n_all <= m0.len(),
        changed_only(m0, before, src, src_mut - src, dst, src_mut - src),
        changed_only(before, m3, src_mut, a, dst_mut, a),
        m3.subrange(dst_mut, dst_mut + a) == before.subrange(src_mut, src_mut + a),
        forall|j: int| 0 <= j < src_mut - src ==> #[trigger] before[dst + j] == m0[src + j],
    ensures
        forall|j: int| 0 <= j < src_mut + a - src ==> #[trigger] m3[dst + j] == m0[src + j],
{
    assert forall|j: int| 0 <= j < src_mut + a - src implies #[trigger] m3[dst + j] == m0[src + j] by {
        if j < src_mut - src {
            assert(before[dst + j] == m0[src + j]);
            assert(m3[dst + j] == before[dst + j]);
        } else {
            let jj = j - (src_mut - src);
            assert(dst_mut + jj == dst + j);
            assert(src_mut + jj == src + j);
            assert(0 <= dst_mut && dst_mut + a <= m3.len());
            assert(0 <= src_mut && src_mut + a <= before.len());
            assert(0 <= jj < a);
            let x = m3.subrange(dst_mut, dst_mut + a);
            let y = before.subrange(src_mut, src_mut + a);
            assert(x[jj] == m3[dst_mut + jj]);
            assert(y[jj] == before[src_mut + jj]);
            assert(x == y);
            assert(x[jj] == y[jj]);
            assert(m3[dst + j] == before[src + j]);
            assert(before[src_mut + jj] == m0[src_mut + jj]);
        }
    }
}

proof fn lemma_chain_end(
    t: Map<Datatype, DatatypeSpec>,
    m: Seq<u8>,
    dt: Datatype,
    pos: int,
    dst: u64,
    k: nat,
    depth: nat,
)
    ensures
        chain_plain(t, m, dt, pos, dst, k, depth) matches Some((e, n)) ==> k <= depth && plain_size(
            t,
            chain_mem(m, pos, dst, k),
            dt,
            e,
            (depth - k) as nat,
        ) == Some(n),
    decreases k,
{
    if k > 0 && depth > 0 && in_range(m.len() as int, pos, 9) {
        lemma_chain_end(
            t,
            overwrite(m, pos, tagged(COPIED_TO_TAG, dst)),
            dt,
            u64_at(m, pos + 1) as int,
            dst,
            (k - 1) as nat,
            (depth - 1) as nat,
        );
    }
}

/// Copying a value reached through `k` redirections leaves no link in the
/// destination: what lands there is a plain value of the type, as large as
/// the one the links lead to.
pub proof fn lemma_redirections_collapse(
    t: Map<Datatype, DatatypeSpec>,
    m0: Seq<u8>,
    m: Seq<u8>,
    dt: Datatype,
    src: int,
    dst: u64,
    k: nat,
    depth: nat,
)
    requires
        chain_plain(t, m0, dt, src, dst, k, depth) is Some,
        dst + chain_plain(t, m0, dt, src, dst, k, depth)->Some_0.1 <= m.len(),
        m.subrange(dst as int, dst + chain_plain(t, m0, dt, src, dst, k, depth)->Some_0.1) == chain_mem(
            m0,
            src,
            dst,
            k,
        ).subrange(
            chain_plain(t, m0, dt, src, dst, k, depth)->Some_0.0,
            chain_plain(t, m0, dt, src, dst, k, depth)->Some_0.0 + chain_plain(
                t,
                m0,
                dt,
                src,
                dst,
                k,
                depth,
            )->Some_0.1,
        ),
    ensures
        plain_size(t, m, dt, dst as int, (depth - k) as nat) == Some(
            chain_plain(t, m0, dt, src, dst, k, depth)->Some_0.1,
        ),
{
    lemma_chain_end(t, m0, dt, src, dst, k, depth);
    let (e, n) = chain_plain(t, m0, dt, src, dst, k, depth)->Some_0;
    crate::plain::lemma_plain_copy_same_value(
        t,
        chain_mem(m0, src, dst, k),
        m,
        dt,
        e,
        dst as int,
        (depth - k) as nat,
    );
}

/// After the `i`-th child was evacuated in place, the image of what is done
/// still joins the image of what is left to make the image of all children.
proof fn lemma_image_step(
    t: Map<Datatype, DatatypeSpec>,
    m0: Seq<u8>,
    before: Seq<u8>,
    m3: Seq<u8>,
    tys: Seq<Datatype>,
    i: int,
    src: int,
    h: int,
    src_mut: int,
    dst_mut: int,
    n_all: int,
    depth: nat,
)
    requires
        0 <= i < tys.len(),
        0 <= src,
        0 <= h,
        src + h <= src_mut,
        src + n_all <= m0.len(),
        before.len() == m0.len(),
        m3.len() == m0.len(),
        plain_fields_size(t, m0, tys.skip(i), src_mut, depth) == Some(n_all - (src_mut - src)),
        forall|j: int| src_mut <= j < src + n_all ==> #[trigger] before[j] == m0[j],
        plain_size(t, before, tys[i], src_mut, depth) is Some,
        m3.subrange(src_mut, src_mut + plain_size(t, before, tys[i], src_mut, depth)->Some_0) == fwd_image(
            t,
            before,
            tys[i],
            src_mut,
            dst_mut,
            depth,
        ),
        forall|j: int|
            src_mut + plain_size(t, before, tys[i], src_mut, depth)->Some_0 <= j < src + n_all
                ==> #[trigger] m3[j] == before[j],
        m3.subrange(src + h, src_mut) == before.subrange(src + h, src_mut),
    ensures
        ({
            let a = plain_size(t, before, tys[i], src_mut, depth)->Some_0;
            &&& plain_size(t, m0, tys[i], src_mut, depth) == Some(a)
            &&& plain_fields_size(t, m0, tys.skip(i + 1), src_mut + a, depth) == Some(
                n_all - (src_mut + a - src),
            )
            &&& m3.subrange(src + h, src_mut + a) + fields_image(
                t,
                m0,
                tys.skip(i + 1),
                src_mut + a,
                dst_mut + a,
                depth,
            ) == before.subrange(src + h, src_mut) + fields_image(
                t,
                m0,
                tys.skip(i),
                src_mut,
                dst_mut,
                depth,
            )
        }),
{
    let rest = tys.skip(i);
    assert(rest[0] == tys[i]);
    assert(rest.drop_first() =~= tys.skip(i + 1));
    let a0 = plain_size(t, m0, tys[i], src_mut, depth)->Some_0;
    lemma_plain_bounds(t, m0, tys[i], src_mut, depth);
    lemma_plain_fields_bounds(t, m0, rest.drop_first(), src_mut + a0, depth);
    assert(forall|j: int| src_mut <= j < src_mut + a0 ==> #[trigger] before[j] == m0[j]);
    lemma_plain_frame(t, m0, before, tys[i], src_mut, depth);
    lemma_image(t, m0, before, tys[i], src_mut, dst_mut, depth);
    let a = a0;
    assert(0 <= a && src_mut + a <= m3.len());
    assert(plain_size(t, before, tys[i], src_mut, depth)->Some_0 == a);
    assert(m3.subrange(src + h, src_mut + a) =~= m3.subrange(src + h, src_mut) + m3.subrange(
        src_mut,
        src_mut + a,
    ));
    assert(fields_image(t, m0, rest, src_mut, dst_mut, depth) == fwd_image(
        t,
        m0,
        tys[i],
        src_mut,
        dst_mut,
        depth,
    ) + fields_image(t, m0, rest.drop_first(), src_mut + a, dst_mut + a, depth));
    assert(m3.subrange(src + h, src_mut + a) + fields_image(
        t,
        m0,
        tys.skip(i + 1),
        src_mut + a,
        dst_mut + a,
        depth,
    ) =~= before.subrange(src + h, src_mut) + fields_image(t, m0, tys.skip(i), src_mut, dst_mut, depth));
}

/// When the copy of a constructor's child ends at a cauterized write cursor,
/// the constructor's copy ends there too: no later child is visited, the
/// result is the cauterized one, and the state is what the child left.
pub proof fn lemma_cauterized_child_stops(
    t: Map<Datatype, DatatypeSpec>,
    st: CopyState,
    tys: Seq<Datatype>,
    i: int,
    s: u64,
    d: u64,
    e: u64,
    tag: PackedTag,
    depth: nat,
)
    requires
        0 <= i < tys.len(),
        depth > 0,
        copy_spec(t, st, tys[i], s, d, e, (depth - 1) as nat).0 matches Some((_, _, _, ft)) && ft
            == Some(CAUTERIZED_TAG),
    ensures
        fields_spec(t, st, tys, i, s, d, e, tag, depth) == (
            Some((0u64, 0u64, 0u64, Some(CAUTERIZED_TAG))),
            copy_spec(t, st, tys[i], s, d, e, (depth - 1) as nat).1,
        ),
{
}

/// A cauterized write cursor met at `src` points its frame at `src` and ends
/// the copy; nothing else changes.
pub proof fn lemma_cauterized_cursor_met(
    t: Map<Datatype, DatatypeSpec>,
    st: CopyState,
    dt: Datatype,
    src: u64,
    dst: u64,
    dst_end: u64,
    depth: nat,
)
    requires
        depth > 0,
        t.contains_key(dt),
        t[dt] is Packed,
        in_range(st.mem.len() as int, src as int, 9),
        st.mem[src as int] == CAUTERIZED_TAG,
        in_range(st.mem.len() as int, u64_at(st.mem, src + 1) as int, 8),
    ensures
        copy_spec(t, st, dt, src, dst, dst_end, depth) == (
            Some((0u64, 0u64, 0u64, Some(CAUTERIZED_TAG))),
            CopyState {
                mem: overwrite(st.mem, u64_at(st.mem, src + 1) as int, u64_bytes(src)),
                ..st
            },
        ),
        u64_at(copy_spec(t, st, dt, src, dst, dst_end, depth).1.mem, u64_at(st.mem, src + 1) as int)
            == src,
{
    crate::cursor::lemma_u64_round_trip(st.mem, u64_at(st.mem, src + 1) as int, src);
}

} // verus!
