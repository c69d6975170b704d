//! Values built from scalars and registered constructors alone: their size,
//! and the facts that make copying them byte for byte sound.

use vstd::prelude::*;
use crate::cursor::in_range;
use crate::info_table::{Datatype, PackedTag, DatatypeSpec, COPIED_TAG};
use crate::gc::CONSTRUCTOR_RESERVE;
use crate::evacuate::forwarding;

verus! {

/// The size of the value of type `dt` at `pos` when it is built from scalars
/// and registered constructors alone (no link or collector tag anywhere),
/// nested at most `depth` deep; `None` for any other value.
pub open spec fn plain_size(
    t: Map<Datatype, DatatypeSpec>,
    m: Seq<u8>,
    dt: Datatype,
    pos: int,
    depth: nat,
) -> Option<int>
    decreases depth, 1nat, 0nat,
{
    if depth == 0 || !t.contains_key(dt) {
        None
    } else {
        match t[dt] {
            DatatypeSpec::Scalar(w) => if in_range(m.len() as int, pos, w as int) {
                Some(w as int)
            } else {
                None
            },
            DatatypeSpec::Packed(dcons) => {
                if !in_range(m.len() as int, pos, 1) || m[pos] >= COPIED_TAG || !dcons.contains_key(
                    m[pos],
                ) {
                    None
                } else {
                    let c = dcons[m[pos]];
                    let h = 1 + c.scalar_bytes as int;
                    if !in_range(m.len() as int, pos, h) {
                        None
                    } else {
                        match plain_fields_size(t, m, c.field_tys, pos + h, (depth - 1) as nat) {
                            Some(k) => Some(h + k),
                            None => None,
                        }
                    }
                }
            },
        }
    }
}

/// The total size of plain values of types `tys`, laid out one after the
/// other from `pos`.
pub open spec fn plain_fields_size(
    t: Map<Datatype, DatatypeSpec>,
    m: Seq<u8>,
    tys: Seq<Datatype>,
    pos: int,
    depth: nat,
) -> Option<int>
    decreases depth, 2nat, tys.len(),
{
    if tys.len() == 0 {
        Some(0)
    } else {
        match plain_size(t, m, tys[0], pos, depth) {
            Some(a) => match plain_fields_size(t, m, tys.drop_first(), pos + a, depth) {
                Some(b) => Some(a + b),
                None => None,
            },
            None => None,
        }
    }
}

/// The tag `copy_packed` reports for a plain value: none for a scalar.
pub open spec fn plain_tag(t: Map<Datatype, DatatypeSpec>, m: Seq<u8>, dt: Datatype, pos: int) -> Option<
    PackedTag,
> {
    if t[dt] is Scalar {
        None
    } else {
        Some(m[pos])
    }
}

/// `m1` differs from `m0` only inside `[a, a+n)` and `[b, b+k)`.
pub open spec fn changed_only(m0: Seq<u8>, m1: Seq<u8>, a: int, n: int, b: int, k: int) -> bool {
    &&& m1.len() == m0.len()
    &&& forall|i: int|
        0 <= i < m0.len() && !(a <= i < a + n) && !(b <= i < b + k) ==> #[trigger] m1[i] == m0[i]
}

/// A plain value lies inside memory and has a non-negative size.
pub proof fn lemma_plain_bounds(
    t: Map<Datatype, DatatypeSpec>,
    m: Seq<u8>,
    dt: Datatype,
    pos: int,
    depth: nat,
)
    ensures
        plain_size(t, m, dt, pos, depth) matches Some(n) ==> 0 <= n && in_range(
            m.len() as int,
            pos,
            n,
        ),
    decreases depth, 1nat, 0nat,
{
    if depth > 0 && t.contains_key(dt) {
        if let DatatypeSpec::Packed(dcons) = t[dt] {
            if in_range(m.len() as int, pos, 1) && m[pos] < COPIED_TAG && dcons.contains_key(m[pos]) {
                let c = dcons[m[pos]];
                let h = 1 + c.scalar_bytes as int;
                lemma_plain_fields_bounds(t, m, c.field_tys, pos + h, (depth - 1) as nat);
            }
        }
    }
}

/// Plain fields lie inside memory and have a non-negative total size.
pub proof fn lemma_plain_fields_bounds(
    t: Map<Datatype, DatatypeSpec>,
    m: Seq<u8>,
    tys: Seq<Datatype>,
    pos: int,
    depth: nat,
)
    ensures
        plain_fields_size(t, m, tys, pos, depth) matches Some(n) ==> 0 <= n && (n > 0 ==> in_range(
            m.len() as int,
            pos,
            n,
        )),
    decreases depth, 2nat, tys.len(),
{
    if tys.len() > 0 {
        lemma_plain_bounds(t, m, tys[0], pos, depth);
        if let Some(a) = plain_size(t, m, tys[0], pos, depth) {
            lemma_plain_fields_bounds(t, m, tys.drop_first(), pos + a, depth);
        }
    }
}

/// The size of a plain value depends only on its own bytes.
pub proof fn lemma_plain_frame(
    t: Map<Datatype, DatatypeSpec>,
    m: Seq<u8>,
    m2: Seq<u8>,
    dt: Datatype,
    pos: int,
    depth: nat,
)
    requires
        m2.len() == m.len(),
        plain_size(t, m, dt, pos, depth) is Some,
        forall|i: int|
            pos <= i < pos + plain_size(t, m, dt, pos, depth)->Some_0 ==> #[trigger] m2[i] == m[i],
    ensures
        plain_size(t, m2, dt, pos, depth) == plain_size(t, m, dt, pos, depth),
    decreases depth, 1nat, 0nat,
{
    lemma_plain_bounds(t, m, dt, pos, depth);
    if let DatatypeSpec::Packed(dcons) = t[dt] {
        let c = dcons[m[pos]];
        let h = 1 + c.scalar_bytes as int;
        lemma_plain_fields_bounds(t, m, c.field_tys, pos + h, (depth - 1) as nat);
        assert(m2[pos] == m[pos]);
        lemma_plain_fields_frame(t, m, m2, c.field_tys, pos + h, (depth - 1) as nat);
    }
}

/// The total size of plain fields depends only on their own bytes.
pub proof fn lemma_plain_fields_frame(
    t: Map<Datatype, DatatypeSpec>,
    m: Seq<u8>,
    m2: Seq<u8>,
    tys: Seq<Datatype>,
    pos: int,
    depth: nat,
)
    requires
        m2.len() == m.len(),
        plain_fields_size(t, m, tys, pos, depth) is Some,
        forall|i: int|
            pos <= i < pos + plain_fields_size(t, m, tys, pos, depth)->Some_0 ==> #[trigger] m2[i]
                == m[i],
    ensures
        plain_fields_size(t, m2, tys, pos, depth) == plain_fields_size(t, m, tys, pos, depth),
    decreases depth, 2nat, tys.len(),
{
    if tys.len() > 0 {
        let a = plain_size(t, m, tys[0], pos, depth)->Some_0;
        lemma_plain_bounds(t, m, tys[0], pos, depth);
        lemma_plain_fields_bounds(t, m, tys.drop_first(), pos + a, depth);
        lemma_plain_frame(t, m, m2, tys[0], pos, depth);
        lemma_plain_fields_frame(t, m, m2, tys.drop_first(), pos + a, depth);
    }
}

/// Room to copy a plain value of `n` bytes from `src` to `dst` without a new
/// chunk, with source and destination apart.
pub open spec fn plain_fits(len: int, src: u64, dst: u64, dst_end: u64, n: int) -> bool {
    &&& in_range(len, dst as int, n)
    &&& dst + n + CONSTRUCTOR_RESERVE <= dst_end
    &&& (src + n <= dst || dst + n <= src)
}

/// The intervals `[a, a+n)` and `[b, b+k)` do not meet.
pub open spec fn apart(a: int, n: int, b: int, k: int) -> bool {
    a + n <= b || b + k <= a
}

/// Equal bytes one by one make equal intervals.
pub(crate) proof fn lemma_same_bytes(m0: Seq<u8>, m1: Seq<u8>, src: int, dst: int, n: int)
    requires
        0 <= n,
        0 <= src && src + n <= m0.len(),
        0 <= dst && dst + n <= m1.len(),
        forall|j: int| 0 <= j < n ==> #[trigger] m1[dst + j] == m0[src + j],
    ensures
        m1.subrange(dst, dst + n) == m0.subrange(src, src + n),
{
    assert forall|j: int| 0 <= j < n implies #[trigger] m1.subrange(dst, dst + n)[j] == m0.subrange(src, src + n)[j] by {
        assert(m1[dst + j] == m0[src + j]);
    }
    assert(m1.subrange(dst, dst + n) =~= m0.subrange(src, src + n));
}

/// A plain value's shape depends on its bytes, not on where they stand.
pub proof fn lemma_plain_shift(
    t: Map<Datatype, DatatypeSpec>,
    m: Seq<u8>,
    m2: Seq<u8>,
    dt: Datatype,
    pos: int,
    pos2: int,
    depth: nat,
)
    requires
        plain_size(t, m, dt, pos, depth) is Some,
        0 <= pos2,
        pos2 + plain_size(t, m, dt, pos, depth)->Some_0 <= m2.len(),
        forall|j: int|
            0 <= j < plain_size(t, m, dt, pos, depth)->Some_0 ==> #[trigger] m2[pos2 + j] == m[pos
                + j],
    ensures
        plain_size(t, m2, dt, pos2, depth) == plain_size(t, m, dt, pos, depth),
    decreases depth, 1nat, 0nat,
{
    lemma_plain_bounds(t, m, dt, pos, depth);
    if let DatatypeSpec::Packed(dcons) = t[dt] {
        let c = dcons[m[pos]];
        let h = 1 + c.scalar_bytes as int;
        lemma_plain_fields_bounds(t, m, c.field_tys, pos + h, (depth - 1) as nat);
        assert(m2[pos2 + 0] == m[pos + 0]);
        let k = plain_fields_size(t, m, c.field_tys, pos + h, (depth - 1) as nat)->Some_0;
        assert forall|j: int| 0 <= j < k implies #[trigger] m2[pos2 + h + j] == m[pos + h + j] by {
            assert(m2[pos2 + (h + j)] == m[pos + (h + j)]);
        }
        lemma_plain_fields_shift(t, m, m2, c.field_tys, pos + h, pos2 + h, (depth - 1) as nat);
    }
}

/// Plain fields' shapes depend on their bytes, not on where they stand.
pub proof fn lemma_plain_fields_shift(
    t: Map<Datatype, DatatypeSpec>,
    m: Seq<u8>,
    m2: Seq<u8>,
    tys: Seq<Datatype>,
    pos: int,
    pos2: int,
    depth: nat,
)
    requires
        plain_fields_size(t, m, tys, pos, depth) is Some,
        0 <= pos2,
        pos2 + plain_fields_size(t, m, tys, pos, depth)->Some_0 <= m2.len(),
        forall|j: int|
            0 <= j < plain_fields_size(t, m, tys, pos, depth)->Some_0 ==> #[trigger] m2[pos2 + j]
                == m[pos + j],
    ensures
        plain_fields_size(t, m2, tys, pos2, depth) == plain_fields_size(t, m, tys, pos, depth),
    decreases depth, 2nat, tys.len(),
{
    if tys.len() > 0 {
        let a = plain_size(t, m, tys[0], pos, depth)->Some_0;
        lemma_plain_bounds(t, m, tys[0], pos, depth);
        lemma_plain_fields_bounds(t, m, tys.drop_first(), pos + a, depth);
        let b = plain_fields_size(t, m, tys.drop_first(), pos + a, depth)->Some_0;
        lemma_plain_shift(t, m, m2, tys[0], pos, pos2, depth);
        assert forall|j: int| 0 <= j < b implies #[trigger] m2[pos2 + a + j] == m[pos + a + j] by {
            assert(m2[pos2 + (a + j)] == m[pos + (a + j)]);
        }
        lemma_plain_fields_shift(t, m, m2, tys.drop_first(), pos + a, pos2 + a, depth);
    }
}

/// The copy of a plain value is a plain value of the same type and size,
/// made of the same bytes: decoding it gives what decoding the source gave.
pub proof fn lemma_plain_copy_same_value(
    t: Map<Datatype, DatatypeSpec>,
    m: Seq<u8>,
    m2: Seq<u8>,
    dt: Datatype,
    src: int,
    dst: int,
    depth: nat,
)
    requires
        plain_size(t, m, dt, src, depth) is Some,
        0 <= dst,
        dst + plain_size(t, m, dt, src, depth)->Some_0 <= m2.len(),
        m2.subrange(dst, dst + plain_size(t, m, dt, src, depth)->Some_0) == m.subrange(
            src,
            src + plain_size(t, m, dt, src, depth)->Some_0,
        ),
    ensures
        plain_size(t, m2, dt, dst, depth) == plain_size(t, m, dt, src, depth),
{
    let n = plain_size(t, m, dt, src, depth)->Some_0;
    lemma_plain_bounds(t, m, dt, src, depth);
    assert forall|j: int| 0 <= j < n implies #[trigger] m2[dst + j] == m[src + j] by {
        assert(m2.subrange(dst, dst + n)[j] == m.subrange(src, src + n)[j]);
    }
    lemma_plain_shift(t, m, m2, dt, src, dst, depth);
}

/// What the source bytes of a plain value at `pos` become once it was
/// evacuated to `d`: each constructor header is covered by its forwarding
/// bytes, and scalars stay as they were.
pub open spec fn fwd_image(
    t: Map<Datatype, DatatypeSpec>,
    m: Seq<u8>,
    dt: Datatype,
    pos: int,
    d: int,
    depth: nat,
) -> Seq<u8>
    decreases depth, 1nat, 0nat,
{
    if plain_size(t, m, dt, pos, depth) is None {
        Seq::empty()
    } else {
        match t[dt] {
            DatatypeSpec::Scalar(w) => m.subrange(pos, pos + w),
            DatatypeSpec::Packed(dcons) => {
                let c = dcons[m[pos]];
                let h = 1 + c.scalar_bytes as int;
                forwarding(c.scalar_bytes as int, d as u64) + fields_image(
                    t,
                    m,
                    c.field_tys,
                    pos + h,
                    d + h,
                    (depth - 1) as nat,
                )
            },
        }
    }
}

/// The evacuated source bytes of plain values of types `tys` laid out from `pos`.
pub open spec fn fields_image(
    t: Map<Datatype, DatatypeSpec>,
    m: Seq<u8>,
    tys: Seq<Datatype>,
    pos: int,
    d: int,
    depth: nat,
) -> Seq<u8>
    decreases depth, 2nat, tys.len(),
{
    if tys.len() == 0 || plain_size(t, m, tys[0], pos, depth) is None {
        Seq::empty()
    } else {
        let a = plain_size(t, m, tys[0], pos, depth)->Some_0;
        fwd_image(t, m, tys[0], pos, d, depth) + fields_image(
            t,
            m,
            tys.drop_first(),
            pos + a,
            d + a,
            depth,
        )
    }
}

/// The image has the value's size, and depends only on the value's bytes.
pub proof fn lemma_image(
    t: Map<Datatype, DatatypeSpec>,
    m: Seq<u8>,
    m2: Seq<u8>,
    dt: Datatype,
    pos: int,
    d: int,
    depth: nat,
)
    requires
        plain_size(t, m, dt, pos, depth) is Some,
        m2.len() == m.len(),
        forall|i: int|
            pos <= i < pos + plain_size(t, m, dt, pos, depth)->Some_0 ==> #[trigger] m2[i] == m[i],
    ensures
        fwd_image(t, m, dt, pos, d, depth).len() == plain_size(t, m, dt, pos, depth)->Some_0,
        fwd_image(t, m2, dt, pos, d, depth) == fwd_image(t, m, dt, pos, d, depth),
    decreases depth, 1nat, 0nat,
{
    lemma_plain_bounds(t, m, dt, pos, depth);
    lemma_plain_frame(t, m, m2, dt, pos, depth);
    if let DatatypeSpec::Packed(dcons) = t[dt] {
        let c = dcons[m[pos]];
        let h = 1 + c.scalar_bytes as int;
        lemma_plain_fields_bounds(t, m, c.field_tys, pos + h, (depth - 1) as nat);
        assert(m2[pos] == m[pos]);
        lemma_fields_image(t, m, m2, c.field_tys, pos + h, d + h, (depth - 1) as nat);
    } else {
        assert(fwd_image(t, m2, dt, pos, d, depth) =~= fwd_image(t, m, dt, pos, d, depth));
    }
}

/// The fields' image has their total size, and depends only on their bytes.
pub proof fn lemma_fields_image(
    t: Map<Datatype, DatatypeSpec>,
    m: Seq<u8>,
    m2: Seq<u8>,
    tys: Seq<Datatype>,
    pos: int,
    d: int,
    depth: nat,
)
    requires
        plain_fields_size(t, m, tys, pos, depth) is Some,
        m2.len() == m.len(),
        forall|i: int|
            pos <= i < pos + plain_fields_size(t, m, tys, pos, depth)->Some_0 ==> #[trigger] m2[i]
                == m[i],
    ensures
        fields_image(t, m, tys, pos, d, depth).len() == plain_fields_size(t, m, tys, pos, depth)->Some_0,
        fields_image(t, m2, tys, pos, d, depth) == fields_image(t, m, tys, pos, d, depth),
    decreases depth, 2nat, tys.len(),
{
    lemma_plain_fields_frame(t, m, m2, tys, pos, depth);
    if tys.len() > 0 {
        let a = plain_size(t, m, tys[0], pos, depth)->Some_0;
        lemma_plain_bounds(t, m, tys[0], pos, depth);
        lemma_plain_fields_bounds(t, m, tys.drop_first(), pos + a, depth);
        lemma_plain_frame(t, m, m2, tys[0], pos, depth);
        lemma_image(t, m, m2, tys[0], pos, d, depth);
        lemma_fields_image(t, m, m2, tys.drop_first(), pos + a, d + a, depth);
    }
}

} // verus!
