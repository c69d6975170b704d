use vstd::prelude::*;
use crate::error::RtsError;
use crate::cursor::{read_u64, read_u32, write_u64, u64_at, u32_at, u64_bytes, overwrite, in_range};
use crate::info_table::Datatype;

verus! {

/// Bytes per frame: an 8-byte pointer followed by a 4-byte datatype.
pub const FRAME_SIZE: u64 = 12;

/// The bounds of one shadow stack's buffer and its first free byte.
#[derive(Debug, Clone, Copy, PartialEq, Eq)]
pub struct Shadowstack {
    pub start: u64,
    pub end: u64,
    pub alloc_ptr: u64,
}

impl Shadowstack {
    /// The live frames fill `start..alloc_ptr` exactly.
    pub open spec fn wf(&self) -> bool {
        &&& self.start <= self.alloc_ptr <= self.end
        &&& (self.alloc_ptr - self.start) % (FRAME_SIZE as int) == 0
    }

    /// Number of live frames.
    pub open spec fn len(&self) -> int {
        (self.alloc_ptr - self.start) / (FRAME_SIZE as int)
    }

    /// Address of the `i`-th frame, oldest first.
    pub open spec fn frame_addr(&self, i: int) -> int {
        self.start + i * FRAME_SIZE
    }
}

/// Read cursors and write cursors are kept on separate stacks.
#[derive(Debug, Clone, Copy, PartialEq, Eq)]
pub enum ShadowstackModality {
    Read,
    Write,
}

/// The cursor pointer of the frame at `f`.
pub open spec fn frame_ptr_at(m: Seq<u8>, f: int) -> u64 {
    u64_at(m, f)
}

/// The datatype of the frame at `f`.
pub open spec fn frame_datatype_at(m: Seq<u8>, f: int) -> Datatype {
    u32_at(m, f + 8)
}

/// A frame as stored on the stack.
#[derive(Debug, Clone, Copy, PartialEq, Eq)]
pub struct ShadowstackFrame {
    pub ptr: u64,
    pub datatype: Datatype,
}

/// Reads the frame at `f`.
pub fn read_frame(m: &Vec<u8>, f: u64) -> (r: Result<ShadowstackFrame, RtsError>)
    ensures
        in_range(m@.len() as int, f as int, FRAME_SIZE as int) ==> r == Ok::<
            ShadowstackFrame,
            RtsError,
        >(ShadowstackFrame { ptr: frame_ptr_at(m@, f as int), datatype: frame_datatype_at(m@, f as int) }),
        !in_range(m@.len() as int, f as int, FRAME_SIZE as int) ==> r is Err,
{
    if f > m.len() as u64 || m.len() as u64 - f < FRAME_SIZE {
        return Err(crate::cursor::out_of_range());
    }
    let ptr = read_u64(m, f)?;
    let datatype = read_u32(m, f + 8)?;
    Ok(ShadowstackFrame { ptr, datatype })
}

/// Points the frame at `f` to `p`.
pub fn set_frame_ptr(m: &mut Vec<u8>, f: u64, p: u64) -> (r: Result<(), RtsError>)
    ensures
        in_range(old(m)@.len() as int, f as int, 8) ==> r is Ok && final(m)@ == overwrite(
            old(m)@,
            f as int,
            u64_bytes(p),
        ),
        !in_range(old(m)@.len() as int, f as int, 8) ==> r is Err && final(m)@ == old(m)@,
{
    write_u64(m, f, p)
}

/// Walks the frames of one stack, oldest first, yielding their addresses.
pub struct ShadowstackIter {
    pub run_ptr: u64,
    pub end_ptr: u64,
}

impl ShadowstackIter {
    /// An iterator over the frames of `s`.
    pub fn new(s: &Shadowstack) -> (r: ShadowstackIter)
        ensures
            r.run_ptr == s.start,
            r.end_ptr == s.alloc_ptr,
    {
        ShadowstackIter { run_ptr: s.start, end_ptr: s.alloc_ptr }
    }

    /// The address of the next frame, if any is left.
    pub fn next(&mut self) -> (r: Option<u64>)
        ensures
            old(self).run_ptr < old(self).end_ptr && old(self).run_ptr + FRAME_SIZE <= u64::MAX
                ==> r == Some(old(self).run_ptr) && final(self).run_ptr == old(self).run_ptr
                + FRAME_SIZE && final(self).end_ptr == old(self).end_ptr,
            !(old(self).run_ptr < old(self).end_ptr && old(self).run_ptr + FRAME_SIZE <= u64::MAX)
                ==> r is None && *final(self) == *old(self),
    {
        if self.run_ptr < self.end_ptr && self.run_ptr <= u64::MAX - FRAME_SIZE {
            let f = self.run_ptr;
            self.run_ptr = self.run_ptr + FRAME_SIZE;
            Some(f)
        } else {
            None
        }
    }
}

/// Number of frames on the stack.
pub fn shadowstack_length(s: &Shadowstack) -> (r: u64)
    requires
        s.wf(),
    ensures
        r == s.len(),
{
    (s.alloc_ptr - s.start) / FRAME_SIZE
}

/// All frames of the stack, oldest first.
pub fn shadowstack_frames(m: &Vec<u8>, s: &Shadowstack) -> (r: Result<Vec<ShadowstackFrame>, RtsError>)
    requires
        s.wf(),
    ensures
        r is Ok <==> (s.len() == 0 || in_range(m@.len() as int, s.start as int, s.len() * FRAME_SIZE)),
        r matches Ok(v) ==> v@.len() == s.len() && forall|i: int|
            0 <= i < s.len() ==> #[trigger] v@[i] == (ShadowstackFrame {
                ptr: frame_ptr_at(m@, s.frame_addr(i)),
                datatype: frame_datatype_at(m@, s.frame_addr(i)),
            }),
{
    let n = shadowstack_length(s);
    let mut v: Vec<ShadowstackFrame> = Vec::new();
    let mut i: u64 = 0;
    while i < n
        invariant
            s.wf(),
            n == s.len(),
            i <= n,
            v@.len() == i,
            forall|k: int|
                0 <= k < i ==> #[trigger] v@[k] == (ShadowstackFrame {
                    ptr: frame_ptr_at(m@, s.frame_addr(k)),
                    datatype: frame_datatype_at(m@, s.frame_addr(k)),
                }),
            i > 0 ==> in_range(m@.len() as int, s.start as int, i * FRAME_SIZE),
        decreases n - i,
    {
        assert(i * FRAME_SIZE + FRAME_SIZE <= n * FRAME_SIZE <= s.alloc_ptr - s.start) by (nonlinear_arith)
            requires
                i < n,
                n == (s.alloc_ptr - s.start) / 12,
                FRAME_SIZE == 12,
        ;
        let f = s.start + i * FRAME_SIZE;
        match read_frame(m, f) {
            Ok(fr) => {
                v.push(fr);
            },
            Err(e) => {
                assert(i == 0 || !in_range(m@.len() as int, s.start as int, n * FRAME_SIZE)) by (nonlinear_arith)
                    requires
                        !in_range(m@.len() as int, f as int, 12),
                        f == s.start + i * 12,
                        FRAME_SIZE == 12,
                        i < n,
                ;
                return Err(e);
            },
        }
        i = i + 1;
    }
    Ok(v)
}

} // verus!
