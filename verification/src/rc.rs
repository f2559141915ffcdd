//! Checks for shared and weak pointers inside a byte buffer.
//!
//! A value is described by a shape: a leaf of one byte whose value must lie
//! below a limit, a shared pointer, or a weak pointer. A shared pointer is
//! four bytes, the little-endian signed distance from the pointer's own
//! position to its target. A weak pointer is one tag byte, `0` for none and
//! `1` for some, followed by a shared pointer when the tag is `1`; the
//! pointer lies at its natural alignment, the next multiple of four. The type
//! of a target is an index into a list of shapes. A context records which
//! targets have been claimed for which type, so that a target reached
//! through several pointers, or through itself, is checked once.

use vstd::prelude::*;

verus! {

/// Size in bytes of a stored shared pointer.
pub const POINTER_SIZE: usize = 4;

/// Tag of a weak pointer that points nowhere.
pub const TAG_NONE: u8 = 0;

/// Tag of a weak pointer that holds a shared pointer.
pub const TAG_SOME: u8 = 1;

/// Errors that can occur while checking a shared pointer.
#[derive(Debug, PartialEq, Eq, Clone, Copy)]
pub enum SharedPointerError<T, R, C> {
    /// The pointer does not keep its target inside the buffer.
    PointerCheckBytesError(T),
    /// The bytes of the target are not a valid value.
    ValueCheckBytesError(R),
    /// The context refused the pointer's own bytes.
    ContextError(C),
}

/// Errors that can occur while checking a weak pointer.
#[derive(Debug, PartialEq, Eq, Clone, Copy)]
pub enum WeakPointerError<T, R, C> {
    /// The tag byte is neither `TAG_NONE` nor `TAG_SOME`.
    InvalidTag(u8),
    /// The shared pointer behind the tag failed its check.
    CheckBytes(SharedPointerError<T, R, C>),
}

/// A range of bytes that does not lie inside the valid extent.
#[derive(Debug, PartialEq, Eq, Clone, Copy)]
pub struct BoundsError {
    pub offset: usize,
    pub len: usize,
}

/// A pointer whose target does not lie inside the valid extent.
#[derive(Debug, PartialEq, Eq, Clone, Copy)]
pub struct PointerError {
    pub position: usize,
    pub offset: i32,
}

/// Why the bytes of a value were refused: the innermost check that failed,
/// with the place where it failed.
#[derive(Debug, PartialEq, Eq, Clone, Copy)]
pub enum ValueError {
    /// A leaf byte at or above its limit.
    Byte { offset: usize, byte: u8 },
    /// A weak pointer's tag that is neither none nor some.
    Tag { offset: usize, tag: u8 },
    /// A pointer that leaves the valid extent.
    Pointer(PointerError),
    /// Bytes of the value that lie outside the valid extent.
    Bounds(BoundsError),
}

/// The error of a shared-pointer check in this library.
pub type SharedError = SharedPointerError<PointerError, ValueError, BoundsError>;

/// The error of a weak-pointer check in this library.
pub type WeakError = WeakPointerError<PointerError, ValueError, BoundsError>;

/// What lies at a position.
#[derive(Debug, PartialEq, Eq, Clone, Copy)]
pub enum Shape {
    /// One byte that must be below the limit.
    Leaf(u8),
    /// A shared pointer to a value of the type with this index.
    Shared(usize),
    /// A weak pointer to a value of the type with this index.
    Weak(usize),
}

/// Every pointer shape names a type of the list.
pub open spec fn schema_ok(types: Seq<Shape>) -> bool {
    forall|t: int|
        0 <= t < types.len() ==> match #[trigger] types[t] {
            Shape::Leaf(_) => true,
            Shape::Shared(target) => target < types.len(),
            Shape::Weak(target) => target < types.len(),
        }
}

/// Number of unclaimed slots among the first `n`.
pub open spec fn unclaimed(claims: Seq<bool>, n: int) -> int
    decreases n,
{
    if n <= 0 {
        0
    } else {
        unclaimed(claims, n - 1) + if claims[n - 1] {
            0int
        } else {
            1int
        }
    }
}

/// The slot of a target of type `type_id` at `offset`.
pub open spec fn slot(extent: int, type_id: int, offset: int) -> int {
    type_id * extent + offset
}

/// Claiming an unclaimed slot leaves one unclaimed slot fewer.
pub proof fn lemma_claim_counts(claims: Seq<bool>, i: int, n: int)
    requires
        0 <= i < claims.len(),
        0 <= n <= claims.len(),
        !claims[i],
    ensures
        unclaimed(claims.update(i, true), n) == unclaimed(claims, n) - if i < n {
            1int
        } else {
            0int
        },
        unclaimed(claims, n) >= if i < n {
            1int
        } else {
            0int
        },
    decreases n,
{
    if n > 0 {
        lemma_claim_counts(claims, i, n - 1);
    }
}

/// The state of one validation pass: the valid extent of the buffer, the
/// number of types, and for each type and offset whether the target there
/// has been claimed.
pub struct ArchiveContext {
    extent: usize,
    kinds: usize,
    claimed: Vec<bool>,
}

impl ArchiveContext {
    /// The number of leading bytes that may be read.
    pub closed spec fn extent(&self) -> usize {
        self.extent
    }

    /// The number of types that targets can have.
    pub closed spec fn kinds(&self) -> usize {
        self.kinds
    }

    /// The claims, one slot for each type and offset.
    pub closed spec fn claims(&self) -> Seq<bool> {
        self.claimed@
    }

    /// There is one slot for each type and offset.
    pub open spec fn wf(&self) -> bool {
        self.claims().len() == self.kinds() * self.extent()
    }

    /// Whether the target at `offset` has been claimed for `type_id`.
    pub open spec fn is_claimed(&self, type_id: usize, offset: usize) -> bool {
        self.claims()[slot(self.extent() as int, type_id as int, offset as int)]
    }

    /// A context for a buffer of `extent` bytes and `kinds` types, with
    /// nothing claimed; none where the claims would not fit the machine.
    pub fn new(extent: usize, kinds: usize) -> (c: Option<ArchiveContext>)
        ensures
            c is Some == (kinds * extent <= usize::MAX),
            c is Some ==> c.unwrap().wf() && c.unwrap().extent() == extent && c.unwrap().kinds()
                == kinds && forall|i: int|
                0 <= i < c.unwrap().claims().len() ==> !c.unwrap().claims()[i],
    {
        proof {
            assert(kinds * extent <= 0xffff_ffff_ffff_ffff * 0xffff_ffff_ffff_ffff)
                by (nonlinear_arith)
                requires
                    0 <= kinds <= 0xffff_ffff_ffff_ffff,
                    0 <= extent <= 0xffff_ffff_ffff_ffff,
            ;
        }
        let wide: u128 = (kinds as u128) * (extent as u128);
        if wide > usize::MAX as u128 {
            return None;
        }
        let total: usize = wide as usize;
        let mut claimed: Vec<bool> = Vec::new();
        let mut i: usize = 0;
        while i < total
            invariant
                i <= total,
                claimed.len() == i,
                forall|j: int| 0 <= j < i ==> !claimed@[j],
            decreases total - i,
        {
            claimed.push(false);
            i += 1;
        }
        Some(ArchiveContext { extent, kinds, claimed })
    }

    /// Whether the `len` bytes from `offset` lie inside the valid extent.
    pub fn in_bounds(&self, offset: usize, len: usize) -> (r: bool)
        ensures
            r == (offset + len <= self.extent()),
    {
        offset <= self.extent && len <= self.extent - offset
    }

    /// Claims the target at `offset` for `type_id` and says whether it had
    /// been claimed before.
    pub fn claim(&mut self, type_id: usize, offset: usize) -> (was_claimed: bool)
        requires
            old(self).wf(),
            type_id < old(self).kinds(),
            offset < old(self).extent(),
        ensures
            was_claimed == old(self).is_claimed(type_id, offset),
            final(self).wf(),
            final(self).extent() == old(self).extent(),
            final(self).kinds() == old(self).kinds(),
            0 <= slot(old(self).extent() as int, type_id as int, offset as int) < old(
                self,
            ).claims().len(),
            final(self).claims() == old(self).claims().update(
                slot(old(self).extent() as int, type_id as int, offset as int),
                true,
            ),
    {
        proof {
            lemma_slot_in_range(
                self.extent as int,
                self.kinds as int,
                type_id as int,
                offset as int,
            );
        }
        assert(type_id * self.extent + offset < self.claimed.len());
        let at: usize = type_id * self.extent + offset;
        let was = self.claimed[at];
        self.claimed.set(at, true);
        proof {
            if was {
                assert(self.claimed@ =~= old(self).claimed@);
            }
        }
        was
    }
}

/// The slot of a type and an offset of the context is one of its slots.
pub proof fn lemma_slot_in_range(extent: int, kinds: int, type_id: int, offset: int)
    requires
        0 <= type_id < kinds,
        0 <= offset < extent,
    ensures
        0 <= type_id * extent <= slot(extent, type_id, offset) < kinds * extent,
{
    assert(0 <= type_id * extent) by (nonlinear_arith)
        requires
            0 <= type_id,
            0 <= extent,
    ;
    assert(type_id * extent + extent <= kinds * extent) by (nonlinear_arith)
        requires
            type_id + 1 <= kinds,
            0 <= extent,
    ;
}

/// The bytes of the buffer that may be read under the context.
pub open spec fn valid_extent(buf: Seq<u8>, ctx: ArchiveContext) -> int {
    if ctx.extent() < buf.len() {
        ctx.extent() as int
    } else {
        buf.len() as int
    }
}

/// The signed distance stored in the four bytes at `pos`.
pub open spec fn spec_offset(buf: Seq<u8>, pos: int) -> i32 {
    ((buf[pos] as u32) | ((buf[pos + 1] as u32) << 8) | ((buf[pos + 2] as u32) << 16) | ((buf[pos
        + 3] as u32) << 24)) as i32
}

fn read_offset(buf: &Vec<u8>, pos: usize) -> (r: i32)
    requires
        pos + 4 <= buf.len(),
    ensures
        r == spec_offset(buf@, pos as int),
{
    ((buf[pos] as u32) | ((buf[pos + 1] as u32) << 8) | ((buf[pos + 2] as u32) << 16) | ((buf[pos
        + 3] as u32) << 24)) as i32
}

/// Where the pointer at `pos` points: a context error where its own bytes
/// lie outside the extent, a pointer error where its target does.
pub open spec fn spec_locate(buf: Seq<u8>, pos: int, extent: int) -> Result<usize, SharedError> {
    if pos + 4 > extent {
        Err(
            SharedPointerError::ContextError(
                BoundsError { offset: pos as usize, len: POINTER_SIZE },
            ),
        )
    } else if pos + spec_offset(buf, pos) < 0 || pos + spec_offset(buf, pos) >= extent {
        Err(
            SharedPointerError::PointerCheckBytesError(
                PointerError { position: pos as usize, offset: spec_offset(buf, pos) },
            ),
        )
    } else {
        Ok((pos + spec_offset(buf, pos)) as usize)
    }
}

/// Reads the pointer at `pos` and checks that it stays inside the extent.
pub fn locate(buf: &Vec<u8>, pos: usize, extent: usize) -> (r: Result<usize, SharedError>)
    requires
        extent <= buf.len(),
    ensures
        r == spec_locate(buf@, pos as int, extent as int),
        r is Ok ==> r.unwrap() < extent,
{
    if pos > extent || extent - pos < 4 {
        return Err(
            SharedPointerError::ContextError(BoundsError { offset: pos, len: POINTER_SIZE }),
        );
    }
    let offset = read_offset(buf, pos);
    let target: i128 = pos as i128 + offset as i128;
    if target < 0 || target >= extent as i128 {
        return Err(
            SharedPointerError::PointerCheckBytesError(PointerError { position: pos, offset }),
        );
    }
    Ok(target as usize)
}

/// The distance from the tag of a weak pointer at `pos` to the shared
/// pointer behind it, which lies at the next multiple of four.
pub open spec fn weak_pad(pos: int) -> int {
    4 - pos % 4
}

/// The failure of a pointer inside a value, as a failure of that value.
pub open spec fn nested(e: SharedError) -> ValueError {
    match e {
        SharedPointerError::PointerCheckBytesError(p) => ValueError::Pointer(p),
        SharedPointerError::ContextError(b) => ValueError::Bounds(b),
        SharedPointerError::ValueCheckBytesError(v) => v,
    }
}

fn nest(e: SharedError) -> (v: ValueError)
    ensures
        v == nested(e),
{
    match e {
        SharedPointerError::PointerCheckBytesError(p) => ValueError::Pointer(p),
        SharedPointerError::ContextError(b) => ValueError::Bounds(b),
        SharedPointerError::ValueCheckBytesError(v) => v,
    }
}

/// What the check of one value comes to before any target is looked at: it
/// is done, or it leads on to a target of a type at an offset.
pub enum Step {
    Done(Result<(), ValueError>),
    Descend(usize, usize),
}

/// The step at a pointer to a value of type `target`.
pub open spec fn pointer_step(buf: Seq<u8>, extent: int, target: usize, pos: int) -> Step {
    match spec_locate(buf, pos, extent) {
        Ok(at) => Step::Descend(target, at),
        Err(e) => Step::Done(Err(nested(e))),
    }
}

/// The step at a value of type `ty` at `pos`.
pub open spec fn spec_step(types: Seq<Shape>, buf: Seq<u8>, extent: int, ty: int, pos: int) -> Step {
    match types[ty] {
        Shape::Leaf(limit) => if pos >= extent {
            Step::Done(Err(ValueError::Bounds(BoundsError { offset: pos as usize, len: 1 })))
        } else if buf[pos] >= limit {
            Step::Done(Err(ValueError::Byte { offset: pos as usize, byte: buf[pos] }))
        } else {
            Step::Done(Ok(()))
        },
        Shape::Shared(target) => pointer_step(buf, extent, target, pos),
        Shape::Weak(target) => if pos >= extent {
            Step::Done(Err(ValueError::Bounds(BoundsError { offset: pos as usize, len: 1 })))
        } else if buf[pos] == TAG_NONE {
            Step::Done(Ok(()))
        } else if buf[pos] == TAG_SOME {
            if pos + weak_pad(pos) > usize::MAX {
                Step::Done(
                    Err(
                        ValueError::Bounds(
                            BoundsError { offset: pos as usize, len: (weak_pad(pos) + 4) as usize },
                        ),
                    ),
                )
            } else {
                pointer_step(buf, extent, target, pos + weak_pad(pos))
            }
        } else {
            Step::Done(Err(ValueError::Tag { offset: pos as usize, tag: buf[pos] }))
        },
    }
}

fn step_pointer(buf: &Vec<u8>, extent: usize, target: usize, pos: usize) -> (s: Step)
    requires
        extent <= buf.len(),
    ensures
        s == pointer_step(buf@, extent as int, target, pos as int),
        s matches Step::Descend(_, at) ==> at < extent,
{
    match locate(buf, pos, extent) {
        Ok(at) => Step::Descend(target, at),
        Err(e) => Step::Done(Err(nest(e))),
    }
}

fn step(types: &Vec<Shape>, buf: &Vec<u8>, extent: usize, ty: usize, pos: usize) -> (s: Step)
    requires
        extent <= buf.len(),
        ty < types.len(),
        schema_ok(types@),
    ensures
        s == spec_step(types@, buf@, extent as int, ty as int, pos as int),
        s matches Step::Descend(t, at) ==> t < types.len() && at < extent,
{
    let shape = types[ty];
    match shape {
        Shape::Leaf(limit) => {
            if pos >= extent {
                Step::Done(Err(ValueError::Bounds(BoundsError { offset: pos, len: 1 })))
            } else if buf[pos] >= limit {
                Step::Done(Err(ValueError::Byte { offset: pos, byte: buf[pos] }))
            } else {
                Step::Done(Ok(()))
            }
        },
        Shape::Shared(target) => step_pointer(buf, extent, target, pos),
        Shape::Weak(target) => {
            if pos >= extent {
                Step::Done(Err(ValueError::Bounds(BoundsError { offset: pos, len: 1 })))
            } else if buf[pos] == TAG_NONE {
                Step::Done(Ok(()))
            } else if buf[pos] == TAG_SOME {
                let pad: usize = 4 - pos % 4;
                if pos > usize::MAX - pad {
                    Step::Done(Err(ValueError::Bounds(BoundsError { offset: pos, len: pad + 4 })))
                } else {
                    step_pointer(buf, extent, target, pos + pad)
                }
            } else {
                Step::Done(Err(ValueError::Tag { offset: pos, tag: buf[pos] }))
            }
        },
    }
}

/// Whether a target is to be checked now: its slot exists and is unclaimed.
pub open spec fn fresh(claims: Seq<bool>, extent: int, type_id: int, offset: int) -> bool {
    0 <= slot(extent, type_id, offset) < claims.len() && !claims[slot(extent, type_id, offset)]
}

/// The result of checking the value of type `ty` at `pos`, with the claims
/// afterwards. A pointer claims its target first and goes on to the target
/// only where that was unclaimed, so every target is checked once, however
/// many pointers lead to it.
pub open spec fn value_outcome(
    types: Seq<Shape>,
    buf: Seq<u8>,
    extent: int,
    stride: int,
    claims: Seq<bool>,
    ty: int,
    pos: int,
) -> (Result<(), ValueError>, Seq<bool>)
    decreases unclaimed(claims, claims.len() as int),
    via value_outcome_decreases
{
    match spec_step(types, buf, extent, ty, pos) {
        Step::Done(r) => (r, claims),
        Step::Descend(target, at) => if fresh(claims, stride, target as int, at as int) {
            value_outcome(
                types,
                buf,
                extent,
                stride,
                claims.update(slot(stride, target as int, at as int), true),
                target as int,
                at as int,
            )
        } else {
            (Ok(()), claims)
        },
    }
}

#[via_fn]
proof fn value_outcome_decreases(
    types: Seq<Shape>,
    buf: Seq<u8>,
    extent: int,
    stride: int,
    claims: Seq<bool>,
    ty: int,
    pos: int,
) {
    match spec_step(types, buf, extent, ty, pos) {
        Step::Done(r) => {},
        Step::Descend(target, at) => {
            if fresh(claims, stride, target as int, at as int) {
                lemma_claim_counts(
                    claims,
                    slot(stride, target as int, at as int),
                    claims.len() as int,
                );
            }
        },
    }
}

/// Checks the value of type `ty` at `pos` and every target that it leads to
/// and that has not been claimed before.
pub fn check_value(
    types: &Vec<Shape>,
    buf: &Vec<u8>,
    ty: usize,
    pos: usize,
    ctx: &mut ArchiveContext,
) -> (r: Result<(), ValueError>)
    requires
        schema_ok(types@),
        ty < types.len(),
        old(ctx).wf(),
        old(ctx).kinds() == types.len(),
    ensures
        (r, final(ctx).claims()) == value_outcome(
            types@,
            buf@,
            valid_extent(buf@, *old(ctx)),
            old(ctx).extent() as int,
            old(ctx).claims(),
            ty as int,
            pos as int,
        ),
        final(ctx).wf(),
        final(ctx).extent() == old(ctx).extent(),
        final(ctx).kinds() == old(ctx).kinds(),
    decreases unclaimed(old(ctx).claims(), old(ctx).claims().len() as int),
{
    let extent: usize = if ctx.extent < buf.len() {
        ctx.extent
    } else {
        buf.len()
    };
    match step(types, buf, extent, ty, pos) {
        Step::Done(r) => r,
        Step::Descend(target, at) => {
            let ghost before = ctx.claims();
            if ctx.claim(target, at) {
                proof {
                    assert(ctx.claims() =~= before);
                }
                Ok(())
            } else {
                proof {
                    lemma_claim_counts(
                        before,
                        slot(ctx.extent() as int, target as int, at as int),
                        before.len() as int,
                    );
                }
                check_value(types, buf, target, at, ctx)
            }
        },
    }
}

/// A shared pointer stored at `position` to a value of the type `type_id`.
#[derive(Debug, PartialEq, Eq, Clone, Copy)]
pub struct ArchivedRc {
    pub position: usize,
    pub type_id: usize,
}

/// A weak pointer stored at `position`: the tag byte, then the shared pointer
/// to a value of the type `type_id`.
#[derive(Debug, PartialEq, Eq, Clone, Copy)]
pub struct ArchivedRcWeak {
    pub position: usize,
    pub type_id: usize,
}

impl ArchivedRc {
    /// The result of the check, with the claims afterwards: the pointer's own
    /// failure, or success where the target had been claimed, or else what
    /// the check of the target comes to.
    pub open spec fn outcome(
        &self,
        types: Seq<Shape>,
        buf: Seq<u8>,
        extent: int,
        stride: int,
        claims: Seq<bool>,
    ) -> (Result<(), SharedError>, Seq<bool>) {
        match spec_locate(buf, self.position as int, extent) {
            Err(e) => (Err(e), claims),
            Ok(at) => if fresh(claims, stride, self.type_id as int, at as int) {
                let inner = value_outcome(
                    types,
                    buf,
                    extent,
                    stride,
                    claims.update(slot(stride, self.type_id as int, at as int), true),
                    self.type_id as int,
                    at as int,
                );
                match inner.0 {
                    Ok(_) => (Ok(()), inner.1),
                    Err(v) => (Err(SharedPointerError::ValueCheckBytesError(v)), inner.1),
                }
            } else {
                (Ok(()), claims)
            },
        }
    }

    /// Checks the pointer, claims its target, and checks the target unless
    /// it had been claimed before.
    pub fn check_bytes(&self, types: &Vec<Shape>, buf: &Vec<u8>, ctx: &mut ArchiveContext) -> (r:
        Result<(), SharedError>)
        requires
            schema_ok(types@),
            self.type_id < types.len(),
            old(ctx).wf(),
            old(ctx).kinds() == types.len(),
        ensures
            (r, final(ctx).claims()) == self.outcome(
                types@,
                buf@,
                valid_extent(buf@, *old(ctx)),
                old(ctx).extent() as int,
                old(ctx).claims(),
            ),
            final(ctx).wf(),
            final(ctx).extent() == old(ctx).extent(),
            final(ctx).kinds() == old(ctx).kinds(),
    {
        let extent: usize = if ctx.extent < buf.len() {
            ctx.extent
        } else {
            buf.len()
        };
        match locate(buf, self.position, extent) {
            Err(e) => Err(e),
            Ok(at) => {
                let ghost before = ctx.claims();
                if ctx.claim(self.type_id, at) {
                    proof {
                        assert(ctx.claims() =~= before);
                    }
                    Ok(())
                } else {
                    match check_value(types, buf, self.type_id, at, ctx) {
                        Ok(_) => Ok(()),
                        Err(v) => Err(SharedPointerError::ValueCheckBytesError(v)),
                    }
                }
            },
        }
    }
}

impl ArchivedRcWeak {
    /// The shared pointer behind the tag.
    pub open spec fn payload(&self) -> ArchivedRc {
        ArchivedRc {
            position: (self.position + weak_pad(self.position as int)) as usize,
            type_id: self.type_id,
        }
    }

    /// The result of the check, with the claims afterwards: the tag decides;
    /// only `TAG_SOME` leads on to the shared pointer.
    pub open spec fn outcome(
        &self,
        types: Seq<Shape>,
        buf: Seq<u8>,
        extent: int,
        stride: int,
        claims: Seq<bool>,
    ) -> (Result<(), WeakError>, Seq<bool>) {
        if self.position >= extent {
            (
                Err(
                    WeakPointerError::CheckBytes(
                        SharedPointerError::ContextError(
                            BoundsError { offset: self.position, len: 1 },
                        ),
                    ),
                ),
                claims,
            )
        } else if buf[self.position as int] == TAG_NONE {
            (Ok(()), claims)
        } else if buf[self.position as int] == TAG_SOME {
            if self.position + weak_pad(self.position as int) > usize::MAX {
                (
                    Err(
                        WeakPointerError::CheckBytes(
                            SharedPointerError::ContextError(
                                BoundsError {
                                    offset: self.position,
                                    len: (weak_pad(self.position as int) + 4) as usize,
                                },
                            ),
                        ),
                    ),
                    claims,
                )
            } else {
                let inner = self.payload().outcome(types, buf, extent, stride, claims);
                match inner.0 {
                    Ok(_) => (Ok(()), inner.1),
                    Err(e) => (Err(WeakPointerError::CheckBytes(e)), inner.1),
                }
            }
        } else {
            (Err(WeakPointerError::InvalidTag(buf[self.position as int])), claims)
        }
    }

    /// Reads the tag and, where it is `TAG_SOME`, checks the shared pointer
    /// that follows it.
    pub fn check_bytes(&self, types: &Vec<Shape>, buf: &Vec<u8>, ctx: &mut ArchiveContext) -> (r:
        Result<(), WeakError>)
        requires
            schema_ok(types@),
            self.type_id < types.len(),
            old(ctx).wf(),
            old(ctx).kinds() == types.len(),
        ensures
            (r, final(ctx).claims()) == self.outcome(
                types@,
                buf@,
                valid_extent(buf@, *old(ctx)),
                old(ctx).extent() as int,
                old(ctx).claims(),
            ),
            final(ctx).wf(),
            final(ctx).extent() == old(ctx).extent(),
            final(ctx).kinds() == old(ctx).kinds(),
    {
        let extent: usize = if ctx.extent < buf.len() {
            ctx.extent
        } else {
            buf.len()
        };
        if self.position >= extent {
            return Err(
                WeakPointerError::CheckBytes(
                    SharedPointerError::ContextError(BoundsError { offset: self.position, len: 1 }),
                ),
            );
        }
        let tag = buf[self.position];
        if tag == TAG_NONE {
            Ok(())
        } else if tag == TAG_SOME {
            let pad: usize = 4 - self.position % 4;
            if self.position > usize::MAX - pad {
                return Err(
                    WeakPointerError::CheckBytes(
                        SharedPointerError::ContextError(
                            BoundsError { offset: self.position, len: pad + 4 },
                        ),
                    ),
                );
            }
            let inner = ArchivedRc { position: self.position + pad, type_id: self.type_id };
            match inner.check_bytes(types, buf, ctx) {
                Ok(_) => Ok(()),
                Err(e) => Err(WeakPointerError::CheckBytes(e)),
            }
        } else {
            Err(WeakPointerError::InvalidTag(tag))
        }
    }
}

/// A weak pointer whose tag byte is neither `TAG_NONE` nor `TAG_SOME` fails
/// with that byte, whatever follows it and whatever has been claimed, and
/// claims nothing.
pub proof fn lemma_invalid_tag_rejected(
    weak: ArchivedRcWeak,
    types: Seq<Shape>,
    buf: Seq<u8>,
    extent: int,
    stride: int,
    claims: Seq<bool>,
)
    requires
        weak.position < extent,
        buf[weak.position as int] != TAG_NONE,
        buf[weak.position as int] != TAG_SOME,
    ensures
        weak.outcome(types, buf, extent, stride, claims) == (
            Err::<(), WeakError>(WeakPointerError::InvalidTag(buf[weak.position as int])),
            claims,
        ),
{
}

/// A pointer to a target that has been claimed for its type passes without
/// a look at the target: the check succeeds and claims nothing on every
/// buffer that holds the same pointer bytes, whatever lies at the target.
pub proof fn lemma_claimed_target_not_rechecked(
    rc: ArchivedRc,
    types: Seq<Shape>,
    buf: Seq<u8>,
    other: Seq<u8>,
    extent: int,
    stride: int,
    claims: Seq<bool>,
)
    requires
        spec_locate(buf, rc.position as int, extent) is Ok,
        !fresh(
            claims,
            stride,
            rc.type_id as int,
            spec_locate(buf, rc.position as int, extent).unwrap() as int,
        ),
        forall|i: int| rc.position <= i < rc.position + 4 ==> other[i] == buf[i],
    ensures
        rc.outcome(types, buf, extent, stride, claims) == (Ok::<(), SharedError>(()), claims),
        rc.outcome(types, other, extent, stride, claims) == (Ok::<(), SharedError>(()), claims),
{
    assert(spec_offset(other, rc.position as int) == spec_offset(buf, rc.position as int));
}

/// Once a check has claimed a target, the target stays claimed: a second
/// pointer to it is not fresh in the claims that the first check leaves.
pub proof fn lemma_claims_only_grow(
    types: Seq<Shape>,
    buf: Seq<u8>,
    extent: int,
    stride: int,
    claims: Seq<bool>,
    ty: int,
    pos: int,
    i: int,
)
    requires
        0 <= i < claims.len(),
        claims[i],
    ensures
        value_outcome(types, buf, extent, stride, claims, ty, pos).1.len() == claims.len(),
        value_outcome(types, buf, extent, stride, claims, ty, pos).1[i],
    decreases unclaimed(claims, claims.len() as int),
{
    match spec_step(types, buf, extent, ty, pos) {
        Step::Done(r) => {},
        Step::Descend(target, at) => {
            if fresh(claims, stride, target as int, at as int) {
                let s = slot(stride, target as int, at as int);
                lemma_claim_counts(claims, s, claims.len() as int);
                lemma_claims_only_grow(
                    types,
                    buf,
                    extent,
                    stride,
                    claims.update(s, true),
                    target as int,
                    at as int,
                    i,
                );
            }
        },
    }
}

/// Of two pointers to one target of one type, the second passes after the
/// first has been checked, whatever the first check came to, and the second
/// check claims nothing more: the target is looked at once.
pub proof fn lemma_second_pointer_passes(
    first: ArchivedRc,
    second: ArchivedRc,
    types: Seq<Shape>,
    buf: Seq<u8>,
    extent: int,
    stride: int,
    claims: Seq<bool>,
)
    requires
        first.type_id == second.type_id,
        spec_locate(buf, first.position as int, extent) is Ok,
        spec_locate(buf, second.position as int, extent) == spec_locate(
            buf,
            first.position as int,
            extent,
        ),
    ensures
        second.outcome(types, buf, extent, stride, first.outcome(types, buf, extent, stride, claims).1)
            == (Ok::<(), SharedError>(()), first.outcome(types, buf, extent, stride, claims).1),
{
    let at = spec_locate(buf, first.position as int, extent).unwrap();
    let s = slot(stride, first.type_id as int, at as int);
    if fresh(claims, stride, first.type_id as int, at as int) {
        lemma_claims_only_grow(
            types,
            buf,
            extent,
            stride,
            claims.update(s, true),
            first.type_id as int,
            at as int,
            s,
        );
    }
}

/// Every location that `good` holds is sound by itself, and every pointer
/// at such a location leads to a location that `good` holds as well.
pub open spec fn closed_and_sound(
    types: Seq<Shape>,
    buf: Seq<u8>,
    extent: int,
    good: spec_fn(int, int) -> bool,
) -> bool {
    forall|ty: int, pos: int| #[trigger]
        good(ty, pos) ==> match spec_step(types, buf, extent, ty, pos) {
            Step::Done(r) => r is Ok,
            Step::Descend(target, at) => good(target as int, at as int),
        }
}

/// The check of a value passes where everything that its pointers lead to is
/// sound, whatever has been claimed and whatever cycles the pointers form: a
/// chain that leads back to its start ends at the claim of the start.
pub proof fn lemma_closed_graph_passes(
    types: Seq<Shape>,
    buf: Seq<u8>,
    extent: int,
    stride: int,
    claims: Seq<bool>,
    good: spec_fn(int, int) -> bool,
    ty: int,
    pos: int,
)
    requires
        closed_and_sound(types, buf, extent, good),
        good(ty, pos),
    ensures
        value_outcome(types, buf, extent, stride, claims, ty, pos).0 is Ok,
    decreases unclaimed(claims, claims.len() as int),
{
    match spec_step(types, buf, extent, ty, pos) {
        Step::Done(r) => {},
        Step::Descend(target, at) => {
            assert(good(target as int, at as int));
            if fresh(claims, stride, target as int, at as int) {
                let s = slot(stride, target as int, at as int);
                lemma_claim_counts(claims, s, claims.len() as int);
                lemma_closed_graph_passes(
                    types,
                    buf,
                    extent,
                    stride,
                    claims.update(s, true),
                    good,
                    target as int,
                    at as int,
                );
            }
        },
    }
}

/// A shared pointer passes where its target and everything that the target
/// leads to is sound, also where the target leads back to itself.
pub proof fn lemma_pointer_into_closed_graph_passes(
    rc: ArchivedRc,
    types: Seq<Shape>,
    buf: Seq<u8>,
    extent: int,
    stride: int,
    claims: Seq<bool>,
    good: spec_fn(int, int) -> bool,
)
    requires
        closed_and_sound(types, buf, extent, good),
        spec_locate(buf, rc.position as int, extent) is Ok,
        good(rc.type_id as int, spec_locate(buf, rc.position as int, extent).unwrap() as int),
    ensures
        rc.outcome(types, buf, extent, stride, claims).0 is Ok,
{
    let at = spec_locate(buf, rc.position as int, extent).unwrap();
    if fresh(claims, stride, rc.type_id as int, at as int) {
        lemma_closed_graph_passes(
            types,
            buf,
            extent,
            stride,
            claims.update(slot(stride, rc.type_id as int, at as int), true),
            good,
            rc.type_id as int,
            at as int,
        );
    }
}

} // verus!
