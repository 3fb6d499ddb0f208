//! The boundary to `smallvec` and `num`: a short list of literals that lives
//! on the stack while it is small, and division that rounds up.

use vstd::prelude::*;
use smallvec::SmallVec;
use crate::lit::Lit;

verus! {

/// A list of literals in a `SmallVec` with room for six of them on the stack.
#[verifier::external_body]
pub struct LitBuffer {
    items: SmallVec<[Lit; 6]>,
}

/// The literals that a buffer holds, first to last.
pub uninterp spec fn buffer_lits(buffer: LitBuffer) -> Seq<Lit>;

/// `SmallVec::new`: a buffer that holds nothing.
#[verifier::external_body]
pub(crate) fn buffer_new() -> (buffer: LitBuffer)
    ensures
        buffer_lits(buffer) == Seq::<Lit>::empty(),
{
    LitBuffer { items: SmallVec::new() }
}

/// `SmallVec::from` on a slice: a buffer that holds the items of the slice in
/// their order.
#[verifier::external_body]
pub(crate) fn buffer_from(lits: &[Lit]) -> (buffer: LitBuffer)
    ensures
        buffer_lits(buffer) == lits@,
{
    LitBuffer { items: SmallVec::from(lits) }
}

/// `SmallVec::push`: the item becomes the last item of the buffer.
#[verifier::external_body]
pub(crate) fn buffer_push(buffer: &mut LitBuffer, lit: Lit)
    ensures
        buffer_lits(*final(buffer)) == buffer_lits(*old(buffer)).push(lit),
{
    buffer.items.push(lit);
}

/// `SmallVec::as_slice`: the items of the buffer as a slice.
#[verifier::external_body]
pub(crate) fn buffer_slice(buffer: &LitBuffer) -> (lits: &[Lit])
    ensures
        lits@ == buffer_lits(*buffer),
{
    buffer.items.as_slice()
}

/// `num::integer::div_ceil` on `usize`: the quotient of `x` by a positive `y`,
/// rounded up.
#[verifier::external_body]
pub(crate) fn div_ceil(x: usize, y: usize) -> (q: usize)
    requires
        y > 0,
    ensures
        q == (x + y - 1) / (y as int),
{
    num::integer::div_ceil(x, y)
}

} // verus!
