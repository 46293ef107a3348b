use vstd::prelude::*;

use arrayvec::ArrayVec;

verus! {

#[verifier::external_type_specification]
#[verifier::external_body]
#[verifier::reject_recursive_types(T)]
pub struct ExArrayVec<T, const CAP: usize>(ArrayVec<T, CAP>);

/// Names a framebuffer: its slot and the generation of the slot.
#[derive(Clone, Copy, Debug, PartialEq, Eq, Hash, Structural)]
pub struct FramebufferId {
    pub index: usize,
    pub generation: u32,
}

/// The binding unit through which a shader samples a texture.
#[derive(Clone, Copy, Debug, PartialEq, Eq, Structural)]
pub struct TextureUnit(pub usize);

/// The binding unit through which a pass reads or writes a framebuffer.
#[derive(Clone, Copy, Debug, PartialEq, Eq, Structural)]
pub struct FramebufferUnit(pub usize);

/// The framebuffer ids held by an `ArrayVec` of framebuffer ids, in order.
pub uninterp spec fn framebuffer_ids(v: ArrayVec<FramebufferId, 16>) -> Seq<FramebufferId>;

/// Calls `ArrayVec::new`: an empty vector.
#[verifier::external_body]
pub(crate) fn framebuffer_ids_new() -> (v: ArrayVec<FramebufferId, 16>)
    ensures
        framebuffer_ids(v) == Seq::<FramebufferId>::empty(),
{
    ArrayVec::new()
}

/// Calls `ArrayVec::try_push`: appends the id when fewer than 16 are held,
/// and otherwise leaves the vector as it was and reports the failure; it
/// does not panic.
#[verifier::external_body]
pub(crate) fn framebuffer_ids_try_push(v: &mut ArrayVec<FramebufferId, 16>, id: FramebufferId) -> (ok:
    bool)
    ensures
        ok == (framebuffer_ids(*old(v)).len() < 16),
        ok ==> framebuffer_ids(*final(v)) == framebuffer_ids(*old(v)).push(id),
        !ok ==> framebuffer_ids(*final(v)) == framebuffer_ids(*old(v)),
    no_unwind
{
    v.try_push(id).is_ok()
}

/// Calls `ArrayVec::as_slice`: the ids held, in order; never more than 16.
#[verifier::external_body]
pub(crate) fn framebuffer_ids_as_slice(v: &ArrayVec<FramebufferId, 16>) -> (s: &[FramebufferId])
    ensures
        s@ == framebuffer_ids(*v),
        s@.len() <= 16,
{
    v.as_slice()
}

/// The message of a bind that finds every unit taken.
pub open spec fn no_free_binds_message() -> Seq<char> {
    "No free binds left"@
}

/// The framebuffers a pass writes, in the order of their units: at most
/// `COUNT` of them, where `COUNT` is at most 16.
#[derive(Debug)]
pub struct RequestedWriters<const COUNT: usize> {
    framebuffer_write_binds: ArrayVec<FramebufferId, 16>,
}

impl<const COUNT: usize> RequestedWriters<COUNT> {
    /// The framebuffers bound for writing, unit by unit.
    pub closed spec fn binds(&self) -> Seq<FramebufferId> {
        framebuffer_ids(self.framebuffer_write_binds)
    }

    /// At most `COUNT` units, and `COUNT` fits the 16 slots held.
    #[verifier::type_invariant]
    closed spec fn within_capacity(&self) -> bool {
        &&& COUNT <= 16
        &&& self.binds().len() <= COUNT
    }

    /// No framebuffer bound.
    pub fn new() -> (w: Self)
        requires
            COUNT <= 16,
        ensures
            w.binds() == Seq::<FramebufferId>::empty(),
    {
        RequestedWriters { framebuffer_write_binds: framebuffer_ids_new() }
    }

    /// Binds framebuffer `id` for writing on the next free unit, and returns
    /// the unit; fails, binding nothing, when all `COUNT` units are taken.
    pub fn bind_framebuffers_write(&mut self, id: FramebufferId) -> (r: Result<
        FramebufferUnit,
        &'static str,
    >)
        ensures
            old(self).binds().len() < COUNT ==> r == Ok::<FramebufferUnit, &'static str>(
                FramebufferUnit(old(self).binds().len() as usize),
            ) && final(self).binds() == old(self).binds().push(id),
            old(self).binds().len() >= COUNT ==> (r matches Err(msg) && msg@
                == no_free_binds_message()) && final(self).binds() == old(self).binds(),
    {
        proof {
            use_type_invariant(&*self);
        }
        let held = framebuffer_ids_as_slice(&self.framebuffer_write_binds).len();
        if held < COUNT {
            if framebuffer_ids_try_push(&mut self.framebuffer_write_binds, id) {
                return Ok(FramebufferUnit(held));
            }
        }
        Err("No free binds left")
    }

    /// The framebuffers bound for writing, unit by unit.
    pub fn get_framebuffer_binds(&self) -> (s: &[FramebufferId])
        ensures
            s@ == self.binds(),
            s@.len() <= COUNT,
    {
        proof {
            use_type_invariant(self);
        }
        framebuffer_ids_as_slice(&self.framebuffer_write_binds)
    }
}

} // verus!
