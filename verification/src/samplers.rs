use vstd::prelude::*;

use arrayvec::ArrayVec;

use crate::context::{
    FramebufferId, FramebufferUnit, RequestedWriters, TextureUnit, framebuffer_ids,
    framebuffer_ids_as_slice, framebuffer_ids_new, framebuffer_ids_try_push,
    no_free_binds_message,
};
use crate::framebuffer::{Framebuffer, MAX_BINDS};
use crate::renderer::{Renderer, RendererView};
use crate::texture_storage::TextureSrc;

verus! {

/// The texture sources held by an `ArrayVec` of sources, in order.
pub uninterp spec fn texture_sources(v: ArrayVec<TextureSrc, 16>) -> Seq<TextureSrc>;

/// Calls `ArrayVec::new`: an empty vector.
#[verifier::external_body]
fn texture_sources_new() -> (v: ArrayVec<TextureSrc, 16>)
    ensures
        texture_sources(v) == Seq::<TextureSrc>::empty(),
{
    ArrayVec::new()
}

/// Calls `ArrayVec::try_push`: appends the source when fewer than 16 are held,
/// and otherwise leaves the vector as it was and reports the failure; it
/// does not panic.
#[verifier::external_body]
fn texture_sources_try_push(v: &mut ArrayVec<TextureSrc, 16>, source: TextureSrc) -> (ok: bool)
    ensures
        ok == (texture_sources(*old(v)).len() < 16),
        ok ==> texture_sources(*final(v)) == texture_sources(*old(v)).push(source),
        !ok ==> texture_sources(*final(v)) == texture_sources(*old(v)),
    no_unwind
{
    v.try_push(source).is_ok()
}

/// Calls `ArrayVec::as_slice`: the sources held, in order; never more than 16.
#[verifier::external_body]
fn texture_sources_as_slice(v: &ArrayVec<TextureSrc, 16>) -> (s: &[TextureSrc])
    ensures
        s@ == texture_sources(*v),
        s@.len() <= 16,
{
    v.as_slice()
}

/// The textures and framebuffers a pass samples, in the order of their
/// units: at most `COUNT` of each, where `COUNT` is at most 16.
#[derive(Debug)]
pub struct RequestedSamplers<const COUNT: usize> {
    texture_binds: ArrayVec<TextureSrc, 16>,
    framebuffer_read_binds: ArrayVec<FramebufferId, 16>,
}

impl<const COUNT: usize> RequestedSamplers<COUNT> {
    /// The textures bound for sampling, unit by unit.
    pub closed spec fn texture_binds(&self) -> Seq<TextureSrc> {
        texture_sources(self.texture_binds)
    }

    /// The framebuffers bound for reading, unit by unit.
    pub closed spec fn framebuffer_binds(&self) -> Seq<FramebufferId> {
        framebuffer_ids(self.framebuffer_read_binds)
    }

    /// At most `COUNT` units of each kind, and `COUNT` fits the 16 slots held.
    #[verifier::type_invariant]
    closed spec fn within_capacity(&self) -> bool {
        &&& COUNT <= 16
        &&& self.texture_binds().len() <= COUNT
        &&& self.framebuffer_binds().len() <= COUNT
    }

    /// Nothing bound.
    pub fn new() -> (s: Self)
        requires
            COUNT <= 16,
        ensures
            s.texture_binds() == Seq::<TextureSrc>::empty(),
            s.framebuffer_binds() == Seq::<FramebufferId>::empty(),
    {
        RequestedSamplers {
            texture_binds: texture_sources_new(),
            framebuffer_read_binds: framebuffer_ids_new(),
        }
    }

    /// Binds a texture on the next free texture unit, and returns the unit;
    /// fails, binding nothing, when all `COUNT` texture units are taken.
    pub fn bind_texture(&mut self, source: TextureSrc) -> (r: Result<TextureUnit, &'static str>)
        ensures
            old(self).texture_binds().len() < COUNT ==> r == Ok::<TextureUnit, &'static str>(
                TextureUnit(old(self).texture_binds().len() as usize),
            ) && final(self).texture_binds() == old(self).texture_binds().push(source),
            old(self).texture_binds().len() >= COUNT ==> (r matches Err(msg) && msg@
                == no_free_binds_message()) && final(self).texture_binds() == old(
                self,
            ).texture_binds(),
            final(self).framebuffer_binds() == old(self).framebuffer_binds(),
    {
        proof {
            use_type_invariant(&*self);
        }
        let held = texture_sources_as_slice(&self.texture_binds).len();
        if held < COUNT {
            if texture_sources_try_push(&mut self.texture_binds, source) {
                return Ok(TextureUnit(held));
            }
        }
        Err("No free binds left")
    }

    /// Binds framebuffer `id` for reading on the next free unit, and returns
    /// the unit; fails, binding nothing, when all `COUNT` units are taken.
    pub fn bind_framebuffers_read(&mut self, id: FramebufferId) -> (r: Result<
        FramebufferUnit,
        &'static str,
    >)
        ensures
            old(self).framebuffer_binds().len() < COUNT ==> r == Ok::<
                FramebufferUnit,
                &'static str,
            >(FramebufferUnit(old(self).framebuffer_binds().len() as usize))
                && final(self).framebuffer_binds() == old(self).framebuffer_binds().push(id),
            old(self).framebuffer_binds().len() >= COUNT ==> (r matches Err(msg) && msg@
                == no_free_binds_message()) && final(self).framebuffer_binds() == old(
                self,
            ).framebuffer_binds(),
            final(self).texture_binds() == old(self).texture_binds(),
    {
        proof {
            use_type_invariant(&*self);
        }
        let held = framebuffer_ids_as_slice(&self.framebuffer_read_binds).len();
        if held < COUNT {
            if framebuffer_ids_try_push(&mut self.framebuffer_read_binds, id) {
                return Ok(FramebufferUnit(held));
            }
        }
        Err("No free binds left")
    }

    /// The textures bound for sampling, unit by unit.
    pub fn get_texture_binds(&self) -> (s: &[TextureSrc])
        ensures
            s@ == self.texture_binds(),
            s@.len() <= COUNT,
    {
        proof {
            use_type_invariant(self);
        }
        texture_sources_as_slice(&self.texture_binds)
    }

    /// The framebuffers bound for reading, unit by unit.
    pub fn get_framebuffer_binds(&self) -> (s: &[FramebufferId])
        ensures
            s@ == self.framebuffer_binds(),
            s@.len() <= COUNT,
    {
        proof {
            use_type_invariant(self);
        }
        framebuffer_ids_as_slice(&self.framebuffer_read_binds)
    }
}

/// Some framebuffer is bound both for reading and for writing.
pub open spec fn binds_overlap(reads: Seq<FramebufferId>, writes: Seq<FramebufferId>) -> bool {
    exists|i: int, j: int| 0 <= i < reads.len() && 0 <= j < writes.len() && reads[i] == writes[j]
}

/// A framebuffer bound for reading at any unit and for writing at any unit
/// is an overlap, whatever the two units' positions.
pub proof fn lemma_overlap_at_any_units(reads: Seq<FramebufferId>, writes: Seq<FramebufferId>, i: int, j: int)
    requires
        0 <= i < reads.len(),
        0 <= j < writes.len(),
        reads[i] == writes[j],
    ensures
        binds_overlap(reads, writes),
{
}

/// Whether the binds overlap depends only on which framebuffers are bound
/// for reading and which for writing, not on their units: it is whether the
/// two sets share a framebuffer, so reordering either list keeps it.
pub proof fn lemma_overlap_by_sets(
    reads: Seq<FramebufferId>,
    writes: Seq<FramebufferId>,
    reads2: Seq<FramebufferId>,
    writes2: Seq<FramebufferId>,
)
    requires
        reads.to_set() == reads2.to_set(),
        writes.to_set() == writes2.to_set(),
    ensures
        binds_overlap(reads, writes) == !reads.to_set().disjoint(writes.to_set()),
        binds_overlap(reads, writes) == binds_overlap(reads2, writes2),
{
    broadcast use vstd::seq_lib::group_seq_properties;

    lemma_overlap_sets(reads, writes);
    lemma_overlap_sets(reads2, writes2);
}

proof fn lemma_overlap_sets(reads: Seq<FramebufferId>, writes: Seq<FramebufferId>)
    ensures
        binds_overlap(reads, writes) == !reads.to_set().disjoint(writes.to_set()),
{
    broadcast use vstd::seq_lib::group_seq_properties;

    if binds_overlap(reads, writes) {
        let (i, j) = choose|i: int, j: int|
            0 <= i < reads.len() && 0 <= j < writes.len() && reads[i] == writes[j];
        assert(reads.to_set().contains(reads[i]));
        assert(writes.to_set().contains(writes[j]));
    }
    if !reads.to_set().disjoint(writes.to_set()) {
        let x = choose|x: FramebufferId| reads.to_set().contains(x) && writes.to_set().contains(x);
        assert(reads.contains(x));
        assert(writes.contains(x));
        let i = choose|i: int| 0 <= i < reads.len() && reads[i] == x;
        let j = choose|j: int| 0 <= j < writes.len() && writes[j] == x;
        lemma_overlap_at_any_units(reads, writes, i, j);
    }
}

/// Whether some framebuffer is bound both for reading and for writing, which
/// a pass does not allow.
pub fn binds_conflict(reads: &[FramebufferId], writes: &[FramebufferId]) -> (r: bool)
    ensures
        r == binds_overlap(reads@, writes@),
{
    let mut i: usize = 0;
    while i < reads.len()
        invariant
            i <= reads@.len(),
            forall|a: int, b: int| 0 <= a < i && 0 <= b < writes@.len() ==> reads@[a] != writes@[b],
        decreases reads@.len() - i,
    {
        let mut j: usize = 0;
        while j < writes.len()
            invariant
                i < reads@.len(),
                j <= writes@.len(),
                forall|a: int, b: int| 0 <= a < i && 0 <= b < writes@.len() ==> reads@[a] != writes@[b],
                forall|b: int| 0 <= b < j ==> reads@[i as int] != writes@[b],
            decreases writes@.len() - j,
        {
            if reads[i] == writes[j] {
                return true;
            }
            j = j + 1;
        }
        i = i + 1;
    }
    false
}

/// The framebuffer slots that a write request names are distinct and each
/// holds a framebuffer.
pub open spec fn writers_available(r: RendererView, writes: Seq<FramebufferId>) -> bool {
    &&& forall|k: int| 0 <= k < writes.len() ==> r.has_framebuffer(#[trigger] writes[k].index as int)
    &&& forall|k1: int, k2: int|
        0 <= k1 < k2 < writes.len() ==> #[trigger] writes[k1].index != #[trigger] writes[k2].index
}

/// The slots after the framebuffers named by `w` are taken out.
pub open spec fn taken_slots(slots: Seq<Option<Framebuffer>>, w: Seq<FramebufferId>) -> Seq<
    Option<Framebuffer>,
> {
    Seq::new(
        slots.len(),
        |s: int|
            if exists|k: int| 0 <= k < w.len() && w[k].index == s {
                None
            } else {
                slots[s]
            },
    )
}

/// The framebuffers named by `w`, in order.
pub open spec fn acquired(slots: Seq<Option<Framebuffer>>, w: Seq<FramebufferId>) -> Seq<Framebuffer> {
    Seq::new(w.len(), |k: int| slots[w[k].index as int].unwrap())
}

/// The slots after `fbs[k]` is put into the slot named by `w[k]`, for each `k`.
pub open spec fn returned_slots(
    slots: Seq<Option<Framebuffer>>,
    w: Seq<FramebufferId>,
    fbs: Seq<Framebuffer>,
) -> Seq<Option<Framebuffer>> {
    Seq::new(
        slots.len(),
        |s: int|
            if exists|k: int| 0 <= k < w.len() && w[k].index == s {
                Some(fbs[choose|k: int| 0 <= k < w.len() && w[k].index == s])
            } else {
                slots[s]
            },
    )
}

/// Releasing the framebuffers that a pass acquired, unchanged, restores the
/// renderer's slots as they were.
pub proof fn lemma_release_restores(slots: Seq<Option<Framebuffer>>, w: Seq<FramebufferId>)
    requires
        writers_available(RendererView { framebuffers: slots, textures: Seq::empty() }, w),
    ensures
        returned_slots(taken_slots(slots, w), w, acquired(slots, w)) == slots,
{
    let r = RendererView { framebuffers: slots, textures: Seq::empty() };
    assert forall|s: int| 0 <= s < slots.len() implies returned_slots(
        taken_slots(slots, w),
        w,
        acquired(slots, w),
    )[s] == slots[s] by {
        if exists|k: int| 0 <= k < w.len() && w[k].index == s {
            let k = choose|k: int| 0 <= k < w.len() && w[k].index == s;
            assert(r.has_framebuffer(w[k].index as int));
        }
    }
    assert(returned_slots(taken_slots(slots, w), w, acquired(slots, w)) =~= slots);
}

/// Takes out of the renderer the framebuffers that a pass writes, in the order
/// of their units, leaving their slots empty.
pub fn acquire_writers<const COUNT: usize>(store: &mut Renderer, request: &RequestedWriters<COUNT>) -> (fbs: Vec<Framebuffer>)
    requires
        writers_available(old(store)@, request.binds()),
    ensures
        fbs@ == acquired(old(store)@.framebuffers, request.binds()),
        final(store)@.framebuffers == taken_slots(old(store)@.framebuffers, request.binds()),
        final(store)@.textures == old(store)@.textures,
{
    let binds = request.get_framebuffer_binds();
    let ghost w = binds@;
    let mut fbs: Vec<Framebuffer> = Vec::new();
    let mut k: usize = 0;
    while k < binds.len()
        invariant
            w == binds@,
            w == request.binds(),
            writers_available(old(store)@, w),
            k <= w.len(),
            fbs@.len() == k,
            forall|m: int|
                0 <= m < k ==> #[trigger] fbs@[m] == old(store)@.framebuffers[w[m].index as int].unwrap(),
            store@.framebuffers.len() == old(store)@.framebuffers.len(),
            forall|s: int|
                0 <= s < old(store)@.framebuffers.len() ==> #[trigger] store@.framebuffers[s]
                    == if exists|m: int| 0 <= m < k && w[m].index == s {
                    None
                } else {
                    old(store)@.framebuffers[s]
                },
            store@.textures == old(store)@.textures,
        decreases w.len() - k,
    {
        let id = binds[k].index;
        assert(!(exists|m: int| 0 <= m < k && w[m].index == id)) by {
            if exists|m: int| 0 <= m < k && w[m].index == id {
                let m = choose|m: int| 0 <= m < k && w[m].index == id;
                assert(w[m].index != w[k as int].index);
            }
        }
        assert(store@.framebuffers[id as int] == old(store)@.framebuffers[id as int]);
        let fb = store.take_framebuffer(id);
        fbs.push(fb);
        proof {
            assert forall|s: int| 0 <= s < old(store)@.framebuffers.len() implies #[trigger] store@.framebuffers[s]
                == if exists|m: int| 0 <= m < k + 1 && w[m].index == s {
                None
            } else {
                old(store)@.framebuffers[s]
            } by {
                if s == id {
                    assert(w[k as int].index == s);
                } else {
                    if exists|m: int| 0 <= m < k + 1 && w[m].index == s {
                        let m = choose|m: int| 0 <= m < k + 1 && w[m].index == s;
                        assert(m != k);
                    }
                }
            }
        }
        k = k + 1;
    }
    assert(fbs@ =~= acquired(old(store)@.framebuffers, w));
    assert(store@.framebuffers =~= taken_slots(old(store)@.framebuffers, w));
    fbs
}

/// Puts the framebuffers that a pass wrote back into their slots, in the order
/// of the write request's units.
pub fn release<const COUNT: usize>(store: &mut Renderer, request: &RequestedWriters<COUNT>, fbs: Vec<Framebuffer>)
    requires
        forall|k: int|
            0 <= k < request.binds().len() ==> (#[trigger] request.binds()[k]).index < old(
                store,
            )@.framebuffers.len(),
        forall|k1: int, k2: int|
            0 <= k1 < k2 < request.binds().len() ==> #[trigger] request.binds()[k1].index
                != #[trigger] request.binds()[k2].index,
        fbs@.len() == request.binds().len(),
    ensures
        final(store)@.framebuffers == returned_slots(old(store)@.framebuffers, request.binds(), fbs@),
        final(store)@.textures == old(store)@.textures,
{
    let binds = request.get_framebuffer_binds();
    let ghost w = binds@;
    let ghost all = fbs@;
    let mut fbs = fbs;
    let mut k: usize = 0;
    let mut rest: Vec<Framebuffer> = Vec::new();
    // Hand the framebuffers out front to back.
    let mut n: usize = fbs.len();
    while n > 0
        invariant
            n <= fbs@.len(),
            fbs@.len() == n,
            rest@.len() == all.len() - n,
            fbs@ == all.subrange(0, n as int),
            forall|m: int| 0 <= m < rest@.len() ==> #[trigger] rest@[m] == all[all.len() - 1 - m],
        decreases n,
    {
        let fb = fbs.pop().unwrap();
        rest.push(fb);
        n = n - 1;
        assert(fbs@ =~= all.subrange(0, n as int));
    }
    while k < binds.len()
        invariant
            w == binds@,
            w == request.binds(),
            all.len() == w.len(),
            forall|m: int| 0 <= m < w.len() ==> (#[trigger] w[m]).index < old(store)@.framebuffers.len(),
            forall|k1: int, k2: int| 0 <= k1 < k2 < w.len() ==> #[trigger] w[k1].index != #[trigger] w[k2].index,
            k <= w.len(),
            rest@.len() == w.len() - k,
            forall|m: int| 0 <= m < rest@.len() ==> #[trigger] rest@[m] == all[all.len() - 1 - m],
            store@.framebuffers.len() == old(store)@.framebuffers.len(),
            forall|s: int|
                0 <= s < old(store)@.framebuffers.len() ==> #[trigger] store@.framebuffers[s]
                    == if exists|m: int| 0 <= m < k && w[m].index == s {
                    Some(all[choose|m: int| 0 <= m < k && w[m].index == s])
                } else {
                    old(store)@.framebuffers[s]
                },
            store@.textures == old(store)@.textures,
        decreases w.len() - k,
    {
        let id = binds[k].index;
        let fb = rest.pop().unwrap();
        assert(fb == all[k as int]);
        store.put_framebuffer(id, fb);
        proof {
            assert forall|s: int| 0 <= s < old(store)@.framebuffers.len() implies #[trigger] store@.framebuffers[s]
                == if exists|m: int| 0 <= m < k + 1 && w[m].index == s {
                Some(all[choose|m: int| 0 <= m < k + 1 && w[m].index == s])
            } else {
                old(store)@.framebuffers[s]
            } by {
                if s == id {
                    assert(w[k as int].index == s);
                    let m = choose|m: int| 0 <= m < k + 1 && w[m].index == s;
                    if m != k {
                        assert(w[m].index != w[k as int].index);
                    }
                } else {
                    if exists|m: int| 0 <= m < k + 1 && w[m].index == s {
                        let m = choose|m: int| 0 <= m < k + 1 && w[m].index == s;
                        assert(m != k);
                        assert(exists|m2: int| 0 <= m2 < k && w[m2].index == s);
                        let m2 = choose|m2: int| 0 <= m2 < k && w[m2].index == s;
                        if m2 != m {
                            if m2 < m {
                                assert(w[m2].index != w[m].index);
                            } else {
                                assert(w[m].index != w[m2].index);
                            }
                        }
                    }
                }
            }
        }
        k = k + 1;
    }
    assert(store@.framebuffers =~= returned_slots(old(store)@.framebuffers, w, all));
}

} // verus!
