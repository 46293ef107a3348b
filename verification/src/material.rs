use vstd::prelude::*;

use crate::context::{FramebufferId, RequestedWriters};
use crate::framebuffer::MAX_BINDS;
use crate::samplers::RequestedSamplers;

verus! {

/// Names a shader program in a program store.
#[derive(Debug, Clone, Copy, PartialEq, Eq, Structural)]
pub struct ProgramHandle(pub usize);

/// Names a material in a material store.
#[derive(Debug, Clone, Copy, PartialEq, Eq, Structural)]
pub struct MaterialHandle(pub usize);

/// A program together with the resources it samples and the framebuffers it
/// writes, with up to `COUNT` bindings of each kind.
#[derive(Debug)]
pub struct Material<const COUNT: usize> {
    program: ProgramHandle,
    samplers: RequestedSamplers<COUNT>,
    writers: RequestedWriters<COUNT>,
}

impl<const COUNT: usize> Material<COUNT> {
    pub closed spec fn spec_program(&self) -> ProgramHandle {
        self.program
    }

    pub closed spec fn spec_samplers(&self) -> RequestedSamplers<COUNT> {
        self.samplers
    }

    pub closed spec fn spec_writers(&self) -> RequestedWriters<COUNT> {
        self.writers
    }

    pub fn new(
        program: ProgramHandle,
        samplers: RequestedSamplers<COUNT>,
        writers: RequestedWriters<COUNT>,
    ) -> (m: Self)
        ensures
            m.spec_program() == program,
            m.spec_samplers() == samplers,
            m.spec_writers() == writers,
    {
        Material { program, samplers, writers }
    }

    pub fn get_handle(&self) -> (h: ProgramHandle)
        ensures
            h == self.spec_program(),
    {
        self.program
    }

    pub fn get_samplers(&self) -> (s: &RequestedSamplers<COUNT>)
        ensures
            *s == self.spec_samplers(),
    {
        &self.samplers
    }

    pub fn get_writers(&self) -> (w: &RequestedWriters<COUNT>)
        ensures
            *w == self.spec_writers(),
    {
        &self.writers
    }
}

/// Materials by handle, in the order they were put.
pub struct MaterialStorage {
    store: Vec<Material<MAX_BINDS>>,
}

impl View for MaterialStorage {
    type V = Seq<Material<MAX_BINDS>>;

    closed spec fn view(&self) -> Seq<Material<MAX_BINDS>> {
        self.store@
    }
}

impl MaterialStorage {
    pub fn new() -> (s: MaterialStorage)
        ensures
            s@ == Seq::<Material<MAX_BINDS>>::empty(),
    {
        MaterialStorage { store: Vec::new() }
    }

    /// Stores a material and returns its handle, the number of materials stored before.
    pub fn put(&mut self, material: Material<MAX_BINDS>) -> (h: MaterialHandle)
        ensures
            h.0 == old(self)@.len(),
            final(self)@ == old(self)@.push(material),
    {
        self.store.push(material);
        MaterialHandle(self.store.len() - 1)
    }

    /// The material with handle `index`.
    pub fn get(&self, index: MaterialHandle) -> (m: &Material<MAX_BINDS>)
        requires
            index.0 < self@.len(),
        ensures
            *m == self@[index.0 as int],
    {
        &self.store[index.0]
    }
}

/// A material reads back from its store under the handle it was put with.
pub proof fn lemma_get_after_put(s: Seq<Material<MAX_BINDS>>, m: Material<MAX_BINDS>)
    ensures
        s.push(m)[s.len() as int] == m,
        forall|i: int| 0 <= i < s.len() ==> #[trigger] s.push(m)[i] == s[i],
{
}

/// Hands out the ids of the framebuffers, programs and materials that a
/// renderer will create, each kind counting up from 0.
pub struct HandleAllocator {
    next_fb_id: usize,
    next_program_id: usize,
    next_material_id: usize,
}

/// How many ids of each kind have been handed out.
pub struct HandleAllocatorView {
    pub framebuffers: int,
    pub programs: int,
    pub materials: int,
}

impl View for HandleAllocator {
    type V = HandleAllocatorView;

    closed spec fn view(&self) -> HandleAllocatorView {
        HandleAllocatorView {
            framebuffers: self.next_fb_id as int,
            programs: self.next_program_id as int,
            materials: self.next_material_id as int,
        }
    }
}

impl HandleAllocator {
    pub fn new() -> (a: HandleAllocator)
        ensures
            a@ == (HandleAllocatorView { framebuffers: 0, programs: 0, materials: 0 }),
    {
        HandleAllocator { next_fb_id: 0, next_program_id: 0, next_material_id: 0 }
    }

    /// Number of framebuffer ids handed out.
    pub fn framebuffers(&self) -> (n: usize)
        ensures
            n == self@.framebuffers,
    {
        self.next_fb_id
    }

    /// Number of program handles handed out.
    pub fn programs(&self) -> (n: usize)
        ensures
            n == self@.programs,
    {
        self.next_program_id
    }

    /// Number of material handles handed out.
    pub fn materials(&self) -> (n: usize)
        ensures
            n == self@.materials,
    {
        self.next_material_id
    }

    /// The id of the next framebuffer: the count so far, in generation 0.
    pub fn create_framebuffer(&mut self) -> (id: FramebufferId)
        requires
            old(self)@.framebuffers < usize::MAX,
        ensures
            id == (FramebufferId { index: old(self)@.framebuffers as usize, generation: 0 }),
            final(self)@ == (HandleAllocatorView {
                framebuffers: old(self)@.framebuffers + 1,
                ..old(self)@
            }),
    {
        let current = self.next_fb_id;
        self.next_fb_id = self.next_fb_id + 1;
        FramebufferId { index: current, generation: 0 }
    }

    /// The handle of the next program: the count so far.
    pub fn create_program(&mut self) -> (h: ProgramHandle)
        requires
            old(self)@.programs < usize::MAX,
        ensures
            h == ProgramHandle(old(self)@.programs as usize),
            final(self)@ == (HandleAllocatorView { programs: old(self)@.programs + 1, ..old(self)@ }),
    {
        let current = self.next_program_id;
        self.next_program_id = self.next_program_id + 1;
        ProgramHandle(current)
    }

    /// The handle of the next material: the count so far.
    pub fn create_material(&mut self) -> (h: MaterialHandle)
        requires
            old(self)@.materials < usize::MAX,
        ensures
            h == MaterialHandle(old(self)@.materials as usize),
            final(self)@ == (HandleAllocatorView { materials: old(self)@.materials + 1, ..old(self)@ }),
    {
        let current = self.next_material_id;
        self.next_material_id = self.next_material_id + 1;
        MaterialHandle(current)
    }
}

} // verus!
