use renderer::color::Color;
use renderer::context::{FramebufferId, FramebufferUnit, RequestedWriters, TextureUnit};
use renderer::framebuffer::MAX_BINDS;
use renderer::material::{HandleAllocator, Material, MaterialHandle, MaterialStorage, ProgramHandle};
use renderer::renderer::Renderer;
use renderer::samplers::{RequestedSamplers, acquire_writers, binds_conflict, release};
use renderer::texture::Texture;
use renderer::texture_storage::{MAX_UNUSED_COUNT, TextureLoadState, TextureSrc, TextureStorage};

fn fb(index: usize) -> FramebufferId {
    FramebufferId { index, generation: 0 }
}

#[test]
fn binds_hand_out_units_until_full() {
    let mut writers = RequestedWriters::<MAX_BINDS>::new();
    for k in 0..MAX_BINDS {
        assert_eq!(writers.bind_framebuffers_write(fb(k)), Ok(FramebufferUnit(k)));
    }
    assert_eq!(writers.bind_framebuffers_write(fb(99)), Err("No free binds left"));
    assert_eq!(writers.get_framebuffer_binds().len(), MAX_BINDS);
    assert_eq!(writers.get_framebuffer_binds()[3], fb(3));

    let mut samplers = RequestedSamplers::<MAX_BINDS>::new();
    assert_eq!(samplers.bind_texture(TextureSrc::Png("a.png")), Ok(TextureUnit(0)));
    assert_eq!(samplers.bind_texture(TextureSrc::Png("b.png")), Ok(TextureUnit(1)));
    assert_eq!(samplers.bind_framebuffers_read(fb(7)), Ok(FramebufferUnit(0)));
    assert_eq!(samplers.get_texture_binds().len(), 2);
    assert_eq!(samplers.get_framebuffer_binds(), &[fb(7)]);
    for _ in 1..MAX_BINDS {
        samplers.bind_framebuffers_read(fb(1)).unwrap();
    }
    assert_eq!(samplers.bind_framebuffers_read(fb(2)), Err("No free binds left"));
}

#[test]
fn conflicting_binds_are_detected() {
    assert!(binds_conflict(&[fb(1), fb(2)], &[fb(3), fb(2)]));
    assert!(!binds_conflict(&[fb(1), fb(2)], &[fb(3)]));
    assert!(!binds_conflict(&[], &[fb(3)]));
    assert!(!binds_conflict(&[FramebufferId { index: 1, generation: 1 }], &[fb(1)]));
}

#[test]
fn acquired_writers_are_released_into_their_slots() {
    let mut store = Renderer::new();
    store.create_framebuffer(1, 1);
    store.create_framebuffer(2, 2);
    store.create_framebuffer(3, 3);
    let mut writers = RequestedWriters::<MAX_BINDS>::new();
    writers.bind_framebuffers_write(fb(2)).unwrap();
    writers.bind_framebuffers_write(fb(0)).unwrap();
    let mut fbs = acquire_writers(&mut store, &writers);
    assert_eq!(fbs.len(), 2);
    assert_eq!(fbs[0].width(), 3);
    assert_eq!(fbs[1].width(), 1);
    fbs[0].clear(Color::zero());
    release(&mut store, &writers, fbs);
    assert_eq!(store.borrow_framebuffer(2).width(), 3);
    assert_eq!(store.borrow_framebuffer(2).current_generation(), 1);
    assert_eq!(store.borrow_framebuffer(0).width(), 1);
    assert_eq!(store.borrow_framebuffer(1).width(), 2);
}

#[test]
fn materials_are_stored_by_handle() {
    let mut store = MaterialStorage::new();
    let first = store.put(Material::new(ProgramHandle(3), RequestedSamplers::new(), RequestedWriters::new()));
    let mut writers = RequestedWriters::<MAX_BINDS>::new();
    writers.bind_framebuffers_write(fb(5)).unwrap();
    let second = store.put(Material::new(ProgramHandle(4), RequestedSamplers::new(), writers));
    assert_eq!(first, MaterialHandle(0));
    assert_eq!(second, MaterialHandle(1));
    assert_eq!(store.get(first).get_handle(), ProgramHandle(3));
    assert_eq!(store.get(second).get_handle(), ProgramHandle(4));
    assert_eq!(store.get(second).get_writers().get_framebuffer_binds(), &[fb(5)]);
    assert!(store.get(second).get_samplers().get_texture_binds().is_empty());
}

#[test]
fn handle_allocator_counts_each_kind() {
    let mut ids = HandleAllocator::new();
    assert_eq!(ids.create_framebuffer(), fb(0));
    assert_eq!(ids.create_framebuffer(), fb(1));
    assert_eq!(ids.create_program(), ProgramHandle(0));
    assert_eq!(ids.create_material(), MaterialHandle(0));
    assert_eq!(ids.create_material(), MaterialHandle(1));
    assert_eq!(ids.create_framebuffer(), fb(2));
}

fn state_name(s: &TextureLoadState) -> &'static str {
    match s {
        TextureLoadState::Unloaded => "unloaded",
        TextureLoadState::Loading => "loading",
        TextureLoadState::Loaded(_) => "loaded",
    }
}

#[test]
fn textures_load_and_unload_after_ticks() {
    let src = TextureSrc::Png("head.png");
    let other = TextureSrc::Png("other.png");
    let mut store = TextureStorage::new();
    store.add(src);
    store.add(other);
    assert!(store.needs_load(&src));
    let red = Color { r: 1.0f32.to_bits(), g: 0, b: 0, a: 1.0f32.to_bits() };
    store.load(&src, Texture::new(vec![red], 1, 1));
    assert!(!store.needs_load(&src));
    assert!(store.needs_load(&other));
    assert_eq!(store.get(&src).texel(0, 0), red);
    // A second load of a loaded texture changes nothing.
    store.load(&src, Texture::new(vec![Color::zero()], 1, 1));
    assert_eq!(store.get(&src).texel(0, 0), red);
    for _ in 0..(MAX_UNUSED_COUNT - 1) {
        store.tick();
        assert!(!store.needs_load(&src));
    }
    store.tick();
    assert!(store.needs_load(&src));
    // Registering again resets the handle.
    store.load(&src, Texture::new(vec![red], 1, 1));
    store.add(TextureSrc::Png("head.png"));
    assert!(store.needs_load(&src));
    let same = TextureSrc::Png("head.png");
    assert!(src.same_as(&same));
    assert!(!src.same_as(&other));
    let _ = state_name(&TextureLoadState::Loading);
}

#[test]
fn a_two_unit_sampler_set_refuses_the_third_bind() {
    let a = TextureSrc::Png("a.png");
    let b = TextureSrc::Png("b.png");
    let c = TextureSrc::Png("c.png");
    let mut s = RequestedSamplers::<2>::new();
    assert_eq!(s.bind_texture(a), Ok(TextureUnit(0)));
    assert_eq!(s.bind_texture(b), Ok(TextureUnit(1)));
    assert_eq!(s.bind_texture(c), Err("No free binds left"));
    assert_eq!(s.get_texture_binds().len(), 2);
    assert!(s.get_texture_binds()[0].same_as(&a) && s.get_texture_binds()[1].same_as(&b));
    assert_eq!(s.bind_framebuffers_read(fb(1)), Ok(FramebufferUnit(0)));
    let mut w = RequestedWriters::<1>::new();
    assert_eq!(w.bind_framebuffers_write(fb(4)), Ok(FramebufferUnit(0)));
    assert_eq!(w.bind_framebuffers_write(fb(5)), Err("No free binds left"));
    assert_eq!(w.get_framebuffer_binds(), &[fb(4)]);
}
