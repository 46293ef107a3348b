//! A tiled software rasterizer: framebuffers with generation-based clearing,
//! triangle coverage over integer edge functions, tile binning in Morton order,
//! and the stores that hand framebuffers and textures out to render passes.

pub mod color;
pub mod context;
pub mod datatypes;
pub mod forward_pipeline;
pub mod framebuffer;
pub mod material;
pub mod mesh;
pub mod obj;
pub mod renderer;
pub mod rasterizer;
pub mod samplers;
pub mod texture;
pub mod texture_storage;
pub mod visibility;
