use vstd::prelude::*;

verus! {

/// Sources of the stages of a rasterization program, handed to the renderer.
pub struct ShaderSource {
    pub vertex_shader: String,
    pub geometry_shader: Option<String>,
    pub tesselation_shader: Option<String>,
    pub fragment_shader: String,
}

/// Handle of a compiled compute program, as the renderer's graphics API names it.
pub struct RawShader {
    pub program: u32,
}

} // verus!
