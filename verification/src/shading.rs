//! Which shader draws what: the shader for each kind of shader input in each render pass,
//! and how each shader draws.
use vstd::prelude::*;

verus! {

/// The shaders of the graphics engine.
#[derive(Clone, Copy, Debug, PartialEq, Eq, Hash, Structural)]
pub enum ShaderType {
    Laser,
    Pbr,
    Skybox,
    EquiRect,
    CompositeShader,
    BlurShader,
    BloomShader,
    PrefilterHdrShader,
    GenLutShader,
    CullLightsCompute,
    DepthShader,
    DepthInstancedShader,
    PbrInstancedShader,
    PbrAnim,
    DepthAnim,
    TriIntersectionCompute,
    CollisionDebug,
    Billboard,
    ParallelPbr,
    ParallelInstancePbr,
    ParallelAnimPbr,
    ParallelLaser,
    ParallelSky,
    ParallelEqRect,
    ParallelPrefilter,
    Cloud,
    Line,
    Text,
    Minimap,
    Icon,
}

/// The type of objects that should be rendered to a render target.
#[derive(Clone, Copy, Debug)]
pub enum RenderPassType {
    Visual,
    /// Render objects with depth information only.
    Depth,
    /// Transparency pass of the entity with the given address. The transparency pass is a
    /// layered pass.
    Transparent(usize),
    /// Render a pass with multiple layers at once.
    LayeredVisual,
    /// Render depth information of transparent or semi-transparent objects.
    TransparentDepth,
}

/// Two passes are the same kind of pass; all transparency passes are alike, whatever
/// entity they belong to.
pub open spec fn same_pass(a: RenderPassType, b: RenderPassType) -> bool {
    match (a, b) {
        (RenderPassType::Visual, RenderPassType::Visual) => true,
        (RenderPassType::Depth, RenderPassType::Depth) => true,
        (RenderPassType::Transparent(_), RenderPassType::Transparent(_)) => true,
        (RenderPassType::LayeredVisual, RenderPassType::LayeredVisual) => true,
        (RenderPassType::TransparentDepth, RenderPassType::TransparentDepth) => true,
        _ => false,
    }
}

impl PartialEq for RenderPassType {
    fn eq(&self, other: &Self) -> (res: bool) {
        match (self, other) {
            (RenderPassType::Visual, RenderPassType::Visual) => true,
            (RenderPassType::Depth, RenderPassType::Depth) => true,
            (RenderPassType::Transparent(_), RenderPassType::Transparent(_)) => true,
            (RenderPassType::LayeredVisual, RenderPassType::LayeredVisual) => true,
            (RenderPassType::TransparentDepth, RenderPassType::TransparentDepth) => true,
            _ => false,
        }
    }
}

impl vstd::std_specs::cmp::PartialEqSpecImpl for RenderPassType {
    open spec fn obeys_eq_spec() -> bool {
        true
    }

    open spec fn eq_spec(&self, other: &Self) -> bool {
        same_pass(*self, *other)
    }
}

impl Eq for RenderPassType {

}

impl RenderPassType {
    /// The render pass that stands for all transparency render passes.
    ///
    /// Used to indicate that an object should be drawn on a reflection of another
    /// object.
    pub fn transparent_tag() -> (res: RenderPassType)
        ensures
            res == RenderPassType::Transparent(0),
    {
        RenderPassType::Transparent(0)
    }
}

/// The kind of the inputs a rendering object hands the shader manager: what decides
/// which shader draws it. A PBR input says whether it is instanced and whether it carries
/// bone matrices (is animated).
#[derive(Clone, Copy, Debug, PartialEq, Eq, Structural)]
pub enum UniformKind {
    Pbr { instancing: bool, animated: bool },
    EquiRect,
    Skybox,
    Composite,
    SepConv,
    ExtractBright,
    PrefilterHdrEnv,
    GenLut,
    Laser,
    TriangleCollisions,
    LightCull,
    CollisionDebug,
    Billboard,
    Cloud,
    Line,
    Text,
    Minimap,
    Icon,
}

/// The shader that draws inputs of kind `kind` in `pass`, if there is one.
///
/// Instanced PBR inputs take the instanced shaders, animated ones the animated shaders,
/// both before the plain PBR shaders; layered and transparency passes take the parallel
/// shaders; depth passes take the depth shaders; processors and compute shaders run in
/// the visual pass only.
pub open spec fn shader_for(kind: UniformKind, pass: RenderPassType) -> Option<ShaderType> {
    match (kind, pass) {
        (UniformKind::Pbr { instancing: true, .. }, RenderPassType::Visual) => Some(
            ShaderType::PbrInstancedShader,
        ),
        (
            UniformKind::Pbr { instancing: true, .. },
            RenderPassType::Transparent(_) | RenderPassType::LayeredVisual,
        ) => Some(ShaderType::ParallelInstancePbr),
        (UniformKind::Pbr { animated: true, .. }, RenderPassType::Visual) => Some(
            ShaderType::PbrAnim,
        ),
        (
            UniformKind::Pbr { animated: true, .. },
            RenderPassType::LayeredVisual | RenderPassType::Transparent(_),
        ) => Some(ShaderType::ParallelAnimPbr),
        (UniformKind::Pbr { .. }, RenderPassType::Visual) => Some(ShaderType::Pbr),
        (
            UniformKind::Pbr { .. },
            RenderPassType::LayeredVisual | RenderPassType::Transparent(_),
        ) => Some(ShaderType::ParallelPbr),
        (UniformKind::Pbr { instancing: true, .. }, RenderPassType::Depth) => Some(
            ShaderType::DepthInstancedShader,
        ),
        (UniformKind::Pbr { animated: true, .. }, RenderPassType::Depth) => Some(
            ShaderType::DepthAnim,
        ),
        (UniformKind::Laser, RenderPassType::Visual) => Some(ShaderType::Laser),
        (UniformKind::Laser, RenderPassType::LayeredVisual | RenderPassType::Transparent(_)) => Some(
            ShaderType::ParallelLaser,
        ),
        (UniformKind::Laser, RenderPassType::Depth) => Some(ShaderType::DepthShader),
        (
            UniformKind::Pbr { .. },
            RenderPassType::Depth | RenderPassType::TransparentDepth,
        ) => Some(ShaderType::DepthShader),
        (UniformKind::CollisionDebug, RenderPassType::Visual) => Some(ShaderType::CollisionDebug),
        (UniformKind::Cloud, RenderPassType::Visual) => Some(ShaderType::Cloud),
        (UniformKind::Line, RenderPassType::Visual | RenderPassType::Transparent(_)) => Some(
            ShaderType::Line,
        ),
        (UniformKind::EquiRect, RenderPassType::Visual) => Some(ShaderType::EquiRect),
        (UniformKind::Skybox, RenderPassType::Visual) => Some(ShaderType::Skybox),
        (
            UniformKind::EquiRect,
            RenderPassType::LayeredVisual | RenderPassType::Transparent(_),
        ) => Some(ShaderType::ParallelEqRect),
        (UniformKind::Skybox, RenderPassType::LayeredVisual | RenderPassType::Transparent(_)) => Some(
            ShaderType::ParallelSky,
        ),
        (UniformKind::Billboard, RenderPassType::Visual) => Some(ShaderType::Billboard),
        (UniformKind::Text, RenderPassType::Visual) => Some(ShaderType::Text),
        (UniformKind::Minimap, RenderPassType::Visual) => Some(ShaderType::Minimap),
        (UniformKind::Icon, RenderPassType::Visual) => Some(ShaderType::Icon),
        (UniformKind::Composite, RenderPassType::Visual) => Some(ShaderType::CompositeShader),
        (UniformKind::SepConv, RenderPassType::Visual) => Some(ShaderType::BlurShader),
        (UniformKind::ExtractBright, RenderPassType::Visual) => Some(ShaderType::BloomShader),
        (UniformKind::PrefilterHdrEnv, RenderPassType::Visual) => Some(
            ShaderType::PrefilterHdrShader,
        ),
        (UniformKind::PrefilterHdrEnv, RenderPassType::LayeredVisual) => Some(
            ShaderType::ParallelPrefilter,
        ),
        (UniformKind::GenLut, RenderPassType::Visual) => Some(ShaderType::GenLutShader),
        (UniformKind::LightCull, RenderPassType::Visual) => Some(ShaderType::CullLightsCompute),
        (UniformKind::TriangleCollisions, RenderPassType::Visual) => Some(
            ShaderType::TriIntersectionCompute,
        ),
        _ => None,
    }
}

impl UniformKind {
    /// Whether some shader draws inputs of this kind in `pass`.
    pub fn has_shader(&self, pass: RenderPassType) -> (res: bool)
        ensures
            res == shader_for(*self, pass) is Some,
    {
        match (self, pass) {
            (UniformKind::Pbr { .. }, _) => true,
            (UniformKind::Laser, RenderPassType::TransparentDepth) => false,
            (UniformKind::Laser, _) => true,
            (UniformKind::Line, RenderPassType::Visual | RenderPassType::Transparent(_)) => true,
            (
                UniformKind::EquiRect | UniformKind::Skybox,
                RenderPassType::Visual | RenderPassType::LayeredVisual
                | RenderPassType::Transparent(_),
            ) => true,
            (UniformKind::PrefilterHdrEnv, RenderPassType::Visual | RenderPassType::LayeredVisual) => true,
            (_, RenderPassType::Visual) => true,
            _ => false,
        }
    }

    /// The shader that draws inputs of this kind in `pass`.
    pub fn corresp_shader_type(&self, pass: RenderPassType) -> (res: ShaderType)
        requires
            shader_for(*self, pass) is Some,
        ensures
            shader_for(*self, pass) == Some(res),
    {
        match (self, pass) {
            (UniformKind::Pbr { instancing: true, .. }, RenderPassType::Visual) => {
                ShaderType::PbrInstancedShader
            },
            (
                UniformKind::Pbr { instancing: true, .. },
                RenderPassType::Transparent(_) | RenderPassType::LayeredVisual,
            ) => ShaderType::ParallelInstancePbr,
            (UniformKind::Pbr { animated: true, .. }, RenderPassType::Visual) => ShaderType::PbrAnim,
            (
                UniformKind::Pbr { animated: true, .. },
                RenderPassType::LayeredVisual | RenderPassType::Transparent(_),
            ) => ShaderType::ParallelAnimPbr,
            (UniformKind::Pbr { .. }, RenderPassType::Visual) => ShaderType::Pbr,
            (
                UniformKind::Pbr { .. },
                RenderPassType::LayeredVisual | RenderPassType::Transparent(_),
            ) => ShaderType::ParallelPbr,
            (UniformKind::Pbr { instancing: true, .. }, RenderPassType::Depth) => {
                ShaderType::DepthInstancedShader
            },
            (UniformKind::Pbr { animated: true, .. }, RenderPassType::Depth) => ShaderType::DepthAnim,
            (UniformKind::Laser, RenderPassType::Visual) => ShaderType::Laser,
            (
                UniformKind::Laser,
                RenderPassType::LayeredVisual | RenderPassType::Transparent(_),
            ) => ShaderType::ParallelLaser,
            (UniformKind::Laser, RenderPassType::Depth) => ShaderType::DepthShader,
            (
                UniformKind::Pbr { .. },
                RenderPassType::Depth | RenderPassType::TransparentDepth,
            ) => ShaderType::DepthShader,
            (UniformKind::CollisionDebug, RenderPassType::Visual) => ShaderType::CollisionDebug,
            (UniformKind::Cloud, RenderPassType::Visual) => ShaderType::Cloud,
            (UniformKind::Line, RenderPassType::Visual | RenderPassType::Transparent(_)) => {
                ShaderType::Line
            },
            (UniformKind::EquiRect, RenderPassType::Visual) => ShaderType::EquiRect,
            (UniformKind::Skybox, RenderPassType::Visual) => ShaderType::Skybox,
            (
                UniformKind::EquiRect,
                RenderPassType::LayeredVisual | RenderPassType::Transparent(_),
            ) => ShaderType::ParallelEqRect,
            (
                UniformKind::Skybox,
                RenderPassType::LayeredVisual | RenderPassType::Transparent(_),
            ) => ShaderType::ParallelSky,
            (UniformKind::Billboard, RenderPassType::Visual) => ShaderType::Billboard,
            (UniformKind::Text, RenderPassType::Visual) => ShaderType::Text,
            (UniformKind::Minimap, RenderPassType::Visual) => ShaderType::Minimap,
            (UniformKind::Icon, RenderPassType::Visual) => ShaderType::Icon,
            (UniformKind::Composite, RenderPassType::Visual) => ShaderType::CompositeShader,
            (UniformKind::SepConv, RenderPassType::Visual) => ShaderType::BlurShader,
            (UniformKind::ExtractBright, RenderPassType::Visual) => ShaderType::BloomShader,
            (UniformKind::PrefilterHdrEnv, RenderPassType::Visual) => ShaderType::PrefilterHdrShader,
            (UniformKind::PrefilterHdrEnv, RenderPassType::LayeredVisual) => {
                ShaderType::ParallelPrefilter
            },
            (UniformKind::GenLut, RenderPassType::Visual) => ShaderType::GenLutShader,
            (UniformKind::LightCull, RenderPassType::Visual) => ShaderType::CullLightsCompute,
            _ => ShaderType::TriIntersectionCompute,
        }
    }
}

/// Which faces a draw call culls.
#[derive(Clone, Copy, Debug, PartialEq, Eq, Structural)]
pub enum Culling {
    NoFaces,
    Clockwise,
    CounterClockwise,
}

/// How a shader draws: whether it tests depth (passing fragments nearer than what is
/// drawn) and writes it, which faces it culls, whether it draws polygons as lines of
/// width 2, and whether it blends by alpha.
#[derive(Clone, Copy, Debug, PartialEq, Eq, Structural)]
pub struct DrawStyle {
    pub depth_test_less: bool,
    pub culling: Culling,
    pub line_polygons: bool,
    pub alpha_blending: bool,
}

/// How each shader draws: solid shaders test depth and cull clockwise faces; debug and
/// line shaders test depth and draw lines; billboards, the minimap and icons blend and
/// cull clockwise faces; clouds blend and cull counter-clockwise faces; text blends;
/// every other shader draws with the defaults.
pub open spec fn draw_style_of(shader: ShaderType) -> DrawStyle {
    match shader {
        ShaderType::Pbr | ShaderType::PbrInstancedShader | ShaderType::DepthShader
        | ShaderType::DepthInstancedShader | ShaderType::Laser | ShaderType::PbrAnim
        | ShaderType::DepthAnim | ShaderType::ParallelInstancePbr | ShaderType::ParallelLaser
        | ShaderType::ParallelPbr => DrawStyle {
            depth_test_less: true,
            culling: Culling::Clockwise,
            line_polygons: false,
            alpha_blending: false,
        },
        ShaderType::CollisionDebug | ShaderType::Line => DrawStyle {
            depth_test_less: true,
            culling: Culling::NoFaces,
            line_polygons: true,
            alpha_blending: false,
        },
        ShaderType::Billboard | ShaderType::Minimap | ShaderType::Icon => DrawStyle {
            depth_test_less: false,
            culling: Culling::Clockwise,
            line_polygons: false,
            alpha_blending: true,
        },
        ShaderType::Cloud => DrawStyle {
            depth_test_less: false,
            culling: Culling::CounterClockwise,
            line_polygons: false,
            alpha_blending: true,
        },
        ShaderType::Text => DrawStyle {
            depth_test_less: false,
            culling: Culling::NoFaces,
            line_polygons: false,
            alpha_blending: true,
        },
        _ => DrawStyle {
            depth_test_less: false,
            culling: Culling::NoFaces,
            line_polygons: false,
            alpha_blending: false,
        },
    }
}

impl ShaderType {
    /// How this shader draws, in any pass.
    pub fn get_draw_params(self, pass: RenderPassType) -> (res: DrawStyle)
        ensures
            res == draw_style_of(self),
    {
        match self {
            ShaderType::Pbr | ShaderType::PbrInstancedShader | ShaderType::DepthShader
            | ShaderType::DepthInstancedShader | ShaderType::Laser | ShaderType::PbrAnim
            | ShaderType::DepthAnim | ShaderType::ParallelInstancePbr
            | ShaderType::ParallelLaser | ShaderType::ParallelPbr => DrawStyle {
                depth_test_less: true,
                culling: Culling::Clockwise,
                line_polygons: false,
                alpha_blending: false,
            },
            ShaderType::CollisionDebug | ShaderType::Line => DrawStyle {
                depth_test_less: true,
                culling: Culling::NoFaces,
                line_polygons: true,
                alpha_blending: false,
            },
            ShaderType::Billboard | ShaderType::Minimap | ShaderType::Icon => DrawStyle {
                depth_test_less: false,
                culling: Culling::Clockwise,
                line_polygons: false,
                alpha_blending: true,
            },
            ShaderType::Cloud => DrawStyle {
                depth_test_less: false,
                culling: Culling::CounterClockwise,
                line_polygons: false,
                alpha_blending: true,
            },
            ShaderType::Text => DrawStyle {
                depth_test_less: false,
                culling: Culling::NoFaces,
                line_polygons: false,
                alpha_blending: true,
            },
            _ => DrawStyle {
                depth_test_less: false,
                culling: Culling::NoFaces,
                line_polygons: false,
                alpha_blending: false,
            },
        }
    }
}

/// A depth pass, of either kind, only ever picks a depth shader; a layered or
/// transparency pass only ever picks a parallel shader or the line shader.
pub proof fn lemma_pass_picks_its_shaders(kind: UniformKind, pass: RenderPassType)
    requires
        shader_for(kind, pass) is Some,
    ensures
        (pass is Depth || pass is TransparentDepth) ==> (shader_for(kind, pass)->0 is DepthShader
            || shader_for(kind, pass)->0 is DepthInstancedShader || shader_for(kind, pass)->0 is DepthAnim),
        (pass is LayeredVisual || pass is Transparent) ==> (shader_for(kind, pass)->0 is ParallelPbr
            || shader_for(kind, pass)->0 is ParallelInstancePbr || shader_for(kind, pass)->0 is ParallelAnimPbr
            || shader_for(kind, pass)->0 is ParallelLaser || shader_for(kind, pass)->0 is ParallelSky
            || shader_for(kind, pass)->0 is ParallelEqRect || shader_for(kind, pass)->0 is ParallelPrefilter
            || shader_for(kind, pass)->0 is Line),
{
}

/// Whether an entity drawn in `passes` is drawn in `pass`. A depth pass draws it only if
/// it is opaque, a transparent-depth pass only if it is transparent; `transparent` is
/// `None` when the entity's geometry has no transparency, and otherwise says whether its
/// transparency is above the smallest `f32` step.
pub open spec fn renders_in(
    passes: Seq<RenderPassType>,
    pass: RenderPassType,
    transparent: Option<bool>,
) -> bool {
    let listed = exists|i: int| 0 <= i < passes.len() && same_pass(#[trigger] passes[i], pass);
    listed && match pass {
        RenderPassType::Depth => !(transparent == Some(true)),
        RenderPassType::TransparentDepth => transparent == Some(true),
        _ => true,
    }
}

/// Determines if an entity drawn in `render_passes` should be drawn during `pass`.
pub fn should_render(
    render_passes: &[RenderPassType],
    pass: RenderPassType,
    transparent: Option<bool>,
) -> (res: bool)
    ensures
        res == renders_in(render_passes@, pass, transparent),
{
    let mut listed = false;
    let mut i: usize = 0;
    while i < render_passes.len()
        invariant
            i <= render_passes@.len(),
            listed == exists|j: int| 0 <= j < i && same_pass(#[trigger] render_passes@[j], pass),
        decreases render_passes@.len() - i,
    {
        if render_passes[i] == pass {
            listed = true;
        }
        i = i + 1;
    }
    if listed {
        match pass {
            RenderPassType::Depth => match transparent {
                Some(t) => !t,
                None => true,
            },
            RenderPassType::TransparentDepth => match transparent {
                Some(t) => t,
                None => false,
            },
            _ => true,
        }
    } else {
        false
    }
}

/// A pass of a kind other than a transparency pass is listed exactly when it occurs.
proof fn lemma_listed_exactly(passes: Seq<RenderPassType>, pass: RenderPassType)
    requires
        !(pass is Transparent),
    ensures
        (exists|i: int| 0 <= i < passes.len() && same_pass(#[trigger] passes[i], pass))
            <==> passes.contains(pass),
{
    if passes.contains(pass) {
        let i = choose|i: int| 0 <= i < passes.len() && passes[i] == pass;
        assert(same_pass(passes[i], pass));
    }
    if exists|i: int| 0 <= i < passes.len() && same_pass(#[trigger] passes[i], pass) {
        let i = choose|i: int| 0 <= i < passes.len() && same_pass(#[trigger] passes[i], pass);
        assert(passes[i] == pass);
    }
}

/// The depth pass draws an entity it lists exactly when the entity is not transparent
/// (an entity that reports no transparency counts as opaque); the transparent depth pass
/// draws one it lists exactly when it reports that it is transparent. A pass that is not
/// listed draws nothing.
pub proof fn lemma_depth_passes_split_by_transparency(
    passes: Seq<RenderPassType>,
    transparent: Option<bool>,
)
    ensures
        renders_in(passes, RenderPassType::Depth, transparent) <==> (passes.contains(
            RenderPassType::Depth,
        ) && transparent != Some(true)),
        renders_in(passes, RenderPassType::TransparentDepth, transparent) <==> (passes.contains(
            RenderPassType::TransparentDepth,
        ) && transparent == Some(true)),
        passes.contains(RenderPassType::Depth) ==> renders_in(
            passes,
            RenderPassType::Depth,
            Some(false),
        ) && renders_in(passes, RenderPassType::Depth, None),
{
    lemma_listed_exactly(passes, RenderPassType::Depth);
    lemma_listed_exactly(passes, RenderPassType::TransparentDepth);
}

/// The visual and layered passes draw an entity exactly when they are listed, whatever
/// its transparency; a transparency pass draws it exactly when some transparency pass is
/// listed.
pub proof fn lemma_other_passes_draw_when_listed(
    passes: Seq<RenderPassType>,
    pass: RenderPassType,
    transparent: Option<bool>,
)
    ensures
        (pass == RenderPassType::Visual || pass == RenderPassType::LayeredVisual) ==> (renders_in(
            passes,
            pass,
            transparent,
        ) <==> passes.contains(pass)),
        pass is Transparent ==> (renders_in(passes, pass, transparent) <==> exists|i: int|
            0 <= i < passes.len() && #[trigger] passes[i] is Transparent),
{
    if pass == RenderPassType::Visual || pass == RenderPassType::LayeredVisual {
        lemma_listed_exactly(passes, pass);
    }
    if pass is Transparent {
        if exists|i: int| 0 <= i < passes.len() && #[trigger] passes[i] is Transparent {
            let i = choose|i: int| 0 <= i < passes.len() && #[trigger] passes[i] is Transparent;
            assert(same_pass(passes[i], pass));
        }
    }
}

} // verus!
