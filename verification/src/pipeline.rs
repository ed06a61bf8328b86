//! How a wallpaper is rendered: which buffers its passes need, which texture each
//! channel of a pass samples, and how a pass is blended.
use vstd::prelude::*;
use crate::manifest;
use crate::manifest::{BindingConfig, BindingText, PassConfig, WallpaperConfig};
use crate::text;
use crate::text::{chars_of, decimal_of, opt_is, position_of, rfind_char, str_eq, string_of, sub_chars};

verus! {

broadcast use vstd::string::group_string_axioms;

// ---------------------------------------------------------------------------
// Blending
// ---------------------------------------------------------------------------

/// A factor of a blend equation.
#[derive(Clone, Copy, PartialEq, Eq, Structural)]
pub enum BlendFactor {
    Zero,
    One,
    OneMinusSrc,
    SrcAlpha,
    OneMinusSrcAlpha,
    Dst,
}

/// A blend equation: the source times one factor plus the destination times
/// another.
#[derive(Clone, Copy, PartialEq, Eq, Structural)]
pub struct BlendComponent {
    pub src_factor: BlendFactor,
    pub dst_factor: BlendFactor,
}

/// How a pass is blended with what its target holds.
#[derive(Clone, Copy, PartialEq, Eq, Structural)]
pub struct BlendState {
    pub color: BlendComponent,
    pub alpha: BlendComponent,
}

/// A blend equation.
pub open spec fn equation(src_factor: BlendFactor, dst_factor: BlendFactor) -> BlendComponent {
    BlendComponent { src_factor, dst_factor }
}

/// The blending of a layer. The shader's colors are premultiplied, so that normal
/// layers are put over what is there, additive ones are added, multiplied ones
/// multiply, and screened ones give `src + dst - src * dst`.
pub open spec fn mode_blend(mode: Seq<char>) -> BlendState {
    if mode == "additive"@ {
        BlendState {
            color: equation(BlendFactor::One, BlendFactor::One),
            alpha: equation(BlendFactor::One, BlendFactor::One),
        }
    } else if mode == "multiply"@ {
        BlendState {
            color: equation(BlendFactor::Dst, BlendFactor::Zero),
            alpha: equation(BlendFactor::One, BlendFactor::Zero),
        }
    } else if mode == "screen"@ {
        BlendState {
            color: equation(BlendFactor::One, BlendFactor::OneMinusSrc),
            alpha: equation(BlendFactor::One, BlendFactor::OneMinusSrcAlpha),
        }
    } else {
        BlendState {
            color: equation(BlendFactor::One, BlendFactor::OneMinusSrcAlpha),
            alpha: equation(BlendFactor::One, BlendFactor::OneMinusSrcAlpha),
        }
    }
}

/// The blending of a pass: that of the layer for the pass that is shown; for a
/// buffer, alpha blending where its description says so, and replacement otherwise.
pub open spec fn blend_of_pass(name: Seq<char>, blend: Seq<char>, layer: Seq<char>) -> BlendState {
    if name == "image"@ {
        mode_blend(layer)
    } else if blend == "alpha"@ {
        BlendState {
            color: equation(BlendFactor::SrcAlpha, BlendFactor::OneMinusSrcAlpha),
            alpha: equation(BlendFactor::One, BlendFactor::OneMinusSrcAlpha),
        }
    } else {
        BlendState {
            color: equation(BlendFactor::One, BlendFactor::Zero),
            alpha: equation(BlendFactor::One, BlendFactor::Zero),
        }
    }
}

fn blend(c_src: BlendFactor, c_dst: BlendFactor, a_src: BlendFactor, a_dst: BlendFactor) -> (r: BlendState)
    ensures
        r.color == equation(c_src, c_dst),
        r.alpha == equation(a_src, a_dst),
{
    BlendState {
        color: BlendComponent { src_factor: c_src, dst_factor: c_dst },
        alpha: BlendComponent { src_factor: a_src, dst_factor: a_dst },
    }
}

/// The blending of a layer.
pub fn blend_for_mode(mode: &str) -> (r: BlendState)
    ensures
        r == mode_blend(mode@),
{
    if str_eq(mode, "additive") {
        blend(BlendFactor::One, BlendFactor::One, BlendFactor::One, BlendFactor::One)
    } else if str_eq(mode, "multiply") {
        blend(BlendFactor::Dst, BlendFactor::Zero, BlendFactor::One, BlendFactor::Zero)
    } else if str_eq(mode, "screen") {
        blend(BlendFactor::One, BlendFactor::OneMinusSrc, BlendFactor::One, BlendFactor::OneMinusSrcAlpha)
    } else {
        blend(BlendFactor::One, BlendFactor::OneMinusSrcAlpha, BlendFactor::One, BlendFactor::OneMinusSrcAlpha)
    }
}

/// The blending of a pass.
pub fn pass_blend(name: &str, own_blend: &str, layer_blend: &str) -> (r: BlendState)
    ensures
        r == blend_of_pass(name@, own_blend@, layer_blend@),
{
    if str_eq(name, "image") {
        blend_for_mode(layer_blend)
    } else if str_eq(own_blend, "alpha") {
        blend(BlendFactor::SrcAlpha, BlendFactor::OneMinusSrcAlpha, BlendFactor::One, BlendFactor::OneMinusSrcAlpha)
    } else {
        blend(BlendFactor::One, BlendFactor::Zero, BlendFactor::One, BlendFactor::Zero)
    }
}

// ---------------------------------------------------------------------------
// Buffers
// ---------------------------------------------------------------------------

/// The buffer of a pass: one texture, or two that take turns from frame to frame.
#[derive(Clone, Copy)]
pub struct RenderTargetData {
    pub slots: usize,
    pub size: (u32, u32),
}

impl RenderTargetData {
    /// A buffer has one or two textures.
    pub open spec fn wf(self) -> bool {
        self.slots == 1 || self.slots == 2
    }

    /// The texture that stands for a slot: with a single texture, that one.
    pub open spec fn texture_of(self, slot: int) -> int {
        if self.slots == 1 {
            0
        } else {
            slot % 2
        }
    }

    /// A buffer; with `history` it keeps the previous frame.
    pub fn new(width: u32, height: u32, history: bool) -> (r: Self)
        ensures
            r.wf(),
            r.slots == (if history {
                2int
            } else {
                1int
            }),
            r.size == (width, height),
    {
        RenderTargetData {
            slots: if history {
                2
            } else {
                1
            },
            size: (width, height),
        }
    }

    /// The texture that stands for a slot.
    pub fn view_at(&self, slot: usize) -> (r: usize)
        requires
            self.wf(),
        ensures
            r == self.texture_of(slot as int),
            r < self.slots,
    {
        let bit: usize = slot % 2;
        if bit < self.slots - 1 {
            bit
        } else {
            self.slots - 1
        }
    }
}

/// Whether a pass samples the buffer `target`.
pub open spec fn reads(pass: PassConfig, target: Seq<char>) -> bool {
    exists|i: int|
        0 <= i < pass.bindings@.len() && (#[trigger] pass.bindings@[i])@.kind == "buffer"@
            && pass.bindings@[i]@.target == Some(target)
}

/// Whether the pass at position `i` reads what `target` held after the previous
/// frame: the pass that produces the buffer does not run before it.
pub open spec fn reads_previous(config: WallpaperConfig, target: Seq<char>, i: int) -> bool {
    let passes = text::texts(config.wallpaper.passes@);
    &&& 0 <= i < passes.len()
    &&& config.pass(passes[i]) matches Some(p) && reads(p, target)
    &&& text::pos(passes, target) matches Some(producer) && producer >= i
}

/// Whether a buffer has to keep the previous frame.
pub open spec fn needs_history(config: WallpaperConfig, target: Seq<char>) -> bool {
    exists|i: int| reads_previous(config, target, i)
}

fn pass_reads(pass: &PassConfig, target: &str) -> (r: bool)
    ensures
        r == reads(*pass, target@),
{
    let mut i: usize = 0;
    while i < pass.bindings.len()
        invariant
            i <= pass.bindings.len(),
            forall|j: int|
                0 <= j < i ==> !((#[trigger] pass.bindings@[j])@.kind == "buffer"@ && pass.bindings@[j]@.target == Some(
                    target@,
                )),
        decreases pass.bindings.len() - i,
    {
        let b = &pass.bindings[i];
        if str_eq(b.binding_type.as_str(), "buffer") && opt_is(&b.target, target) {
            assert(pass.bindings@[i as int]@.target == Some(target@));
            return true;
        }
        i = i + 1;
    }
    false
}

/// Whether some pass reads what the buffer of `target_name` held after the
/// previous frame: the pass itself, or one that runs before it. Only such buffers
/// need a second texture.
pub fn target_needs_history(config: &WallpaperConfig, target_name: &str) -> (r: bool)
    ensures
        r == needs_history(*config, target_name@),
{
    let passes = &config.wallpaper.passes;
    let ghost names = text::texts(passes@);
    let producer = match position_of(passes, target_name) {
        Some(p) => p,
        None => {
            return false;
        },
    };
    let mut i: usize = 0;
    while i < passes.len()
        invariant
            i <= passes.len(),
            names == text::texts(passes@),
            passes@ == config.wallpaper.passes@,
            text::pos(names, target_name@) == Some(producer as int),
            forall|j: int| 0 <= j < i ==> !reads_previous(*config, target_name@, j),
        decreases passes.len() - i,
    {
        assert(names[i as int] == passes@[i as int]@);
        match config.find_pass(passes[i].as_str()) {
            Some(cfg) => {
                if producer >= i && pass_reads(cfg, target_name) {
                    assert(reads_previous(*config, target_name@, i as int));
                    return true;
                }
            },
            None => {},
        }
        i = i + 1;
    }
    assert forall|j: int| !reads_previous(*config, target_name@, j) by {}
    false
}

// ---------------------------------------------------------------------------
// Channels
// ---------------------------------------------------------------------------

/// Whether one of the bindings puts a cubemap on channel `ch`.
pub open spec fn cube_on(bindings: Seq<BindingText>, ch: int) -> bool {
    exists|i: int| 0 <= i < bindings.len() && (#[trigger] bindings[i]).kind == "cubemap"@ && bindings[i].channel == ch
}

/// Which of the four channels the bindings of a pass put a cubemap on.
pub fn pass_cube_channels(bindings: &Vec<BindingConfig>) -> (r: [bool; 4])
    ensures
        forall|ch: int| 0 <= ch < 4 ==> #[trigger] r@[ch] == cube_on(manifest::binding_texts(bindings@), ch),
{
    let r = [
        has_cube(bindings, 0),
        has_cube(bindings, 1),
        has_cube(bindings, 2),
        has_cube(bindings, 3),
    ];
    r
}

fn has_cube(bindings: &Vec<BindingConfig>, ch: u32) -> (r: bool)
    ensures
        r == cube_on(manifest::binding_texts(bindings@), ch as int),
{
    let ghost all = manifest::binding_texts(bindings@);
    let mut i: usize = 0;
    while i < bindings.len()
        invariant
            i <= bindings.len(),
            all == manifest::binding_texts(bindings@),
            forall|j: int| 0 <= j < i ==> !((#[trigger] all[j]).kind == "cubemap"@ && all[j].channel == ch),
        decreases bindings.len() - i,
    {
        assert(all[i as int] == bindings@[i as int]@);
        if bindings[i].channel == ch && str_eq(bindings[i].binding_type.as_str(), "cubemap") {
            return true;
        }
        i = i + 1;
    }
    false
}

/// What a channel samples.
#[verifier::ext_equal]
pub enum ChannelText {
    /// A white texture.
    Default,
    /// A white cubemap.
    DefaultCube,
    /// The texture or cubemap of a file.
    Texture(Seq<char>),
    /// The buffer of a pass, in the given slot.
    Buffer(Seq<char>, nat),
    /// The audio texture.
    Audio,
}

/// What a channel samples, in executable form.
pub enum ChannelSource {
    Default,
    DefaultCube,
    Texture(String),
    Buffer(String, usize),
    Audio,
}

impl View for ChannelSource {
    type V = ChannelText;

    open spec fn view(&self) -> ChannelText {
        match self {
            ChannelSource::Default => ChannelText::Default,
            ChannelSource::DefaultCube => ChannelText::DefaultCube,
            ChannelSource::Texture(p) => ChannelText::Texture(p@),
            ChannelSource::Buffer(t, slot) => ChannelText::Buffer(t@, *slot as nat),
            ChannelSource::Audio => ChannelText::Audio,
        }
    }
}

/// A channel of a pass: what it samples, and whether it clamps at the edges.
pub struct ChannelPlan {
    pub source: ChannelSource,
    pub clamp: bool,
}

/// The slot in which the pass at position `this` samples `target` in a frame of the
/// given parity: what was written in this frame where the producer has run before,
/// what was written in the previous frame otherwise.
pub open spec fn read_slot(passes: Seq<Seq<char>>, target: Seq<char>, this: int, parity: int) -> int {
    if text::pos(passes, target) matches Some(p) && p < this {
        1 - parity
    } else {
        parity
    }
}

/// The slot that the passes write in a frame of the given parity.
pub open spec fn write_slot(parity: int) -> int {
    1 - parity
}

/// Whether a pass has a buffer: all passes but the one that is shown.
pub open spec fn has_buffer(passes: Seq<Seq<char>>, target: Seq<char>) -> bool {
    passes.contains(target) && target != "image"@
}

/// What a binding makes its channel sample; nothing where it does not apply.
pub open spec fn bound(b: BindingText, passes: Seq<Seq<char>>, this: int, parity: int) -> Option<ChannelText> {
    if b.kind == "texture"@ || b.kind == "cubemap"@ {
        match b.path {
            Some(p) => Some(ChannelText::Texture(p)),
            None => None,
        }
    } else if b.kind == "buffer"@ {
        match b.target {
            Some(t) if has_buffer(passes, t) => Some(
                ChannelText::Buffer(t, read_slot(passes, t, this, parity) as nat),
            ),
            _ => None,
        }
    } else if b.kind == "audio"@ {
        Some(ChannelText::Audio)
    } else {
        None
    }
}

/// What channel `ch` samples: the last binding that applies to it decides.
pub open spec fn channel(
    bindings: Seq<BindingText>,
    ch: int,
    cube: bool,
    passes: Seq<Seq<char>>,
    this: int,
    parity: int,
) -> (ChannelText, bool)
    decreases bindings.len(),
{
    if bindings.len() == 0 {
        (
            if cube {
                ChannelText::DefaultCube
            } else {
                ChannelText::Default
            },
            false,
        )
    } else {
        let b = bindings.last();
        match bound(b, passes, this, parity) {
            Some(c) if b.channel == ch => (c, b.wrap == Some("clamp"@)),
            _ => channel(bindings.drop_last(), ch, cube, passes, this, parity),
        }
    }
}

fn bind_channel(b: &BindingConfig, passes: &Vec<String>, this: usize, parity: usize) -> (r: Option<ChannelSource>)
    requires
        parity <= 1,
    ensures
        match r {
            Some(c) => bound(b@, text::texts(passes@), this as int, parity as int) == Some(c@),
            None => bound(b@, text::texts(passes@), this as int, parity as int) is None,
        },
{
    let kind = b.binding_type.as_str();
    if str_eq(kind, "texture") || str_eq(kind, "cubemap") {
        match &b.path {
            Some(p) => Some(ChannelSource::Texture(p.clone())),
            None => None,
        }
    } else if str_eq(kind, "buffer") {
        match &b.target {
            Some(t) => {
                if str_eq(t.as_str(), "image") {
                    return None;
                }
                match position_of(passes, t.as_str()) {
                    Some(p) => {
                        proof {
                            assert(text::texts(passes@)[p as int] == t@);
                            assert(text::texts(passes@).contains(t@));
                        }
                        let slot: usize = if p < this { 1 - parity } else { parity };
                        Some(ChannelSource::Buffer(t.clone(), slot))
                    },
                    None => None,
                }
            },
            None => None,
        }
    } else if str_eq(kind, "audio") {
        Some(ChannelSource::Audio)
    } else {
        None
    }
}

/// What channel `ch` of the pass at position `this` samples in a frame of the given
/// parity.
pub fn plan_channel(
    bindings: &Vec<BindingConfig>,
    ch: u32,
    passes: &Vec<String>,
    this: usize,
    parity: usize,
) -> (r: ChannelPlan)
    requires
        parity <= 1,
    ensures
        (r.source@, r.clamp) == channel(
            manifest::binding_texts(bindings@),
            ch as int,
            cube_on(manifest::binding_texts(bindings@), ch as int),
            text::texts(passes@),
            this as int,
            parity as int,
        ),
{
    let cube = has_cube(bindings, ch);
    let ghost all = manifest::binding_texts(bindings@);
    let ghost names = text::texts(passes@);
    let mut i: usize = bindings.len();
    assert(all.subrange(0, all.len() as int) =~= all);
    while i > 0
        invariant
            i <= bindings.len(),
            parity <= 1,
            cube == cube_on(all, ch as int),
            all == manifest::binding_texts(bindings@),
            names == text::texts(passes@),
            channel(all, ch as int, cube, names, this as int, parity as int) == channel(
                all.subrange(0, i as int),
                ch as int,
                cube,
                names,
                this as int,
                parity as int,
            ),
        decreases i,
    {
        assert(all.subrange(0, i as int).drop_last() =~= all.subrange(0, i - 1));
        assert(all.subrange(0, i as int).last() == bindings@[i - 1]@);
        let b = &bindings[i - 1];
        if b.channel == ch {
            match bind_channel(b, passes, this, parity) {
                Some(source) => {
                    return ChannelPlan { source, clamp: opt_is(&b.wrap, "clamp") };
                },
                None => {},
            }
        }
        i = i - 1;
    }
    ChannelPlan {
        source: if cube {
            ChannelSource::DefaultCube
        } else {
            ChannelSource::Default
        },
        clamp: false,
    }
}

/// Whether a list holds what the four channels of a pass sample.
pub open spec fn is_group(
    plan: Seq<ChannelPlan>,
    bindings: Seq<BindingText>,
    passes: Seq<Seq<char>>,
    this: int,
    parity: int,
) -> bool {
    &&& plan.len() == 4
    &&& forall|ch: int|
        0 <= ch < 4 ==> ((#[trigger] plan[ch]).source@, plan[ch].clamp) == channel(
            bindings,
            ch,
            cube_on(bindings, ch),
            passes,
            this,
            parity,
        )
}

/// What the four channels of the pass at position `this` sample in a frame of the
/// given parity.
pub fn create_channel_bind_group(
    bindings: &Vec<BindingConfig>,
    passes: &Vec<String>,
    this: usize,
    parity: usize,
) -> (r: Vec<ChannelPlan>)
    requires
        parity <= 1,
    ensures
        is_group(r@, manifest::binding_texts(bindings@), text::texts(passes@), this as int, parity as int),
{
    let mut out: Vec<ChannelPlan> = Vec::new();
    let mut ch: u32 = 0;
    let ghost all = manifest::binding_texts(bindings@);
    while ch < 4
        invariant
            ch <= 4,
            parity <= 1,
            out@.len() == ch,
            all == manifest::binding_texts(bindings@),
            forall|k: int|
                0 <= k < ch ==> ((#[trigger] out@[k]).source@, out@[k].clamp) == channel(
                    all,
                    k,
                    cube_on(all, k),
                    text::texts(passes@),
                    this as int,
                    parity as int,
                ),
        decreases 4 - ch,
    {
        out.push(plan_channel(bindings, ch, passes, this, parity));
        ch = ch + 1;
    }
    out
}

/// An entry of the layout of a pass's channels.
#[derive(Clone, Copy, PartialEq, Eq, Structural)]
pub enum LayoutEntry {
    Texture { binding: u32, cube: bool },
    Sampler { binding: u32 },
}

/// Entry `j` of the layout: for channel `i` a texture at `2 i`, a cubemap where
/// the pass samples one, and a sampler at `2 i + 1`.
pub open spec fn layout_entry(cube: Seq<bool>, j: int) -> LayoutEntry {
    if j % 2 == 0 {
        LayoutEntry::Texture { binding: j as u32, cube: cube[j / 2] }
    } else {
        LayoutEntry::Sampler { binding: j as u32 }
    }
}

/// The layout of a pass's channels.
pub fn channel_layout_for(cube_channels: [bool; 4]) -> (r: Vec<LayoutEntry>)
    ensures
        r@.len() == 8,
        forall|j: int| 0 <= j < 8 ==> #[trigger] r@[j] == layout_entry(cube_channels@, j),
{
    let mut out: Vec<LayoutEntry> = Vec::new();
    let mut j: u32 = 0;
    while j < 8
        invariant
            j <= 8,
            out@.len() == j,
            forall|k: int| 0 <= k < j ==> #[trigger] out@[k] == layout_entry(cube_channels@, k),
        decreases 8 - j,
    {
        if j % 2 == 0 {
            out.push(LayoutEntry::Texture { binding: j, cube: cube_channels[(j / 2) as usize] });
        } else {
            out.push(LayoutEntry::Sampler { binding: j });
        }
        j = j + 1;
    }
    out
}

// ---------------------------------------------------------------------------
// Files
// ---------------------------------------------------------------------------

/// An image that has to be loaded.
#[verifier::ext_equal]
pub struct LoadText {
    pub path: Seq<char>,
    pub cube: bool,
}

/// An image that has to be loaded: a texture, or the six faces of a cubemap.
pub struct TextureLoad {
    pub path: String,
    pub cube: bool,
}

impl View for TextureLoad {
    type V = LoadText;

    open spec fn view(&self) -> LoadText {
        LoadText { path: self.path@, cube: self.cube }
    }
}

/// The images of a list.
pub open spec fn load_texts(v: Seq<TextureLoad>) -> Seq<LoadText> {
    Seq::new(v.len(), |i: int| v[i]@)
}

/// Whether a list of images has one with the given path.
pub open spec fn has_path(loads: Seq<LoadText>, path: Seq<char>) -> bool {
    exists|i: int| 0 <= i < loads.len() && (#[trigger] loads[i]).path == path
}

/// The images that bindings need beyond `before`; each path is loaded once, as its
/// first binding says.
pub open spec fn more_loads(before: Seq<LoadText>, bindings: Seq<BindingText>) -> Seq<LoadText>
    decreases bindings.len(),
{
    if bindings.len() == 0 {
        before
    } else {
        let rest = more_loads(before, bindings.drop_last());
        let b = bindings.last();
        match b.path {
            Some(p) if (b.kind == "texture"@ || b.kind == "cubemap"@) && !has_path(rest, p) => rest.push(
                LoadText { path: p, cube: b.kind != "texture"@ },
            ),
            _ => rest,
        }
    }
}

/// The images that the described passes need.
pub open spec fn all_loads(targets: Seq<manifest::RenderTarget>) -> Seq<LoadText>
    decreases targets.len(),
{
    if targets.len() == 0 {
        Seq::empty()
    } else {
        more_loads(
            all_loads(targets.drop_last()),
            manifest::binding_texts(targets.last().config.bindings@),
        )
    }
}

fn path_loaded(loads: &Vec<TextureLoad>, path: &str) -> (r: bool)
    ensures
        r == has_path(load_texts(loads@), path@),
{
    let mut i: usize = 0;
    while i < loads.len()
        invariant
            i <= loads.len(),
            forall|j: int| 0 <= j < i ==> (#[trigger] load_texts(loads@)[j]).path != path@,
        decreases loads.len() - i,
    {
        if str_eq(loads[i].path.as_str(), path) {
            assert(load_texts(loads@)[i as int].path == path@);
            return true;
        }
        i = i + 1;
    }
    false
}

fn push_loads(out: &mut Vec<TextureLoad>, bindings: &Vec<BindingConfig>)
    ensures
        load_texts(final(out)@) == more_loads(load_texts(old(out)@), manifest::binding_texts(bindings@)),
{
    let ghost start = load_texts(out@);
    let ghost all = manifest::binding_texts(bindings@);
    let mut i: usize = 0;
    assert(all.subrange(0, 0) =~= Seq::<BindingText>::empty());
    while i < bindings.len()
        invariant
            i <= bindings.len(),
            all == manifest::binding_texts(bindings@),
            load_texts(out@) == more_loads(start, all.subrange(0, i as int)),
        decreases bindings.len() - i,
    {
        assert(all.subrange(0, i + 1).drop_last() =~= all.subrange(0, i as int));
        assert(all.subrange(0, i + 1).last() == bindings@[i as int]@);
        let b = &bindings[i];
        let texture = str_eq(b.binding_type.as_str(), "texture");
        match &b.path {
            Some(p) => {
                if (texture || str_eq(b.binding_type.as_str(), "cubemap")) && !path_loaded(out, p.as_str()) {
                    let ghost before = out@;
                    let load = TextureLoad { path: p.clone(), cube: !texture };
                    let ghost lt = load@;
                    out.push(load);
                    assert(load_texts(out@) =~= load_texts(before).push(lt));
                }
            },
            None => {},
        }
        i = i + 1;
    }
    assert(all.subrange(0, bindings@.len() as int) =~= all);
}

/// The images that a wallpaper needs, each once.
pub fn texture_loads(config: &WallpaperConfig) -> (r: Vec<TextureLoad>)
    ensures
        load_texts(r@) == all_loads(config.render_targets@),
{
    let targets = &config.render_targets;
    let mut out: Vec<TextureLoad> = Vec::new();
    let mut i: usize = 0;
    assert(targets@.subrange(0, 0) =~= Seq::<manifest::RenderTarget>::empty());
    assert(load_texts(out@) =~= Seq::<LoadText>::empty());
    while i < targets.len()
        invariant
            i <= targets.len(),
            load_texts(out@) == all_loads(targets@.subrange(0, i as int)),
        decreases targets.len() - i,
    {
        assert(targets@.subrange(0, i + 1).drop_last() =~= targets@.subrange(0, i as int));
        push_loads(&mut out, &targets[i].config.bindings);
        i = i + 1;
    }
    assert(targets@.subrange(0, targets@.len() as int) =~= targets@);
    out
}

/// Whether some pass samples the audio texture.
pub open spec fn uses_audio(targets: Seq<manifest::RenderTarget>) -> bool {
    exists|i: int, k: int|
        0 <= i < targets.len() && 0 <= k < targets[i].config.bindings@.len() && (
        #[trigger] targets[i].config.bindings@[k]).binding_type@ == "audio"@
}

/// Whether some pass samples the audio texture.
pub fn has_audio(config: &WallpaperConfig) -> (r: bool)
    ensures
        r == uses_audio(config.render_targets@),
{
    let targets = &config.render_targets;
    let mut i: usize = 0;
    while i < targets.len()
        invariant
            i <= targets.len(),
            targets@ == config.render_targets@,
            forall|a: int, k: int|
                0 <= a < i && 0 <= k < targets@[a].config.bindings@.len() ==> (
                #[trigger] targets@[a].config.bindings@[k]).binding_type@ != "audio"@,
        decreases targets.len() - i,
    {
        let bindings = &targets[i].config.bindings;
        let mut k: usize = 0;
        while k < bindings.len()
            invariant
                k <= bindings.len(),
                i < targets@.len(),
                targets@ == config.render_targets@,
                bindings@ == targets@[i as int].config.bindings@,
                forall|c: int| 0 <= c < k ==> (#[trigger] bindings@[c]).binding_type@ != "audio"@,
            decreases bindings.len() - k,
        {
            if str_eq(bindings[k].binding_type.as_str(), "audio") {
                assert(targets@[i as int].config.bindings@[k as int].binding_type@ == "audio"@);
                return true;
            }
            k = k + 1;
        }
        i = i + 1;
    }
    false
}

/// The stem of a file name: what stands before the last dot, or all of it where
/// there is none or where the dot is the first character.
pub open spec fn stem(name: Seq<char>) -> Seq<char> {
    let dot = text::last_index(name, '.');
    if dot > 0 {
        name.subrange(0, dot)
    } else {
        name
    }
}

/// The file of face `f` of a cubemap: the named file for face 0, and the stem with
/// the number of the face for the others.
pub open spec fn cube_face(name: Seq<char>, f: nat) -> Seq<char> {
    if f == 0 {
        name
    } else {
        stem(name) + "_"@ + text::decimal(f) + "."@ + (match manifest::extension(name) {
            Some(e) => e,
            None => "png"@,
        })
    }
}

/// The files of the six faces of a cubemap.
pub fn cube_faces(name: &str) -> (r: Vec<String>)
    ensures
        r@.len() == 6,
        forall|f: int| 0 <= f < 6 ==> (#[trigger] r@[f])@ == cube_face(name@, f as nat),
{
    let n = chars_of(name);
    let front = match rfind_char(&n, '.') {
        Some(dot) => {
            if dot > 0 {
                string_of(&sub_chars(&n, 0, dot))
            } else {
                name.to_owned()
            }
        },
        None => name.to_owned(),
    };
    assert(front@ == stem(name@));
    let ext = match manifest::file_extension(name) {
        Some(e) => e,
        None => "png".to_owned(),
    };
    let mut out: Vec<String> = Vec::new();
    out.push(name.to_owned());
    let mut f: u64 = 1;
    while f < 6
        invariant
            1 <= f <= 6,
            out@.len() == f,
            front@ == stem(name@),
            ext@ == (match manifest::extension(name@) {
                Some(e) => e,
                None => "png"@,
            }),
            forall|k: int| 0 <= k < f ==> (#[trigger] out@[k])@ == cube_face(name@, k as nat),
        decreases 6 - f,
    {
        let mut face = front.clone();
        face.append("_");
        face.append(decimal_of(f).as_str());
        face.append(".");
        face.append(ext.as_str());
        out.push(face);
        f = f + 1;
    }
    out
}

/// Whether all faces have the size of the first.
pub fn faces_match(sizes: &Vec<(u32, u32)>) -> (r: bool)
    ensures
        r == (forall|i: int| 0 <= i < sizes@.len() ==> #[trigger] sizes@[i] == sizes@[0]),
{
    let mut i: usize = 0;
    while i < sizes.len()
        invariant
            i <= sizes.len(),
            forall|j: int| 0 <= j < i ==> #[trigger] sizes@[j] == sizes@[0],
        decreases sizes.len() - i,
    {
        if sizes[i].0 != sizes[0].0 || sizes[i].1 != sizes[0].1 {
            assert(sizes@[i as int] != sizes@[0]);
            return false;
        }
        i = i + 1;
    }
    true
}

// ---------------------------------------------------------------------------
// The plan of a wallpaper
// ---------------------------------------------------------------------------

/// A buffer to create: the pass it belongs to, its scale and whether it keeps the
/// previous frame.
pub struct TargetPlan {
    pub name: String,
    pub scale: manifest::Bits32,
    pub history: bool,
}

/// A pass to build.
pub struct PassPlan {
    pub name: String,
    pub source: String,
    /// Whether the pass is the one that is shown.
    pub screen: bool,
    pub double_buffered: bool,
    pub blend: BlendState,
    pub cube_channels: [bool; 4],
    /// What the channels sample in even frames.
    pub even: Vec<ChannelPlan>,
    /// What the channels sample in odd frames.
    pub odd: Vec<ChannelPlan>,
}

/// What has to be built for a wallpaper.
pub struct WallpaperPipeline {
    pub targets: Vec<TargetPlan>,
    pub passes: Vec<PassPlan>,
}

/// The first of the passes that is not described; the image pass is passed over
/// where `buffers_only` is set.
pub open spec fn missing(config: WallpaperConfig, passes: Seq<Seq<char>>, buffers_only: bool) -> Option<Seq<char>>
    decreases passes.len(),
{
    if passes.len() == 0 {
        None
    } else if !(buffers_only && passes[0] == "image"@) && config.pass(passes[0]) is None {
        Some(passes[0])
    } else {
        missing(config, passes.subrange(1, passes.len() as int), buffers_only)
    }
}

/// The pass for want of which a wallpaper cannot be built: the buffers are looked
/// at first.
pub open spec fn undescribed(config: WallpaperConfig) -> Option<Seq<char>> {
    let passes = text::texts(config.wallpaper.passes@);
    match missing(config, passes, true) {
        Some(p) => Some(p),
        None => missing(config, passes, false),
    }
}

/// The passes that have a buffer, in order. A pass that is listed twice has one buffer.
pub open spec fn buffers_of(passes: Seq<Seq<char>>) -> Seq<Seq<char>>
    decreases passes.len(),
{
    if passes.len() == 0 {
        Seq::empty()
    } else if passes.last() == "image"@ || buffers_of(passes.drop_last()).contains(passes.last()) {
        buffers_of(passes.drop_last())
    } else {
        buffers_of(passes.drop_last()).push(passes.last())
    }
}

/// Whether a buffer is planned for the pass `name`.
pub open spec fn is_target(t: TargetPlan, config: WallpaperConfig, name: Seq<char>) -> bool {
    &&& t.name@ == name
    &&& config.pass(name) matches Some(p) && t.scale == p.scale
    &&& t.history == needs_history(config, name)
}

/// Whether a pass is planned as the description of the pass at position `i` says.
pub open spec fn is_pass(plan: PassPlan, config: WallpaperConfig, layer_blend: Seq<char>, i: int) -> bool {
    let passes = text::texts(config.wallpaper.passes@);
    &&& plan.name@ == passes[i]
    &&& plan.screen == (passes[i] == "image"@)
    &&& config.pass(passes[i]) matches Some(p) && {
        let bindings = manifest::binding_texts(p.bindings@);
        &&& plan.source@ == p.source@
        &&& plan.double_buffered == p.double_buffered
        &&& plan.blend == blend_of_pass(passes[i], p.blend@, layer_blend)
        &&& forall|ch: int| 0 <= ch < 4 ==> #[trigger] plan.cube_channels@[ch] == cube_on(bindings, ch)
        &&& is_group(plan.even@, bindings, passes, i, 0)
        &&& is_group(plan.odd@, bindings, passes, i, 1)
    }
}

fn find_missing(config: &WallpaperConfig, buffers_only: bool) -> (r: Option<String>)
    ensures
        text::opt_text(r) == missing(*config, text::texts(config.wallpaper.passes@), buffers_only),
        r is None && !buffers_only ==> forall|i: int|
            0 <= i < config.wallpaper.passes@.len() ==> config.pass(
                #[trigger] text::texts(config.wallpaper.passes@)[i],
            ) is Some,
{
    let passes = &config.wallpaper.passes;
    let ghost names = text::texts(passes@);
    let mut i: usize = 0;
    assert(names.subrange(0, names.len() as int) =~= names);
    while i < passes.len()
        invariant
            i <= passes.len(),
            passes@ == config.wallpaper.passes@,
            names == text::texts(passes@),
            missing(*config, names, buffers_only) == missing(
                *config,
                names.subrange(i as int, names.len() as int),
                buffers_only,
            ),
            !buffers_only ==> forall|j: int| 0 <= j < i ==> config.pass(#[trigger] names[j]) is Some,
        decreases passes.len() - i,
    {
        let ghost rest = names.subrange(i as int, names.len() as int);
        assert(rest[0] == passes@[i as int]@);
        assert(rest.subrange(1, rest.len() as int) =~= names.subrange(i + 1, names.len() as int));
        let name = passes[i].as_str();
        if !(buffers_only && str_eq(name, "image")) && config.find_pass(name).is_none() {
            return Some(passes[i].clone());
        }
        i = i + 1;
    }
    None
}

fn has_target(targets: &Vec<TargetPlan>, name: &str) -> (r: bool)
    ensures
        r == exists|j: int| 0 <= j < targets@.len() && (#[trigger] targets@[j]).name@ == name@,
{
    let mut i: usize = 0;
    while i < targets.len()
        invariant
            i <= targets.len(),
            forall|j: int| 0 <= j < i ==> (#[trigger] targets@[j]).name@ != name@,
        decreases targets.len() - i,
    {
        if str_eq(targets[i].name.as_str(), name) {
            return true;
        }
        i = i + 1;
    }
    false
}

impl WallpaperPipeline {
    /// What has to be built for a wallpaper whose layer is blended as
    /// `layer_blend`: the buffers of its passes, each once, and the passes in their
    /// order. It is an error if a listed pass is not described.
    pub fn new(config: &WallpaperConfig, layer_blend: &str) -> (r: Result<Self, String>)
        ensures
            match r {
                Err(e) => undescribed(*config) matches Some(p) && e@ == "Pass '"@ + p
                    + "' configuration not found in manifest"@,
                Ok(plan) => {
                    let passes = text::texts(config.wallpaper.passes@);
                    &&& undescribed(*config) is None
                    &&& plan.targets@.len() == buffers_of(passes).len()
                    &&& forall|i: int|
                        0 <= i < plan.targets@.len() ==> is_target(
                            #[trigger] plan.targets@[i],
                            *config,
                            buffers_of(passes)[i],
                        )
                    &&& plan.passes@.len() == passes.len()
                    &&& forall|i: int|
                        0 <= i < passes.len() ==> is_pass(#[trigger] plan.passes@[i], *config, layer_blend@, i)
                },
            },
    {
        let lacking = match find_missing(config, true) {
            Some(p) => Some(p),
            None => find_missing(config, false),
        };
        match lacking {
            Some(p) => {
                let mut e = "Pass '".to_owned();
                e.append(p.as_str());
                e.append("' configuration not found in manifest");
                return Err(e);
            },
            None => {},
        }
        let names = &config.wallpaper.passes;
        let ghost passes = text::texts(names@);
        let mut targets: Vec<TargetPlan> = Vec::new();
        let mut built: Vec<PassPlan> = Vec::new();
        let mut i: usize = 0;
        assert(passes.subrange(0, 0) =~= Seq::<Seq<char>>::empty());
        while i < names.len()
            invariant
                i <= names.len(),
                names@ == config.wallpaper.passes@,
                passes == text::texts(names@),
                forall|j: int| 0 <= j < passes.len() ==> config.pass(#[trigger] passes[j]) is Some,
                targets@.len() == buffers_of(passes.subrange(0, i as int)).len(),
                forall|j: int|
                    0 <= j < targets@.len() ==> is_target(
                        #[trigger] targets@[j],
                        *config,
                        buffers_of(passes.subrange(0, i as int))[j],
                    ),
                built@.len() == i,
                forall|j: int| 0 <= j < i ==> is_pass(#[trigger] built@[j], *config, layer_blend@, j),
            decreases names.len() - i,
        {
            let ghost so_far = buffers_of(passes.subrange(0, i as int));
            assert(passes.subrange(0, i + 1).drop_last() =~= passes.subrange(0, i as int));
            assert(passes.subrange(0, i + 1).last() == passes[i as int]);
            assert(passes[i as int] == names@[i as int]@);
            let name = names[i].as_str();
            let screen = str_eq(name, "image");
            let planned = has_target(&targets, name);
            proof {
                if planned {
                    let j = choose|j: int| 0 <= j < targets@.len() && (#[trigger] targets@[j]).name@ == name@;
                    assert(so_far[j] == name@);
                }
                if so_far.contains(name@) {
                    let j = choose|j: int| 0 <= j < so_far.len() && so_far[j] == name@;
                    assert(is_target(targets@[j], *config, so_far[j]));
                }
            }
            match config.find_pass(name) {
                Some(cfg) => {
                    if !screen && !planned {
                        targets.push(
                            TargetPlan {
                                name: names[i].clone(),
                                scale: cfg.scale,
                                history: target_needs_history(config, name),
                            },
                        );
                    }
                    let plan = PassPlan {
                        name: names[i].clone(),
                        source: cfg.source.clone(),
                        screen,
                        double_buffered: cfg.double_buffered,
                        blend: pass_blend(name, cfg.blend.as_str(), layer_blend),
                        cube_channels: pass_cube_channels(&cfg.bindings),
                        even: create_channel_bind_group(&cfg.bindings, names, i, 0),
                        odd: create_channel_bind_group(&cfg.bindings, names, i, 1),
                    };
                    assert(is_pass(plan, *config, layer_blend@, i as int));
                    built.push(plan);
                },
                None => {
                    assert(false);
                },
            }
            i = i + 1;
        }
        assert(passes.subrange(0, names@.len() as int) =~= passes);
        Ok(WallpaperPipeline { targets, passes: built })
    }
}

// ---------------------------------------------------------------------------
// Laws
// ---------------------------------------------------------------------------

/// Each pass but `image` has a buffer, and none has two.
pub proof fn law_one_buffer_for_each_pass(passes: Seq<Seq<char>>)
    ensures
        forall|name: Seq<char>|
            #[trigger] buffers_of(passes).contains(name) <==> passes.contains(name) && name != "image"@,
        buffers_of(passes).no_duplicates(),
    decreases passes.len(),
{
    if passes.len() > 0 {
        let rest = passes.drop_last();
        let last = passes.last();
        law_one_buffer_for_each_pass(rest);
        assert(passes =~= rest.push(last));
        assert forall|name: Seq<char>| #[trigger] buffers_of(passes).contains(name) <==> passes.contains(name) && name
            != "image"@ by {
            lemma_pushed(rest, last, name);
            lemma_pushed(buffers_of(rest), last, name);
            assert(buffers_of(rest).contains(name) <==> rest.contains(name) && name != "image"@);
        }
    }
}

proof fn lemma_pushed(s: Seq<Seq<char>>, last: Seq<char>, x: Seq<char>)
    ensures
        s.push(last).contains(x) <==> s.contains(x) || x == last,
{
    let t = s.push(last);
    if s.contains(x) {
        let i = choose|i: int| 0 <= i < s.len() && s[i] == x;
        assert(t[i] == x);
    }
    assert(t[s.len() as int] == last);
}

/// What a pass reads of the current frame was written in this frame, and what it
/// reads of the previous frame was written in the frame before: a frame of parity
/// `parity` writes one slot, the frame before it, of the other parity, wrote the
/// other.
pub proof fn law_slots_take_turns(passes: Seq<Seq<char>>, target: Seq<char>, this: int, parity: int)
    requires
        parity == 0 || parity == 1,
    ensures
        0 <= read_slot(passes, target, this, parity) <= 1,
        (text::pos(passes, target) matches Some(p) && p < this) ==> read_slot(passes, target, this, parity)
            == write_slot(parity),
        !(text::pos(passes, target) matches Some(p) && p < this) ==> read_slot(passes, target, this, parity)
            == write_slot(1 - parity),
{
}

/// No pass samples the texture that it renders into. With distinct pass names, and
/// with buffers that keep the previous frame where that is needed, the texture that
/// a pass reads of its own buffer is not the one that it writes.
pub proof fn law_no_pass_reads_what_it_writes(
    config: WallpaperConfig,
    this: int,
    buffer: RenderTargetData,
    parity: int,
)
    requires
        text::texts(config.wallpaper.passes@).no_duplicates(),
        0 <= this < config.wallpaper.passes@.len(),
        config.pass(config.wallpaper.passes@[this]@) matches Some(p) && reads(p, config.wallpaper.passes@[this]@),
        buffer.wf(),
        buffer.slots == (if needs_history(config, config.wallpaper.passes@[this]@) {
            2int
        } else {
            1int
        }),
        parity == 0 || parity == 1,
    ensures
        buffer.texture_of(
            read_slot(text::texts(config.wallpaper.passes@), config.wallpaper.passes@[this]@, this, parity),
        ) != buffer.texture_of(write_slot(parity)),
{
    let passes = text::texts(config.wallpaper.passes@);
    let name = config.wallpaper.passes@[this]@;
    assert(passes[this] == name);
    text::lemma_pos_exists(passes, name, this);
    let p = text::pos(passes, name)->0;
    assert(passes[p] == passes[this]);
    assert(p == this);
    assert(reads_previous(config, name, this));
}

/// A buffer with a single texture is only read in the frame in which it is written:
/// a pass that reads it runs behind its producer.
pub proof fn law_single_texture_suffices(config: WallpaperConfig, target: Seq<char>, this: int, parity: int)
    requires
        0 <= this < config.wallpaper.passes@.len(),
        config.pass(text::texts(config.wallpaper.passes@)[this]) matches Some(p) && reads(p, target),
        text::texts(config.wallpaper.passes@).contains(target),
        !needs_history(config, target),
    ensures
        read_slot(text::texts(config.wallpaper.passes@), target, this, parity) == write_slot(parity),
{
    let passes = text::texts(config.wallpaper.passes@);
    let k = choose|k: int| 0 <= k < passes.len() && passes[k] == target;
    text::lemma_pos_exists(passes, target, k);
    assert(!reads_previous(config, target, this));
}

/// What the last binding of a channel says is what the channel samples: audio the audio
/// texture; a texture or a cubemap its file; a buffer the buffer of its pass, as it was
/// written in this frame where the pass runs before, and as it was written in the previous
/// frame otherwise. The binding says whether the channel clamps at the edges.
pub proof fn law_last_binding_decides(
    bindings: Seq<BindingText>,
    ch: int,
    cube: bool,
    passes: Seq<Seq<char>>,
    this: int,
    parity: int,
    k: int,
)
    requires
        parity == 0 || parity == 1,
        0 <= k < bindings.len(),
        bindings[k].channel == ch,
        forall|j: int| k < j < bindings.len() ==> (#[trigger] bindings[j]).channel != ch,
    ensures
        ({
            let b = bindings[k];
            let c = channel(bindings, ch, cube, passes, this, parity);
            &&& b.kind == "audio"@ ==> c.0 == ChannelText::Audio
            &&& (b.kind == "texture"@ || b.kind == "cubemap"@) && b.path is Some ==> c.0 == ChannelText::Texture(
                b.path->0,
            )
            &&& b.kind == "buffer"@ && b.target is Some && b.target->0 != "image"@ && passes.contains(b.target->0) ==> {
                &&& (exists|p: int| 0 <= p < this && p < passes.len() && passes[p] == b.target->0) ==> c.0
                    == ChannelText::Buffer(b.target->0, (1 - parity) as nat)
                &&& (forall|p: int| 0 <= p < this && p < passes.len() ==> passes[p] != b.target->0) ==> c.0
                    == ChannelText::Buffer(b.target->0, parity as nat)
            }
            &&& b.kind == "audio"@ || (b.kind == "texture"@ && b.path is Some) ==> c.1 == (b.wrap == Some("clamp"@))
        }),
    decreases bindings.len(),
{
    lemma_kinds();
    let d = bindings.drop_last();
    if k < d.len() {
        assert(bindings[bindings.len() - 1].channel != ch);
        assert(d[k] == bindings[k]);
        assert forall|j: int| k < j < d.len() implies (#[trigger] d[j]).channel != ch by {
            assert(d[j] == bindings[j]);
        }
        law_last_binding_decides(d, ch, cube, passes, this, parity, k);
    } else {
        let b = bindings.last();
        assert(b == bindings[k]);
        if b.kind == "buffer"@ && b.target is Some && passes.contains(b.target->0) {
            let t = b.target->0;
            let q = choose|q: int| 0 <= q < passes.len() && passes[q] == t;
            text::lemma_pos_exists(passes, t, q);
            if exists|p: int| 0 <= p < this && p < passes.len() && passes[p] == t {
                let p = choose|p: int| 0 <= p < this && p < passes.len() && passes[p] == t;
                text::lemma_pos_exists(passes, t, p);
            }
        }
    }
}

proof fn lemma_kinds()
    ensures
        "texture"@ != "cubemap"@,
        "texture"@ != "buffer"@,
        "texture"@ != "audio"@,
        "cubemap"@ != "buffer"@,
        "cubemap"@ != "audio"@,
        "buffer"@ != "audio"@,
{
    reveal_strlit("texture");
    reveal_strlit("cubemap");
    reveal_strlit("buffer");
    reveal_strlit("audio");
    assert("texture"@[0] == 't' && "cubemap"@[0] == 'c' && "buffer"@[0] == 'b' && "audio"@[0] == 'a');
}

/// A channel that nothing is bound to samples white: a white cubemap where the shader
/// samples it as one, else a white texture.
pub proof fn law_unbound_channels_are_white(
    bindings: Seq<BindingText>,
    ch: int,
    cube: bool,
    passes: Seq<Seq<char>>,
    this: int,
    parity: int,
)
    requires
        forall|j: int| 0 <= j < bindings.len() ==> (#[trigger] bindings[j]).channel != ch,
    ensures
        cube ==> channel(bindings, ch, cube, passes, this, parity) == (ChannelText::DefaultCube, false),
        !cube ==> channel(bindings, ch, cube, passes, this, parity) == (ChannelText::Default, false),
    decreases bindings.len(),
{
    if bindings.len() > 0 {
        let d = bindings.drop_last();
        assert(bindings[bindings.len() - 1].channel != ch);
        assert forall|j: int| 0 <= j < d.len() implies (#[trigger] d[j]).channel != ch by {
            assert(d[j] == bindings[j]);
        }
        law_unbound_channels_are_white(d, ch, cube, passes, this, parity);
    }
}

/// An audio-reactive wallpaper hears: a channel of a pass whose last binding is audio
/// samples the audio texture in every frame, and the wallpaper counts as one that uses
/// audio.
pub proof fn law_audio_channels_hear(
    plan: PassPlan,
    config: WallpaperConfig,
    layer_blend: Seq<char>,
    i: int,
    t: int,
    k: int,
)
    requires
        0 <= i < config.wallpaper.passes@.len(),
        0 <= t < config.render_targets@.len(),
        config.render_targets@[t].name@ == config.wallpaper.passes@[i]@,
        forall|j: int| 0 <= j < t ==> (#[trigger] config.render_targets@[j]).name@ != config.wallpaper.passes@[i]@,
        is_pass(plan, config, layer_blend, i),
        ({
            let bs = config.render_targets@[t].config.bindings@;
            &&& 0 <= k < bs.len()
            &&& bs[k].binding_type@ == "audio"@
            &&& bs[k].channel < 4
            &&& forall|j: int| k < j < bs.len() ==> (#[trigger] bs[j]).channel != bs[k].channel
        }),
    ensures
        plan.even@[config.render_targets@[t].config.bindings@[k].channel as int].source is Audio,
        plan.odd@[config.render_targets@[t].config.bindings@[k].channel as int].source is Audio,
        uses_audio(config.render_targets@),
{
    manifest::law_passes_are_found_by_name(config, t);
    let bs = config.render_targets@[t].config.bindings@;
    let bindings = manifest::binding_texts(bs);
    let passes = text::texts(config.wallpaper.passes@);
    let ch = bs[k].channel as int;
    assert(passes[i] == config.wallpaper.passes@[i]@);
    assert(bindings[k].channel == ch);
    assert forall|j: int| k < j < bindings.len() implies (#[trigger] bindings[j]).channel != ch by {
        assert(bs[j].channel != bs[k].channel);
    }
    law_last_binding_decides(bindings, ch, cube_on(bindings, ch), passes, i, 0, k);
    law_last_binding_decides(bindings, ch, cube_on(bindings, ch), passes, i, 1, k);
    assert(plan.even@[ch].source@ == ChannelText::Audio);
    assert(plan.odd@[ch].source@ == ChannelText::Audio);
    assert(bs[k].binding_type@ == "audio"@);
}

/// A wallpaper without an audio binding does not count as one that uses audio.
pub proof fn law_silent_wallpapers_use_no_audio(targets: Seq<manifest::RenderTarget>)
    requires
        forall|i: int, k: int|
            0 <= i < targets.len() && 0 <= k < targets[i].config.bindings@.len() ==> (
            #[trigger] targets[i].config.bindings@[k]).binding_type@ != "audio"@,
    ensures
        !uses_audio(targets),
{
}

/// A pass is planned as it is described: with its source, its bindings in even and odd
/// frames, and a cubemap on the channels that one is bound to. The pass called `image` is
/// the one that is shown.
pub proof fn law_passes_are_planned_as_described(
    plan: PassPlan,
    config: WallpaperConfig,
    layer_blend: Seq<char>,
    i: int,
    t: int,
    ch: int,
)
    requires
        0 <= i < config.wallpaper.passes@.len(),
        0 <= t < config.render_targets@.len(),
        config.render_targets@[t].name@ == config.wallpaper.passes@[i]@,
        forall|j: int| 0 <= j < t ==> (#[trigger] config.render_targets@[j]).name@ != config.wallpaper.passes@[i]@,
        is_pass(plan, config, layer_blend, i),
        0 <= ch < 4,
    ensures
        plan.name@ == config.wallpaper.passes@[i]@,
        plan.source@ == config.render_targets@[t].config.source@,
        plan.double_buffered == config.render_targets@[t].config.double_buffered,
        plan.screen <==> config.wallpaper.passes@[i]@ == "image"@,
        plan.cube_channels@[ch] <==> exists|k: int|
            0 <= k < config.render_targets@[t].config.bindings@.len() && (
            #[trigger] config.render_targets@[t].config.bindings@[k]).binding_type@ == "cubemap"@
                && config.render_targets@[t].config.bindings@[k].channel == ch,
        plan.even@.len() == 4 && plan.odd@.len() == 4,
        plan.blend == blend_of_pass(
            config.wallpaper.passes@[i]@,
            config.render_targets@[t].config.blend@,
            layer_blend,
        ),
{
    manifest::law_passes_are_found_by_name(config, t);
    let bs = config.render_targets@[t].config.bindings@;
    let bindings = manifest::binding_texts(bs);
    assert(text::texts(config.wallpaper.passes@)[i] == config.wallpaper.passes@[i]@);
    assert(plan.cube_channels@[ch] == cube_on(bindings, ch));
    if cube_on(bindings, ch) {
        let k = choose|k: int|
            0 <= k < bindings.len() && (#[trigger] bindings[k]).kind == "cubemap"@ && bindings[k].channel == ch;
        assert(bs[k].binding_type@ == "cubemap"@);
    }
    if exists|k: int| 0 <= k < bs.len() && (#[trigger] bs[k]).binding_type@ == "cubemap"@ && bs[k].channel == ch {
        let k = choose|k: int|
            0 <= k < bs.len() && (#[trigger] bs[k]).binding_type@ == "cubemap"@ && bs[k].channel == ch;
        assert(bindings[k].kind == "cubemap"@);
    }
}

/// A buffer keeps the previous frame where a pass needs it and only there: where a pass
/// samples the buffer before the pass that renders it has run in the frame.
pub proof fn law_history_is_kept_where_needed(config: WallpaperConfig, target: Seq<char>)
    ensures
        needs_history(config, target) <==> exists|i: int, k: int|
            0 <= i < config.wallpaper.passes@.len() && config.pass(config.wallpaper.passes@[i]@) is Some && 0 <= k
                < config.pass(config.wallpaper.passes@[i]@)->0.bindings@.len() && (#[trigger] config.pass(
                config.wallpaper.passes@[i]@,
            )->0.bindings@[k]).binding_type@ == "buffer"@ && text::opt_text(
                config.pass(config.wallpaper.passes@[i]@)->0.bindings@[k].target,
            ) == Some(target) && text::texts(config.wallpaper.passes@).contains(target) && forall|p: int|
                0 <= p < i ==> (#[trigger] config.wallpaper.passes@[p])@ != target,
{
    let names = text::texts(config.wallpaper.passes@);
    let listed = config.wallpaper.passes@;
    if needs_history(config, target) {
        let i = choose|i: int| reads_previous(config, target, i);
        assert(names[i] == listed[i]@);
        let bs = config.pass(listed[i]@)->0.bindings@;
        let k = choose|k: int|
            0 <= k < bs.len() && (#[trigger] bs[k])@.kind == "buffer"@ && bs[k]@.target == Some(target);
        let q = choose|q: int| 0 <= q < names.len() && names[q] == target;
        text::lemma_pos_exists(names, target, q);
        assert forall|p: int| 0 <= p < i implies (#[trigger] listed[p])@ != target by {
            assert(names[p] == listed[p]@);
        }
        assert(config.pass(listed[i]@)->0.bindings@[k].binding_type@ == "buffer"@);
    }
    if exists|i: int, k: int|
        0 <= i < config.wallpaper.passes@.len() && config.pass(config.wallpaper.passes@[i]@) is Some && 0 <= k
            < config.pass(config.wallpaper.passes@[i]@)->0.bindings@.len() && (#[trigger] config.pass(
            config.wallpaper.passes@[i]@,
        )->0.bindings@[k]).binding_type@ == "buffer"@ && text::opt_text(
            config.pass(config.wallpaper.passes@[i]@)->0.bindings@[k].target,
        ) == Some(target) && text::texts(config.wallpaper.passes@).contains(target) && forall|p: int|
            0 <= p < i ==> (#[trigger] config.wallpaper.passes@[p])@ != target {
        let (i, k) = choose|i: int, k: int|
            0 <= i < config.wallpaper.passes@.len() && config.pass(config.wallpaper.passes@[i]@) is Some && 0 <= k
                < config.pass(config.wallpaper.passes@[i]@)->0.bindings@.len() && (#[trigger] config.pass(
                config.wallpaper.passes@[i]@,
            )->0.bindings@[k]).binding_type@ == "buffer"@ && text::opt_text(
                config.pass(config.wallpaper.passes@[i]@)->0.bindings@[k].target,
            ) == Some(target) && text::texts(config.wallpaper.passes@).contains(target) && forall|p: int|
                0 <= p < i ==> (#[trigger] config.wallpaper.passes@[p])@ != target;
        let q = choose|q: int| 0 <= q < names.len() && names[q] == target;
        text::lemma_pos_exists(names, target, q);
        let first = text::pos(names, target)->0;
        assert(listed[first]@ == target);
        assert(names[i] == listed[i]@);
        assert(config.pass(listed[i]@)->0.bindings@[k]@.kind == "buffer"@);
        assert(reads_previous(config, target, i));
    }
}

/// A buffer with two textures keeps a slot in each, one with a single texture keeps both
/// slots in it.
pub proof fn law_two_textures_keep_two_slots(b: RenderTargetData)
    requires
        b.wf(),
    ensures
        b.slots == 2 ==> b.texture_of(0) != b.texture_of(1),
        b.slots == 1 ==> b.texture_of(0) == b.texture_of(1),
        0 <= b.texture_of(0) < b.slots && 0 <= b.texture_of(1) < b.slots,
{
}

/// The images that a wallpaper needs are loaded, each once, and no others: those that a
/// texture or a cubemap is bound to.
pub proof fn law_bound_images_are_loaded(targets: Seq<manifest::RenderTarget>, path: Seq<char>)
    ensures
        has_path(all_loads(targets), path) <==> exists|i: int, k: int|
            0 <= i < targets.len() && 0 <= k < targets[i].config.bindings@.len() && ((
            #[trigger] targets[i].config.bindings@[k]).binding_type@ == "texture"@
                || targets[i].config.bindings@[k].binding_type@ == "cubemap"@) && text::opt_text(
                targets[i].config.bindings@[k].path,
            ) == Some(path),
        forall|i: int, j: int|
            0 <= i < j < all_loads(targets).len() ==> (#[trigger] all_loads(targets)[i]).path != (
            #[trigger] all_loads(targets)[j]).path,
    decreases targets.len(),
{
    if targets.len() > 0 {
        let d = targets.drop_last();
        let bs = targets.last().config.bindings@;
        let n = targets.len() - 1;
        law_bound_images_are_loaded(d, path);
        lemma_more_loads(all_loads(d), manifest::binding_texts(bs), path);
        assert(targets[n] == targets.last());
        assert(forall|i: int| 0 <= i < d.len() ==> d[i] == targets[i]);
        if has_path(all_loads(targets), path) {
            if has_path(all_loads(d), path) {
                let (i, k) = choose|i: int, k: int|
                    0 <= i < d.len() && 0 <= k < d[i].config.bindings@.len() && ((
                    #[trigger] d[i].config.bindings@[k]).binding_type@ == "texture"@
                        || d[i].config.bindings@[k].binding_type@ == "cubemap"@) && text::opt_text(
                        d[i].config.bindings@[k].path,
                    ) == Some(path);
                assert(targets[i].config.bindings@[k] == d[i].config.bindings@[k]);
            } else {
                let k = choose|k: int| #[trigger] loads_at(manifest::binding_texts(bs), k, path);
                assert(targets[n].config.bindings@[k]@ == manifest::binding_texts(bs)[k]);
            }
        }
        if exists|i: int, k: int|
            0 <= i < targets.len() && 0 <= k < targets[i].config.bindings@.len() && ((
            #[trigger] targets[i].config.bindings@[k]).binding_type@ == "texture"@
                || targets[i].config.bindings@[k].binding_type@ == "cubemap"@) && text::opt_text(
                targets[i].config.bindings@[k].path,
            ) == Some(path) {
            let (i, k) = choose|i: int, k: int|
                0 <= i < targets.len() && 0 <= k < targets[i].config.bindings@.len() && ((
                #[trigger] targets[i].config.bindings@[k]).binding_type@ == "texture"@
                    || targets[i].config.bindings@[k].binding_type@ == "cubemap"@) && text::opt_text(
                    targets[i].config.bindings@[k].path,
                ) == Some(path);
            if i < n {
                assert(d[i].config.bindings@[k].binding_type@ == targets[i].config.bindings@[k].binding_type@);
                assert(has_path(all_loads(d), path));
            } else {
                assert(loads_at(manifest::binding_texts(bs), k, path));
            }
        }
    }
}

/// Whether a binding at a place of a list needs the image `path`.
pub open spec fn loads_at(bindings: Seq<BindingText>, k: int, path: Seq<char>) -> bool {
    &&& 0 <= k < bindings.len()
    &&& bindings[k].kind == "texture"@ || bindings[k].kind == "cubemap"@
    &&& bindings[k].path == Some(path)
}

proof fn lemma_more_loads(before: Seq<LoadText>, bindings: Seq<BindingText>, path: Seq<char>)
    requires
        forall|i: int, j: int| 0 <= i < j < before.len() ==> (#[trigger] before[i]).path != (#[trigger] before[j]).path,
    ensures
        has_path(more_loads(before, bindings), path) <==> has_path(before, path) || exists|k: int| #[trigger]
            loads_at(bindings, k, path),
        forall|i: int, j: int|
            0 <= i < j < more_loads(before, bindings).len() ==> (#[trigger] more_loads(before, bindings)[i]).path != (
            #[trigger] more_loads(before, bindings)[j]).path,
    decreases bindings.len(),
{
    if bindings.len() > 0 {
        let d = bindings.drop_last();
        let rest = more_loads(before, d);
        let all = more_loads(before, bindings);
        let b = bindings.last();
        lemma_more_loads(before, d, path);
        assert(bindings[bindings.len() - 1] == b);
        assert forall|k: int| loads_at(d, k, path) implies loads_at(bindings, k, path) by {
            assert(d[k] == bindings[k]);
        }
        if has_path(rest, path) {
            let i = choose|i: int| 0 <= i < rest.len() && (#[trigger] rest[i]).path == path;
            assert(all[i].path == path);
            if !has_path(before, path) {
                let k = choose|k: int| #[trigger] loads_at(d, k, path);
                assert(loads_at(bindings, k, path));
            }
        }
        if exists|k: int| #[trigger] loads_at(bindings, k, path) {
            let k = choose|k: int| #[trigger] loads_at(bindings, k, path);
            if k < d.len() {
                assert(loads_at(d, k, path));
            } else if !has_path(rest, path) {
                assert(all[all.len() - 1].path == path);
            }
        }
        if has_path(all, path) && !has_path(rest, path) {
            let i = choose|i: int| 0 <= i < all.len() && (#[trigger] all[i]).path == path;
            if i < rest.len() {
                assert(rest[i].path == path);
            }
            assert(loads_at(bindings, bindings.len() - 1, path));
        }
        assert forall|i: int, j: int| 0 <= i < j < all.len() implies (#[trigger] all[i]).path != (
        #[trigger] all[j]).path by {
            assert(all[i] == rest[i]);
            if j < rest.len() {
                assert(all[j] == rest[j]);
            }
        }
    }
}

/// An image is loaded as a cubemap where the binding that brings it in is one, and as a
/// texture where that is one.
pub proof fn law_images_are_loaded_by_kind(before: Seq<LoadText>, bindings: Seq<BindingText>, b: BindingText)
    requires
        b.path is Some,
        !has_path(more_loads(before, bindings), b.path->0),
    ensures
        b.kind == "texture"@ ==> more_loads(before, bindings.push(b)) == more_loads(before, bindings).push(
            LoadText { path: b.path->0, cube: false },
        ),
        b.kind == "cubemap"@ ==> more_loads(before, bindings.push(b)) == more_loads(before, bindings).push(
            LoadText { path: b.path->0, cube: true },
        ),
        b.kind != "texture"@ && b.kind != "cubemap"@ ==> more_loads(before, bindings.push(b)) == more_loads(
            before,
            bindings,
        ),
{
    lemma_kinds();
    assert(bindings.push(b).drop_last() =~= bindings);
}

/// The faces of a cubemap stand beside its file: the file itself, and five more with the
/// number of the face before the extension.
pub proof fn law_cube_faces_stand_beside(base: Seq<char>, ext: Seq<char>, f: nat)
    requires
        base.len() > 0,
        !ext.contains('.'),
        1 <= f <= 5,
    ensures
        cube_face(base + "."@ + ext, 0) == base + "."@ + ext,
        cube_face(base + "."@ + ext, f) == base + "_"@ + text::decimal(f) + "."@ + ext,
{
    reveal_strlit(".");
    let name = base + "."@ + ext;
    assert("."@ =~= seq!['.']);
    assert(name[base.len() as int] == '.');
    assert forall|i: int| base.len() < i < name.len() implies name[i] != '.' by {
        assert(name[i] == ext[i - base.len() - 1]);
    }
    text::law_last_index_is_last(name, '.', base.len() as int);
    assert(name.subrange(0, base.len() as int) =~= base);
    assert(name.subrange((base.len() + 1) as int, name.len() as int) =~= ext);
}

/// A wallpaper can be built where every pass it lists is described; where one is not, the
/// error names a listed pass without a description.
pub proof fn law_missing_passes_are_named(config: WallpaperConfig)
    ensures
        undescribed(config) is None <==> forall|i: int|
            0 <= i < config.wallpaper.passes@.len() ==> config.pass((#[trigger] config.wallpaper.passes@[i])@) is Some,
        undescribed(config) matches Some(name) ==> text::texts(config.wallpaper.passes@).contains(name) && config.pass(
            name,
        ) is None,
{
    let names = text::texts(config.wallpaper.passes@);
    lemma_missing(config, names, true);
    lemma_missing(config, names, false);
    if undescribed(config) is None {
        assert forall|i: int| 0 <= i < config.wallpaper.passes@.len() implies config.pass(
            (#[trigger] config.wallpaper.passes@[i])@,
        ) is Some by {
            assert(config.pass(names[i]) is Some);
        }
    }
    if forall|i: int|
        0 <= i < config.wallpaper.passes@.len() ==> config.pass((#[trigger] config.wallpaper.passes@[i])@) is Some {
        if undescribed(config) is Some {
            let k = choose|k: int| 0 <= k < names.len() && names[k] == undescribed(config)->0;
            assert(config.pass(config.wallpaper.passes@[k]@) is Some);
        }
    }
}

proof fn lemma_missing(config: WallpaperConfig, names: Seq<Seq<char>>, buffers_only: bool)
    ensures
        missing(config, names, buffers_only) matches Some(n) ==> names.contains(n) && config.pass(n) is None,
        missing(config, names, buffers_only) is None && !buffers_only ==> forall|i: int|
            0 <= i < names.len() ==> config.pass(#[trigger] names[i]) is Some,
    decreases names.len(),
{
    if names.len() > 0 {
        let rest = names.subrange(1, names.len() as int);
        lemma_missing(config, rest, buffers_only);
        assert(names[0] == names[0]);
        if missing(config, rest, buffers_only) is Some {
            let n = missing(config, rest, buffers_only)->0;
            let k = choose|k: int| 0 <= k < rest.len() && rest[k] == n;
            assert(names[k + 1] == n);
        }
        if missing(config, names, buffers_only) is None && !buffers_only {
            assert forall|i: int| 0 <= i < names.len() implies config.pass(#[trigger] names[i]) is Some by {
                if i > 0 {
                    assert(rest[i - 1] == names[i]);
                }
            }
        }
    }
}

/// Every buffer is planned with the scale of its pass, and keeps the previous frame where
/// that is needed.
pub proof fn law_buffers_are_planned_as_described(t: TargetPlan, config: WallpaperConfig, name: Seq<char>, k: int)
    requires
        is_target(t, config, name),
        0 <= k < config.render_targets@.len(),
        config.render_targets@[k].name@ == name,
        forall|j: int| 0 <= j < k ==> (#[trigger] config.render_targets@[j]).name@ != name,
    ensures
        t.name@ == name,
        t.scale == config.render_targets@[k].config.scale,
        t.history == needs_history(config, name),
{
    manifest::law_passes_are_found_by_name(config, k);
}

/// The entries of the layout alternate: for each channel a texture, as a cubemap where the
/// channel is one, and then a sampler, at bindings that count up.
pub proof fn law_layout_alternates(cube: Seq<bool>, ch: int)
    requires
        cube.len() == 4,
        0 <= ch < 4,
    ensures
        layout_entry(cube, 2 * ch) == (LayoutEntry::Texture { binding: (2 * ch) as u32, cube: cube[ch] }),
        layout_entry(cube, 2 * ch + 1) == (LayoutEntry::Sampler { binding: (2 * ch + 1) as u32 }),
{
}

/// A factor of a blend equation for a premultiplied source `s` with alpha `a` over `d`, in
/// parts of 255.
pub open spec fn factor(f: BlendFactor, s: int, a: int, d: int) -> int {
    match f {
        BlendFactor::Zero => 0,
        BlendFactor::One => 255,
        BlendFactor::OneMinusSrc => 255 - s,
        BlendFactor::SrcAlpha => a,
        BlendFactor::OneMinusSrcAlpha => 255 - a,
        BlendFactor::Dst => d,
    }
}

/// What a blend equation gives, in parts of 255 times 255.
pub open spec fn mixed(c: BlendComponent, s: int, a: int, d: int) -> int {
    s * factor(c.src_factor, s, a, d) + d * factor(c.dst_factor, s, a, d)
}

/// What the blend modes do to the color `d` below when the color `s`, premultiplied with
/// the alpha `a`, is drawn over it: a normal layer hides it by its alpha, and so an opaque
/// one all of it and a transparent one nothing; an additive layer adds; a multiplied layer
/// multiplies; a screened layer adds and takes off the product.
pub proof fn law_modes_blend_as_they_are_called(mode: Seq<char>, s: int, a: int, d: int)
    ensures
        mode == "additive"@ ==> mixed(mode_blend(mode).color, s, a, d) == 255 * s + 255 * d,
        mode == "multiply"@ ==> mixed(mode_blend(mode).color, s, a, d) == s * d,
        mode == "screen"@ ==> mixed(mode_blend(mode).color, s, a, d) == 255 * s + 255 * d - s * d,
        mode != "additive"@ && mode != "multiply"@ && mode != "screen"@ ==> mixed(mode_blend(mode).color, s, a, d) == 255
            * s + d * (255 - a),
        mode != "additive"@ && mode != "multiply"@ ==> mixed(mode_blend(mode).alpha, a, a, d) == 255 * a + d * (255 - a),
        mode == "additive"@ ==> mixed(mode_blend(mode).alpha, a, a, d) == 255 * a + 255 * d,
        mode == "multiply"@ ==> mixed(mode_blend(mode).alpha, a, a, d) == 255 * a,
{
    reveal_strlit("additive");
    reveal_strlit("multiply");
    reveal_strlit("screen");
    assert("additive"@[0] == 'a' && "multiply"@[0] == 'm' && "screen"@[0] == 's');
    assert(s * 255 == 255 * s && d * 255 == 255 * d && a * 255 == 255 * a && d * 0 == 0) by (nonlinear_arith);
    assert(s * d == d * s) by (nonlinear_arith);
    assert(d * (255 - s) == 255 * d - s * d) by (nonlinear_arith);
    let c = mode_blend(mode).color;
    let o = mode_blend(mode).alpha;
    assert(mixed(c, s, a, d) == s * factor(c.src_factor, s, a, d) + d * factor(c.dst_factor, s, a, d));
    assert(mixed(o, a, a, d) == a * factor(o.src_factor, a, a, d) + d * factor(o.dst_factor, a, a, d));
}

/// The shown pass is blended as its layer says; a buffer replaces what it held, or covers
/// it by its alpha where its description says `alpha`, whatever the layer says.
pub proof fn law_buffers_blend_by_themselves(name: Seq<char>, own: Seq<char>, layer: Seq<char>, s: int, a: int, d: int)
    ensures
        name == "image"@ ==> blend_of_pass(name, own, layer) == mode_blend(layer),
        name != "image"@ && own == "alpha"@ ==> mixed(blend_of_pass(name, own, layer).color, s, a, d) == s * a + d * (255
            - a),
        name != "image"@ && own != "alpha"@ ==> mixed(blend_of_pass(name, own, layer).color, s, a, d) == 255 * s
            && mixed(blend_of_pass(name, own, layer).alpha, a, a, d) == 255 * a,
{
    assert(s * 255 == 255 * s && a * 255 == 255 * a && d * 0 == 0) by (nonlinear_arith);
}

/// Of the passes without a description the error names the first that is a buffer, before
/// the image pass.
pub proof fn law_missing_buffers_are_named_first(config: WallpaperConfig, k: int)
    requires
        0 <= k < config.wallpaper.passes@.len(),
        config.wallpaper.passes@[k]@ != "image"@,
        config.pass(config.wallpaper.passes@[k]@) is None,
        forall|j: int|
            0 <= j < k ==> (#[trigger] config.wallpaper.passes@[j])@ == "image"@ || config.pass(
                config.wallpaper.passes@[j]@,
            ) is Some,
    ensures
        undescribed(config) == Some(config.wallpaper.passes@[k]@),
{
    let names = text::texts(config.wallpaper.passes@);
    assert(names[k] == config.wallpaper.passes@[k]@);
    assert forall|j: int| 0 <= j < k implies #[trigger] names[j] == "image"@ || config.pass(names[j]) is Some by {
        assert(names[j] == config.wallpaper.passes@[j]@);
    }
    lemma_first_missing_buffer(config, names, k);
}

proof fn lemma_first_missing_buffer(config: WallpaperConfig, names: Seq<Seq<char>>, k: int)
    requires
        0 <= k < names.len(),
        names[k] != "image"@,
        config.pass(names[k]) is None,
        forall|j: int| 0 <= j < k ==> #[trigger] names[j] == "image"@ || config.pass(names[j]) is Some,
    ensures
        missing(config, names, true) == Some(names[k]),
    decreases names.len(),
{
    if k > 0 {
        let rest = names.subrange(1, names.len() as int);
        assert(names[0] == "image"@ || config.pass(names[0]) is Some);
        assert(rest[k - 1] == names[k]);
        assert forall|j: int| 0 <= j < k - 1 implies #[trigger] rest[j] == "image"@ || config.pass(rest[j]) is Some by {
            assert(rest[j] == names[j + 1]);
        }
        lemma_first_missing_buffer(config, rest, k - 1);
    }
}

/// A pass has a buffer where it is listed and is not the one that is shown; a buffer has
/// one texture or two, and with two each slot has its own.
pub proof fn law_listed_passes_have_buffers(passes: Seq<Seq<char>>, target: Seq<char>, i: int, d: RenderTargetData)
    ensures
        0 <= i < passes.len() && passes[i] != "image"@ ==> has_buffer(passes, passes[i]),
        !has_buffer(passes, "image"@),
        has_buffer(passes, target) ==> exists|k: int| 0 <= k < passes.len() && #[trigger] passes[k] == target,
        d.wf() <==> d.slots == 1 || d.slots == 2,
        d.slots == 1 ==> d.texture_of(0) == 0 && d.texture_of(1) == 0,
        d.slots == 2 ==> d.texture_of(0) == 0 && d.texture_of(1) == 1,
{
}

} // verus!
