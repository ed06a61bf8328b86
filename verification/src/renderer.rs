//! The state of a renderer and the plan of its frames: which passes are drawn, in
//! which order, into which texture, and what they sample.
use vstd::prelude::*;
use crate::audio;
use crate::manifest;
use crate::manifest::{BindingConfig, BindingText, Bits32};
use crate::pipeline;
use crate::pipeline::RenderTargetData;
use crate::text;
use crate::text::{str_contains, str_eq};
use crate::uniform;
use crate::uniform::{FrameClock, UniformState};

verus! {

broadcast use vstd::string::group_string_axioms;

/// A rectangle in pixels; the library carries it and does not compute with it.
#[derive(Clone, Copy, PartialEq, Eq, Structural)]
pub struct Rect32 {
    pub x: Bits32,
    pub y: Bits32,
    pub w: Bits32,
    pub h: Bits32,
}

/// A loaded image and its size.
pub struct NamedTexture {
    pub path: String,
    pub width: u32,
    pub height: u32,
}

/// The buffer of a pass.
pub struct NamedTarget {
    pub name: String,
    pub data: RenderTargetData,
}

/// A layer: a wallpaper that has been built, and how it is composited.
pub struct LayerPipeline {
    pub passes: Vec<String>,
    pub textures: Vec<NamedTexture>,
    pub targets: Vec<NamedTarget>,
    pub opacity: Bits32,
    pub resolution_scale: Bits32,
    pub positioning: String,
    pub transform: Rect32,
    pub blend_mode: String,
    /// Whether a pass samples the audio texture.
    pub audio: bool,
}

/// The state of a renderer.
pub struct Renderer {
    /// The size of the surface.
    pub size: (u32, u32),
    /// The size of the canvas that the surface shows a part of.
    pub global_resolution: (u32, u32),
    /// The top left corner of the surface in the canvas.
    pub monitor_offset: (i32, i32),
    pub pipelines: Vec<LayerPipeline>,
    /// The parity of the next frame.
    pub frame_parity: usize,
    /// The size of the reduced target, while there is one.
    pub scene: Option<(u32, u32)>,
}

// ---------------------------------------------------------------------------
// Blend modes and formats
// ---------------------------------------------------------------------------

/// The number by which a shader knows a blend mode.
pub open spec fn blend_number(mode: Seq<char>) -> i32 {
    if mode == "additive"@ {
        1
    } else if mode == "multiply"@ {
        2
    } else if mode == "screen"@ {
        3
    } else {
        0
    }
}

/// The number by which a shader knows a blend mode.
pub fn blend_mode_to_int(mode: &str) -> (r: i32)
    ensures
        r == blend_number(mode@),
{
    if str_eq(mode, "additive") {
        1
    } else if str_eq(mode, "multiply") {
        2
    } else if str_eq(mode, "screen") {
        3
    } else {
        0
    }
}

/// The surface format to use, given for each offered format whether it is an sRGB
/// one: the first that is not, or the first of all.
pub fn choose_format(srgb: &Vec<bool>) -> (r: usize)
    requires
        srgb@.len() > 0,
    ensures
        r < srgb@.len(),
        !srgb@[r as int] ==> forall|i: int| 0 <= i < r ==> srgb@[i],
        srgb@[r as int] ==> r == 0 && forall|i: int| 0 <= i < srgb@.len() ==> srgb@[i],
{
    let mut i: usize = 0;
    while i < srgb.len()
        invariant
            i <= srgb.len(),
            forall|j: int| 0 <= j < i ==> srgb@[j],
        decreases srgb.len() - i,
    {
        if !srgb[i] {
            return i;
        }
        i = i + 1;
    }
    0
}

/// How frames are presented.
#[derive(Clone, Copy, PartialEq, Eq, Structural)]
pub enum PresentMode {
    Fifo,
    Mailbox,
    Immediate,
}

/// The present mode that a label of the settings stands for.
pub open spec fn mode_of_label(label: Seq<char>) -> PresentMode {
    if text::has_text(label, "Immediate"@) {
        PresentMode::Immediate
    } else if text::has_text(label, "Mailbox"@) {
        PresentMode::Mailbox
    } else {
        PresentMode::Fifo
    }
}

/// The present mode that a label of the settings stands for.
pub fn present_mode_for_label(label: &str) -> (r: PresentMode)
    ensures
        r == mode_of_label(label@),
{
    if str_contains(label, "Immediate") {
        PresentMode::Immediate
    } else if str_contains(label, "Mailbox") {
        PresentMode::Mailbox
    } else {
        PresentMode::Fifo
    }
}

// ---------------------------------------------------------------------------
// Errors of the graphics device
// ---------------------------------------------------------------------------

/// The error that was logged last, and when.
pub struct ErrorLog {
    pub last: Option<(String, u64)>,
}

/// How long an error that repeats is kept from the log, in milliseconds.
pub const REPEAT_MS: u64 = 10_000;

impl ErrorLog {
    /// Whether an error is logged: not one that follows from an earlier error, and
    /// not one that was logged less than ten seconds ago.
    pub open spec fn logs(self, message: Seq<char>, now: u64) -> bool {
        &&& !text::has_text(message, "] is invalid"@)
        &&& match self.last {
            Some((m, when)) => m@ != message || now - when >= REPEAT_MS,
            None => true,
        }
    }

    /// Takes note of an error at the time `now`, in milliseconds; says whether it is
    /// logged.
    pub fn report(&mut self, message: &str, now: u64) -> (r: bool)
        ensures
            r == old(self).logs(message@, now),
            r ==> (final(self).last matches Some((m, when)) && m@ == message@ && when == now),
            !r ==> final(self).last == old(self).last,
    {
        if str_contains(message, "] is invalid") {
            return false;
        }
        let fresh = match &self.last {
            Some((m, when)) => !str_eq(m.as_str(), message) || (now >= *when && now - *when >= REPEAT_MS),
            None => true,
        };
        if fresh {
            self.last = Some((message.to_owned(), now));
        }
        fresh
    }
}

// ---------------------------------------------------------------------------
// Channel sizes
// ---------------------------------------------------------------------------

/// What a shader is told of a channel: the size of what it samples, and whether it
/// samples audio that is playing.
#[derive(Clone, Copy)]
pub struct ChannelInfo {
    pub size: Option<(u32, u32)>,
    pub playing: bool,
}

/// The size of the first image with the given path.
pub open spec fn texture_size(textures: Seq<NamedTexture>, path: Seq<char>) -> Option<(u32, u32)>
    decreases textures.len(),
{
    if textures.len() == 0 {
        None
    } else if textures[0].path@ == path {
        Some((textures[0].width, textures[0].height))
    } else {
        texture_size(textures.subrange(1, textures.len() as int), path)
    }
}

/// The size of the buffer of the first pass with the given name.
pub open spec fn target_size(targets: Seq<NamedTarget>, name: Seq<char>) -> Option<(u32, u32)>
    decreases targets.len(),
{
    if targets.len() == 0 {
        None
    } else if targets[0].name@ == name {
        Some(targets[0].data.size)
    } else {
        target_size(targets.subrange(1, targets.len() as int), name)
    }
}

/// The size that a binding gives its channel.
pub open spec fn binding_size(
    b: BindingText,
    textures: Seq<NamedTexture>,
    targets: Seq<NamedTarget>,
) -> Option<(u32, u32)> {
    if b.kind == "texture"@ {
        match b.path {
            Some(p) => texture_size(textures, p),
            None => None,
        }
    } else if b.kind == "buffer"@ {
        match b.target {
            Some(t) => target_size(targets, t),
            None => None,
        }
    } else if b.kind == "audio"@ {
        Some((audio::TEX_WIDTH, audio::TEX_HEIGHT))
    } else {
        None
    }
}

/// The size of channel `ch`: that of the last binding which gives it one.
pub open spec fn channel_size(
    bindings: Seq<BindingText>,
    ch: int,
    textures: Seq<NamedTexture>,
    targets: Seq<NamedTarget>,
) -> Option<(u32, u32)>
    decreases bindings.len(),
{
    if bindings.len() == 0 {
        None
    } else {
        let b = bindings.last();
        match binding_size(b, textures, targets) {
            Some(s) if b.channel == ch => Some(s),
            _ => channel_size(bindings.drop_last(), ch, textures, targets),
        }
    }
}

/// Whether a binding puts audio on channel `ch`.
pub open spec fn plays(bindings: Seq<BindingText>, ch: int) -> bool {
    exists|i: int| 0 <= i < bindings.len() && (#[trigger] bindings[i]).kind == "audio"@ && bindings[i].channel == ch
}

fn find_texture(textures: &Vec<NamedTexture>, path: &str) -> (r: Option<(u32, u32)>)
    ensures
        r == texture_size(textures@, path@),
{
    let mut i: usize = 0;
    assert(textures@.subrange(0, textures@.len() as int) =~= textures@);
    while i < textures.len()
        invariant
            i <= textures.len(),
            texture_size(textures@, path@) == texture_size(
                textures@.subrange(i as int, textures@.len() as int),
                path@,
            ),
        decreases textures.len() - i,
    {
        assert(textures@.subrange(i as int, textures@.len() as int).subrange(1, textures@.len() - i)
            =~= textures@.subrange(i + 1, textures@.len() as int));
        if str_eq(textures[i].path.as_str(), path) {
            return Some((textures[i].width, textures[i].height));
        }
        i = i + 1;
    }
    None
}

fn find_target(targets: &Vec<NamedTarget>, name: &str) -> (r: Option<(u32, u32)>)
    ensures
        r == target_size(targets@, name@),
{
    let mut i: usize = 0;
    assert(targets@.subrange(0, targets@.len() as int) =~= targets@);
    while i < targets.len()
        invariant
            i <= targets.len(),
            target_size(targets@, name@) == target_size(targets@.subrange(i as int, targets@.len() as int), name@),
        decreases targets.len() - i,
    {
        assert(targets@.subrange(i as int, targets@.len() as int).subrange(1, targets@.len() - i)
            =~= targets@.subrange(i + 1, targets@.len() as int));
        if str_eq(targets[i].name.as_str(), name) {
            return Some(targets[i].data.size);
        }
        i = i + 1;
    }
    None
}

fn size_of_binding(b: &BindingConfig, textures: &Vec<NamedTexture>, targets: &Vec<NamedTarget>) -> (r: Option<
    (u32, u32),
>)
    ensures
        r == binding_size(b@, textures@, targets@),
{
    let kind = b.binding_type.as_str();
    if str_eq(kind, "texture") {
        match &b.path {
            Some(p) => find_texture(textures, p.as_str()),
            None => None,
        }
    } else if str_eq(kind, "buffer") {
        match &b.target {
            Some(t) => find_target(targets, t.as_str()),
            None => None,
        }
    } else if str_eq(kind, "audio") {
        Some((audio::TEX_WIDTH, audio::TEX_HEIGHT))
    } else {
        None
    }
}

/// What a shader is told of channel `ch`.
pub fn channel_info(
    bindings: &Vec<BindingConfig>,
    ch: u32,
    textures: &Vec<NamedTexture>,
    targets: &Vec<NamedTarget>,
) -> (r: ChannelInfo)
    ensures
        r.size == channel_size(manifest::binding_texts(bindings@), ch as int, textures@, targets@),
        r.playing == plays(manifest::binding_texts(bindings@), ch as int),
{
    let ghost all = manifest::binding_texts(bindings@);
    let mut size: Option<(u32, u32)> = None;
    let mut playing: bool = false;
    let mut i: usize = 0;
    assert(all.subrange(0, 0) =~= Seq::<BindingText>::empty());
    while i < bindings.len()
        invariant
            i <= bindings.len(),
            all == manifest::binding_texts(bindings@),
            size == channel_size(all.subrange(0, i as int), ch as int, textures@, targets@),
            playing == plays(all.subrange(0, i as int), ch as int),
        decreases bindings.len() - i,
    {
        let ghost before = all.subrange(0, i as int);
        let ghost after = all.subrange(0, i + 1);
        assert(after.drop_last() =~= before);
        assert(after.last() == bindings@[i as int]@);
        let b = &bindings[i];
        proof {
            if plays(before, ch as int) {
                let k = choose|k: int|
                    0 <= k < before.len() && (#[trigger] before[k]).kind == "audio"@ && before[k].channel == ch;
                assert(after[k] == before[k]);
            }
            if plays(after, ch as int) && !plays(before, ch as int) {
                let k = choose|k: int|
                    0 <= k < after.len() && (#[trigger] after[k]).kind == "audio"@ && after[k].channel == ch;
                if k < i {
                    assert(before[k] == after[k]);
                }
            }
        }
        if b.channel == ch {
            match size_of_binding(b, textures, targets) {
                Some(s) => {
                    size = Some(s);
                },
                None => {},
            }
            if str_eq(b.binding_type.as_str(), "audio") {
                assert(after[i as int].kind == "audio"@);
                playing = true;
            }
        }
        i = i + 1;
    }
    assert(all.subrange(0, bindings@.len() as int) =~= all);
    ChannelInfo { size, playing }
}

// ---------------------------------------------------------------------------
// Frames
// ---------------------------------------------------------------------------

/// A draw call of a frame.
#[derive(Clone, Copy, PartialEq, Eq, Structural)]
pub enum DrawStep {
    /// A buffer pass: its layer and position, the slot it writes, and the parity by
    /// which its channels are chosen.
    Offscreen { layer: usize, pass: usize, slot: usize, parity: usize },
    /// The pass that is shown: its layer and position, whether it clears the target
    /// first, whether it is drawn into the layer's rectangle, its blend number, and
    /// the parity by which its channels are chosen.
    Image { layer: usize, pass: usize, clear: bool, custom: bool, blend: i32, parity: usize },
}

/// The plan of a frame.
pub struct FramePlan {
    /// Whether nothing is drawn but a plain background.
    pub clear_only: bool,
    /// Whether the audio textures are filled first.
    pub audio: bool,
    pub steps: Vec<DrawStep>,
    /// Whether the layers are drawn into a reduced target, which is scaled up to the
    /// surface at the end.
    pub upscale: bool,
    /// Whether the reduced target is made before.
    pub make_scene: bool,
}

/// The draw calls of the buffer passes of a layer, in order.
pub open spec fn offscreen_steps(passes: Seq<Seq<char>>, layer: int, parity: int) -> Seq<DrawStep>
    decreases passes.len(),
{
    if passes.len() == 0 {
        Seq::empty()
    } else {
        let before = offscreen_steps(passes.drop_last(), layer, parity);
        if passes.last() == "image"@ {
            before
        } else {
            before.push(
                DrawStep::Offscreen {
                    layer: layer as usize,
                    pass: (passes.len() - 1) as usize,
                    slot: (1 - parity) as usize,
                    parity: parity as usize,
                },
            )
        }
    }
}

/// The draw call of the pass of a layer that is shown, where there is one.
pub open spec fn image_steps(l: LayerPipeline, layer: int, parity: int) -> Seq<DrawStep> {
    match text::pos(text::texts(l.passes@), "image"@) {
        Some(p) => seq![
            DrawStep::Image {
                layer: layer as usize,
                pass: p as usize,
                clear: layer == 0,
                custom: l.positioning@ == "Custom"@,
                blend: blend_number(l.blend_mode@),
                parity: parity as usize,
            },
        ],
        None => Seq::empty(),
    }
}

/// The draw calls of the layers: for each its buffers, then the pass that is shown.
pub open spec fn frame_steps(layers: Seq<LayerPipeline>, parity: int) -> Seq<DrawStep>
    decreases layers.len(),
{
    if layers.len() == 0 {
        Seq::empty()
    } else {
        let l = layers.last();
        frame_steps(layers.drop_last(), parity) + offscreen_steps(
            text::texts(l.passes@),
            layers.len() - 1,
            parity,
        ) + image_steps(l, layers.len() - 1, parity)
    }
}

/// Whether a layer samples audio.
pub open spec fn some_audio(layers: Seq<LayerPipeline>) -> bool {
    exists|i: int| 0 <= i < layers.len() && (#[trigger] layers[i]).audio
}

/// Bytes of the images of a layer, four for each pixel.
pub open spec fn texture_bytes(textures: Seq<NamedTexture>) -> int
    decreases textures.len(),
{
    if textures.len() == 0 {
        0
    } else {
        texture_bytes(textures.drop_last()) + textures.last().width * textures.last().height * 4
    }
}

/// Bytes of the buffers of a layer, eight for each pixel of each texture.
pub open spec fn target_bytes(targets: Seq<NamedTarget>) -> int
    decreases targets.len(),
{
    if targets.len() == 0 {
        0
    } else {
        let d = targets.last().data;
        target_bytes(targets.drop_last()) + d.size.0 * d.size.1 * 8 * d.slots
    }
}

/// Bytes of the layers; each has a default texture of one pixel.
pub open spec fn layer_bytes(layers: Seq<LayerPipeline>) -> int
    decreases layers.len(),
{
    if layers.len() == 0 {
        0
    } else {
        layer_bytes(layers.drop_last()) + texture_bytes(layers.last().textures@) + target_bytes(
            layers.last().targets@,
        ) + 4
    }
}

/// Whether a buffer is another one with a new size.
pub open spec fn target_sized(t: NamedTarget, before: NamedTarget, size: (u32, u32)) -> bool {
    t == (NamedTarget { data: RenderTargetData { slots: before.data.slots, size }, ..before })
}

/// Whether two layers differ at most in their buffers.
pub open spec fn same_but_targets(l: LayerPipeline, before: LayerPipeline) -> bool {
    l == (LayerPipeline { targets: l.targets, ..before })
}

/// Whether a layer is another one whose buffers have new sizes.
pub open spec fn layer_sized(l: LayerPipeline, before: LayerPipeline, sizes: Seq<(u32, u32)>) -> bool {
    &&& same_but_targets(l, before)
    &&& l.targets@.len() == before.targets@.len()
    &&& forall|k: int| 0 <= k < l.targets@.len() ==> target_sized(#[trigger] l.targets@[k], before.targets@[k], sizes[k])
}

/// Whether there is a size for each buffer of each layer.
pub open spec fn fits(sizes: Seq<Vec<(u32, u32)>>, layers: Seq<LayerPipeline>) -> bool {
    &&& sizes.len() == layers.len()
    &&& forall|i: int| 0 <= i < layers.len() ==> (#[trigger] sizes[i])@.len() == layers[i].targets@.len()
}

/// Whether layers are others whose buffers have new sizes.
pub open spec fn with_sizes(
    layers: Seq<LayerPipeline>,
    before: Seq<LayerPipeline>,
    sizes: Seq<Vec<(u32, u32)>>,
) -> bool {
    &&& layers.len() == before.len()
    &&& forall|i: int| 0 <= i < layers.len() ==> layer_sized(#[trigger] layers[i], before[i], sizes[i]@)
}

proof fn lemma_layer_bytes_restored(
    a: Seq<LayerPipeline>,
    small: Seq<LayerPipeline>,
    b: Seq<LayerPipeline>,
    low: Seq<Vec<(u32, u32)>>,
    full: Seq<Vec<(u32, u32)>>,
)
    requires
        a.len() == small.len(),
        b.len() == small.len(),
        a.len() <= full.len(),
        forall|i: int| 0 <= i < a.len() ==> layer_sized(#[trigger] small[i], a[i], low[i]@),
        forall|i: int| 0 <= i < a.len() ==> layer_sized(#[trigger] b[i], small[i], full[i]@),
        forall|i: int, k: int|
            0 <= i < a.len() && 0 <= k < a[i].targets@.len() ==> (#[trigger] a[i].targets@[k]).data.size == full[i]@[k],
    ensures
        layer_bytes(a) == layer_bytes(b),
    decreases a.len(),
{
    if a.len() > 0 {
        let n = a.len() - 1;
        assert forall|i: int| 0 <= i < n implies layer_sized(#[trigger] small.drop_last()[i], a.drop_last()[i], low[i]@) by {
            assert(layer_sized(small[i], a[i], low[i]@));
        }
        assert forall|i: int| 0 <= i < n implies layer_sized(#[trigger] b.drop_last()[i], small.drop_last()[i], full[i]@) by {
            assert(layer_sized(b[i], small[i], full[i]@));
        }
        assert forall|i: int, k: int| 0 <= i < n && 0 <= k < a.drop_last()[i].targets@.len() implies (
        #[trigger] a.drop_last()[i].targets@[k]).data.size == full[i]@[k] by {
            assert(a[i].targets@[k].data.size == full[i]@[k]);
        }
        lemma_layer_bytes_restored(a.drop_last(), small.drop_last(), b.drop_last(), low, full);
        assert(layer_sized(small[n], a[n], low[n]@));
        assert(layer_sized(b[n], small[n], full[n]@));
        assert forall|k: int| 0 <= k < a[n].targets@.len() implies #[trigger] b[n].targets@[k] == a[n].targets@[k] by {
            assert(target_sized(b[n].targets@[k], small[n].targets@[k], full[n]@[k]));
            assert(target_sized(small[n].targets@[k], a[n].targets@[k], low[n]@[k]));
            assert(a[n].targets@[k].data.size == full[n]@[k]);
        }
        assert(b[n].targets@ =~= a[n].targets@);
    }
}

/// Whether a buffer with pixels shrinks when it gets a size that is no larger.
pub open spec fn shrinks(t: NamedTarget, size: (u32, u32)) -> bool {
    t.data.wf() && t.data.size.0 > 0 && t.data.size.1 > 0 && size != t.data.size
}

proof fn lemma_smaller_targets(small: Seq<NamedTarget>, a: Seq<NamedTarget>)
    requires
        small.len() == a.len(),
        forall|k: int|
            0 <= k < a.len() ==> (#[trigger] small[k]).data.slots == a[k].data.slots && small[k].data.size.0
                <= a[k].data.size.0 && small[k].data.size.1 <= a[k].data.size.1,
    ensures
        target_bytes(small) <= target_bytes(a),
        (exists|k: int| 0 <= k < a.len() && #[trigger] shrinks(a[k], small[k].data.size)) ==> target_bytes(small)
            < target_bytes(a),
    decreases a.len(),
{
    if a.len() > 0 {
        let n = a.len() - 1;
        assert forall|k: int| 0 <= k < n implies (#[trigger] small.drop_last()[k]).data.slots
            == a.drop_last()[k].data.slots && small.drop_last()[k].data.size.0 <= a.drop_last()[k].data.size.0
            && small.drop_last()[k].data.size.1 <= a.drop_last()[k].data.size.1 by {
            assert(small[k].data.slots == a[k].data.slots);
        }
        lemma_smaller_targets(small.drop_last(), a.drop_last());
        let s = small[n].data;
        let t = a[n].data;
        assert(s.slots == t.slots);
        assert(s.size.0 * s.size.1 * 8 * s.slots <= t.size.0 * t.size.1 * 8 * t.slots) by (nonlinear_arith)
            requires
                s.slots == t.slots,
                0 <= s.size.0 <= t.size.0,
                0 <= s.size.1 <= t.size.1,
                0 <= s.slots,
        ;
        if shrinks(a[n], s.size) {
            assert(s.size.0 * s.size.1 * 8 * s.slots < t.size.0 * t.size.1 * 8 * t.slots) by (nonlinear_arith)
                requires
                    s.slots == t.slots,
                    0 <= s.size.0 <= t.size.0,
                    0 <= s.size.1 <= t.size.1,
                    0 < t.size.0,
                    0 < t.size.1,
                    s.size.0 < t.size.0 || s.size.1 < t.size.1,
                    0 < s.slots,
            ;
        } else if exists|k: int| 0 <= k < a.len() && #[trigger] shrinks(a[k], small[k].data.size) {
            let k = choose|k: int| 0 <= k < a.len() && #[trigger] shrinks(a[k], small[k].data.size);
            assert(shrinks(a.drop_last()[k], small.drop_last()[k].data.size));
        }
    }
}

/// A lower quality uses less memory: where no buffer grows, the layers use no more than
/// before, and where a buffer with pixels shrinks they use less.
pub proof fn law_smaller_buffers_use_less(
    a: Seq<LayerPipeline>,
    small: Seq<LayerPipeline>,
    low: Seq<Vec<(u32, u32)>>,
)
    requires
        fits(low, a),
        with_sizes(small, a, low),
        forall|i: int, k: int|
            0 <= i < a.len() && 0 <= k < a[i].targets@.len() ==> low[i]@[k].0 <= (
            #[trigger] a[i].targets@[k]).data.size.0 && low[i]@[k].1 <= a[i].targets@[k].data.size.1,
    ensures
        layer_bytes(small) <= layer_bytes(a),
        (exists|i: int, k: int|
            0 <= i < a.len() && 0 <= k < a[i].targets@.len() && #[trigger] shrinks(a[i].targets@[k], low[i]@[k]))
            ==> layer_bytes(small) < layer_bytes(a),
{
    lemma_smaller_layers(a, small, low);
}

proof fn lemma_smaller_layers(a: Seq<LayerPipeline>, small: Seq<LayerPipeline>, low: Seq<Vec<(u32, u32)>>)
    requires
        small.len() == a.len(),
        a.len() <= low.len(),
        forall|i: int| 0 <= i < a.len() ==> layer_sized(#[trigger] small[i], a[i], low[i]@),
        forall|i: int, k: int|
            0 <= i < a.len() && 0 <= k < a[i].targets@.len() ==> low[i]@[k].0 <= (
            #[trigger] a[i].targets@[k]).data.size.0 && low[i]@[k].1 <= a[i].targets@[k].data.size.1,
    ensures
        layer_bytes(small) <= layer_bytes(a),
        (exists|i: int, k: int|
            0 <= i < a.len() && 0 <= k < a[i].targets@.len() && #[trigger] shrinks(a[i].targets@[k], low[i]@[k]))
            ==> layer_bytes(small) < layer_bytes(a),
    decreases a.len(),
{
    if a.len() > 0 {
        let n = a.len() - 1;
        assert forall|i: int| 0 <= i < n implies layer_sized(#[trigger] small.drop_last()[i], a.drop_last()[i], low[i]@) by {
            assert(layer_sized(small[i], a[i], low[i]@));
        }
        assert forall|i: int, k: int| 0 <= i < n && 0 <= k < a.drop_last()[i].targets@.len() implies low[i]@[k].0 <= (
        #[trigger] a.drop_last()[i].targets@[k]).data.size.0 && low[i]@[k].1
            <= a.drop_last()[i].targets@[k].data.size.1 by {
            assert(low[i]@[k].0 <= a[i].targets@[k].data.size.0);
        }
        lemma_smaller_layers(a.drop_last(), small.drop_last(), low);
        assert(layer_sized(small[n], a[n], low[n]@));
        assert forall|k: int| 0 <= k < a[n].targets@.len() implies (#[trigger] small[n].targets@[k]).data.slots
            == a[n].targets@[k].data.slots && small[n].targets@[k].data.size.0 <= a[n].targets@[k].data.size.0
            && small[n].targets@[k].data.size.1 <= a[n].targets@[k].data.size.1 by {
            assert(target_sized(small[n].targets@[k], a[n].targets@[k], low[n]@[k]));
            assert(low[n]@[k].0 <= a[n].targets@[k].data.size.0);
        }
        lemma_smaller_targets(small[n].targets@, a[n].targets@);
        if exists|i: int, k: int|
            0 <= i < a.len() && 0 <= k < a[i].targets@.len() && #[trigger] shrinks(a[i].targets@[k], low[i]@[k]) {
            let (i, k) = choose|i: int, k: int|
                0 <= i < a.len() && 0 <= k < a[i].targets@.len() && #[trigger] shrinks(a[i].targets@[k], low[i]@[k]);
            if i == n {
                assert(target_sized(small[n].targets@[k], a[n].targets@[k], low[n]@[k]));
                assert(shrinks(a[n].targets@[k], small[n].targets@[k].data.size));
            } else {
                assert(shrinks(a.drop_last()[i].targets@[k], low[i]@[k]));
            }
        }
    }
}

/// The use of video memory follows the sizes: when buffers are made smaller and then get
/// back the sizes they had, the layers use as much memory as before.
pub proof fn law_quality_restores_memory(
    a: Seq<LayerPipeline>,
    small: Seq<LayerPipeline>,
    b: Seq<LayerPipeline>,
    low: Seq<Vec<(u32, u32)>>,
    full: Seq<Vec<(u32, u32)>>,
)
    requires
        fits(low, a),
        fits(full, a),
        with_sizes(small, a, low),
        with_sizes(b, small, full),
        forall|i: int, k: int|
            0 <= i < a.len() && 0 <= k < a[i].targets@.len() ==> (#[trigger] a[i].targets@[k]).data.size == full[i]@[k],
    ensures
        layer_bytes(b) == layer_bytes(a),
{
    lemma_layer_bytes_restored(a, small, b, low, full);
}

/// Whether a renderer is another one that draws at another size: its buffers have new
/// sizes, and it has no reduced target yet.
pub open spec fn resized(after: Renderer, before: Renderer, sizes: Seq<Vec<(u32, u32)>>) -> bool {
    &&& with_sizes(after.pipelines@, before.pipelines@, sizes)
    &&& after == (Renderer { pipelines: after.pipelines, scene: None, ..before })
}

/// The use of video memory follows the quality: at sizes that are nowhere greater it is no
/// more, and less where a buffer with pixels shrinks; at the first sizes again it is what it
/// was at first, and every buffer has its first size and as many textures.
pub proof fn law_memory_follows_quality(
    first: Renderer,
    reduced: Renderer,
    restored: Renderer,
    low: Seq<Vec<(u32, u32)>>,
    full: Seq<Vec<(u32, u32)>>,
)
    requires
        first.scene is None,
        fits(low, first.pipelines@),
        fits(full, first.pipelines@),
        resized(reduced, first, low),
        resized(restored, reduced, full),
        forall|i: int, k: int|
            0 <= i < first.pipelines@.len() && 0 <= k < first.pipelines@[i].targets@.len() ==> (
            #[trigger] first.pipelines@[i].targets@[k]).data.size == full[i]@[k] && low[i]@[k].0 <= full[i]@[k].0
                && low[i]@[k].1 <= full[i]@[k].1,
    ensures
        reduced.vram_bytes() <= first.vram_bytes(),
        (exists|i: int, k: int|
            0 <= i < first.pipelines@.len() && 0 <= k < first.pipelines@[i].targets@.len() && #[trigger] shrinks(
                first.pipelines@[i].targets@[k],
                low[i]@[k],
            )) ==> reduced.vram_bytes() < first.vram_bytes(),
        restored.vram_bytes() == first.vram_bytes(),
        forall|i: int, k: int|
            0 <= i < first.pipelines@.len() && 0 <= k < first.pipelines@[i].targets@.len() ==> (
            #[trigger] restored.pipelines@[i].targets@[k]).data == first.pipelines@[i].targets@[k].data,
{
    let a = first.pipelines@;
    let small = reduced.pipelines@;
    let b = restored.pipelines@;
    law_smaller_buffers_use_less(a, small, low);
    law_quality_restores_memory(a, small, b, low, full);
    assert forall|i: int, k: int| 0 <= i < a.len() && 0 <= k < a[i].targets@.len() implies (
    #[trigger] b[i].targets@[k]).data == a[i].targets@[k].data by {
        assert(layer_sized(small[i], a[i], low[i]@));
        assert(layer_sized(b[i], small[i], full[i]@));
        assert(target_sized(small[i].targets@[k], a[i].targets@[k], low[i]@[k]));
        assert(target_sized(b[i].targets@[k], small[i].targets@[k], full[i]@[k]));
    }
}

/// A quarter, by its bits: the lowest quality.
pub const LOWEST_QUALITY_BITS: u32 = 0x3e80_0000;

/// One, by its bits: the full quality.
pub const FULL_QUALITY_BITS: u32 = 0x3f80_0000;

/// Infinity, by its bits: above it, the sign aside, there is no number.
pub const INFINITY_BITS: u32 = 0x7f80_0000;

/// A quality between a quarter and one. Of two numbers without a sign the greater has
/// the greater bits, and one with a sign is below; what is no number stays as it is.
pub open spec fn clamped_quality(q: Bits32) -> Bits32 {
    if q.0 < LOWEST_QUALITY_BITS || 0x8000_0000 <= q.0 <= 0x8000_0000 + INFINITY_BITS {
        Bits32(LOWEST_QUALITY_BITS)
    } else if FULL_QUALITY_BITS < q.0 <= INFINITY_BITS {
        Bits32(FULL_QUALITY_BITS)
    } else {
        q
    }
}

/// A quality between a quarter and one.
pub fn clamp_quality(q: Bits32) -> (r: Bits32)
    ensures
        r == clamped_quality(q),
        clamped_quality(r) == r,
{
    if q.0 < LOWEST_QUALITY_BITS || (0x8000_0000 <= q.0 && q.0 <= 0x8000_0000 + INFINITY_BITS) {
        Bits32(LOWEST_QUALITY_BITS)
    } else if FULL_QUALITY_BITS < q.0 && q.0 <= INFINITY_BITS {
        Bits32(FULL_QUALITY_BITS)
    } else {
        q
    }
}

impl Renderer {
    /// The parity is that of a frame, and the buffers have one or two textures.
    pub open spec fn wf(self) -> bool {
        &&& self.frame_parity <= 1
        &&& forall|i: int, k: int|
            0 <= i < self.pipelines@.len() && 0 <= k < self.pipelines@[i].targets@.len() ==> (
            #[trigger] self.pipelines@[i].targets@[k]).data.wf()
    }

    /// The estimated use of video memory in bytes: two images of the surface, the
    /// layers, and the reduced target.
    pub open spec fn vram_bytes(self) -> int {
        self.size.0 * self.size.1 * 8 + layer_bytes(self.pipelines@) + (match self.scene {
            Some(s) => s.0 * s.1 * 4,
            None => 0,
        })
    }

    /// A renderer for a surface of the given size; the size of the window is taken
    /// where no size is given.
    pub fn new(explicit: (u32, u32), inner: (u32, u32)) -> (r: Self)
        ensures
            r.wf(),
            r.size == (if explicit.0 > 0 && explicit.1 > 0 {
                explicit
            } else {
                inner
            }),
            r.global_resolution == r.size,
            r.monitor_offset == (0i32, 0i32),
            r.pipelines@.len() == 0,
            r.frame_parity == 0,
            r.scene is None,
    {
        let size = if explicit.0 > 0 && explicit.1 > 0 { explicit } else { inner };
        Renderer {
            size,
            global_resolution: size,
            monitor_offset: (0, 0),
            pipelines: Vec::new(),
            frame_parity: 0,
            scene: None,
        }
    }

    /// A renderer without a surface, of at least one pixel.
    pub fn new_headless(width: u32, height: u32) -> (r: Self)
        ensures
            r.wf(),
            r.size == (
                if width == 0 {
                    1u32
                } else {
                    width
                },
                if height == 0 {
                    1u32
                } else {
                    height
                },
            ),
            r.global_resolution == r.size,
            r.monitor_offset == (0i32, 0i32),
            r.pipelines@.len() == 0,
            r.frame_parity == 0,
            r.scene is None,
    {
        let w: u32 = if width == 0 { 1 } else { width };
        let h: u32 = if height == 0 { 1 } else { height };
        Self::new((w, h), (w, h))
    }

    /// The size with which the surface is configured: at least one pixel.
    pub fn surface_size(&self) -> (r: (u32, u32))
        ensures
            r.0 == (if self.size.0 == 0 {
                1u32
            } else {
                self.size.0
            }),
            r.1 == (if self.size.1 == 0 {
                1u32
            } else {
                self.size.1
            }),
    {
        (
            if self.size.0 == 0 {
                1
            } else {
                self.size.0
            },
            if self.size.1 == 0 {
                1
            } else {
                self.size.1
            },
        )
    }

    /// Gives the surface a new size, and the buffers of the layers the sizes that go with
    /// it; a size without pixels is ignored. A canvas that was the surface itself follows
    /// it, a larger one is kept. Says whether the size was taken.
    pub fn resize(&mut self, new_size: (u32, u32), sizes: &Vec<Vec<(u32, u32)>>) -> (r: bool)
        requires
            old(self).wf(),
            fits(sizes@, old(self).pipelines@),
        ensures
            final(self).wf(),
            r == (new_size.0 > 0 && new_size.1 > 0),
            !r ==> *final(self) == *old(self),
            r ==> {
                &&& with_sizes(final(self).pipelines@, old(self).pipelines@, sizes@)
                &&& *final(self) == (Renderer {
                    size: new_size,
                    global_resolution: if old(self).global_resolution == old(self).size {
                        new_size
                    } else {
                        old(self).global_resolution
                    },
                    pipelines: final(self).pipelines,
                    ..*old(self)
                })
            },
    {
        if new_size.0 == 0 || new_size.1 == 0 {
            return false;
        }
        let locked = self.global_resolution.0 == self.size.0 && self.global_resolution.1 == self.size.1;
        self.resize_targets(sizes);
        self.size = new_size;
        if locked {
            self.global_resolution = new_size;
        }
        true
    }

    /// Places the surface in a canvas.
    pub fn set_global_info(&mut self, offset: (i32, i32), total_res: (u32, u32))
        ensures
            old(self).wf() ==> final(self).wf(),
            final(self).monitor_offset == offset,
            final(self).global_resolution == total_res,
            final(self).size == old(self).size,
            final(self).pipelines == old(self).pipelines,
            final(self).frame_parity == old(self).frame_parity,
            final(self).scene == old(self).scene,
    {
        self.monitor_offset = offset;
        self.global_resolution = total_res;
    }

    /// Puts a layer on top.
    pub fn add_layer(&mut self, layer: LayerPipeline)
        requires
            old(self).wf(),
            forall|k: int| 0 <= k < layer.targets@.len() ==> (#[trigger] layer.targets@[k]).data.wf(),
        ensures
            final(self).wf(),
            final(self).pipelines@ == old(self).pipelines@.push(layer),
            final(self).size == old(self).size,
            final(self).global_resolution == old(self).global_resolution,
            final(self).monitor_offset == old(self).monitor_offset,
            final(self).frame_parity == old(self).frame_parity,
            final(self).scene == old(self).scene,
    {
        self.pipelines.push(layer);
    }

    /// Removes all layers.
    pub fn clear_layers(&mut self)
        ensures
            old(self).wf() ==> final(self).wf(),
            final(self).pipelines@.len() == 0,
            final(self).size == old(self).size,
            final(self).global_resolution == old(self).global_resolution,
            final(self).monitor_offset == old(self).monitor_offset,
            final(self).frame_parity == old(self).frame_parity,
            final(self).scene == old(self).scene,
    {
        self.pipelines.clear();
    }

    /// Whether only the layer at `index` differs, and only in the given way.
    pub open spec fn layer_changed(self, before: Self, index: int, layer: LayerPipeline) -> bool {
        &&& self.pipelines@ == before.pipelines@.update(index, layer)
        &&& self.size == before.size
        &&& self.global_resolution == before.global_resolution
        &&& self.monitor_offset == before.monitor_offset
        &&& self.frame_parity == before.frame_parity
        &&& self.scene == before.scene
    }

    /// Gives a layer a rectangle of its own; nothing happens where there is no such
    /// layer.
    pub fn set_layer_transform(&mut self, index: usize, transform: Rect32)
        ensures
            old(self).wf() ==> final(self).wf(),
            index >= old(self).pipelines@.len() ==> *final(self) == *old(self),
            index < old(self).pipelines@.len() ==> final(self).pipelines@.len() == old(self).pipelines@.len()
                && final(self).layer_changed(*old(self), index as int, final(self).pipelines@[index as int])
                && final(self).pipelines@[index as int].transform == transform
                && final(self).pipelines@[index as int].positioning@ == "Custom"@
                && final(self).pipelines@[index as int].opacity == old(self).pipelines@[index as int].opacity
                && final(self).pipelines@[index as int].resolution_scale
                == old(self).pipelines@[index as int].resolution_scale
                && final(self).pipelines@[index as int].blend_mode == old(self).pipelines@[index as int].blend_mode
                && final(self).pipelines@[index as int].passes == old(self).pipelines@[index as int].passes
                && final(self).pipelines@[index as int].textures == old(self).pipelines@[index as int].textures
                && final(self).pipelines@[index as int].targets == old(self).pipelines@[index as int].targets
                && final(self).pipelines@[index as int].audio == old(self).pipelines@[index as int].audio,
    {
        if index < self.pipelines.len() {
            let layer = &mut self.pipelines[index];
            layer.transform = transform;
            layer.positioning = "Custom".to_owned();
        }
    }

    /// Gives a layer a new opacity; nothing happens where there is no such layer.
    pub fn set_layer_opacity(&mut self, index: usize, opacity: Bits32)
        ensures
            old(self).wf() ==> final(self).wf(),
            index >= old(self).pipelines@.len() ==> *final(self) == *old(self),
            index < old(self).pipelines@.len() ==> final(self).layer_changed(
                *old(self),
                index as int,
                (LayerPipeline { opacity, ..old(self).pipelines@[index as int] }),
            ),
    {
        if index < self.pipelines.len() {
            let layer = &mut self.pipelines[index];
            layer.opacity = opacity;
        }
    }

    fn push_layer_steps(&self, steps: &mut Vec<DrawStep>, layer: usize)
        requires
            self.wf(),
            layer < self.pipelines@.len(),
        ensures
            final(steps)@ == old(steps)@ + offscreen_steps(
                text::texts(self.pipelines@[layer as int].passes@),
                layer as int,
                self.frame_parity as int,
            ) + image_steps(self.pipelines@[layer as int], layer as int, self.frame_parity as int),
    {
        let l = &self.pipelines[layer];
        let parity = self.frame_parity;
        let ghost names = text::texts(l.passes@);
        let ghost start = steps@;
        let mut image: Option<usize> = None;
        let mut p: usize = 0;
        assert(names.subrange(0, 0) =~= Seq::<Seq<char>>::empty());
        assert(start + offscreen_steps(names.subrange(0, 0), layer as int, parity as int) =~= start);
        while p < l.passes.len()
            invariant
                p <= l.passes.len(),
                parity <= 1,
                names == text::texts(l.passes@),
                steps@ == start + offscreen_steps(names.subrange(0, p as int), layer as int, parity as int),
                match image {
                    Some(k) => text::first_index(names, "image"@, k as int),
                    None => forall|j: int| 0 <= j < p ==> names[j] != "image"@,
                },
            decreases l.passes.len() - p,
        {
            assert(names.subrange(0, p + 1).drop_last() =~= names.subrange(0, p as int));
            assert(names.subrange(0, p + 1).last() == names[p as int]);
            if str_eq(l.passes[p].as_str(), "image") {
                if image.is_none() {
                    image = Some(p);
                }
            } else {
                let ghost before = steps@;
                steps.push(DrawStep::Offscreen { layer, pass: p, slot: 1 - parity, parity });
                assert(steps@ =~= start + offscreen_steps(
                    names.subrange(0, p + 1),
                    layer as int,
                    parity as int,
                ));
            }
            p = p + 1;
        }
        assert(names.subrange(0, l.passes@.len() as int) =~= names);
        let ghost drawn = steps@;
        match image {
            Some(k) => {
                proof {
                    text::lemma_pos(names, "image"@, k as int);
                }
                steps.push(
                    DrawStep::Image {
                        layer,
                        pass: k,
                        clear: layer == 0,
                        custom: str_eq(l.positioning.as_str(), "Custom"),
                        blend: blend_mode_to_int(l.blend_mode.as_str()),
                        parity,
                    },
                );
            },
            None => {},
        }
        assert(steps@ =~= drawn + image_steps(*l, layer as int, parity as int));
    }

    /// Sees to it that there is a reduced target of the given size. Tells whether one is
    /// made.
    pub fn ensure_scene(&mut self, size: (u32, u32)) -> (made: bool)
        ensures
            made == (old(self).scene != Some(size)),
            *final(self) == (Renderer { scene: Some(size), ..*old(self) }),
    {
        if let Some(s) = self.scene {
            if s.0 == size.0 && s.1 == size.1 {
                return false;
            }
        }
        self.scene = Some(size);
        true
    }

    /// Gives the buffers of the layers new sizes, layer by layer; each keeps its
    /// textures.
    pub fn resize_targets(&mut self, sizes: &Vec<Vec<(u32, u32)>>)
        requires
            old(self).wf(),
            fits(sizes@, old(self).pipelines@),
        ensures
            final(self).wf(),
            with_sizes(final(self).pipelines@, old(self).pipelines@, sizes@),
            *final(self) == (Renderer { pipelines: final(self).pipelines, ..*old(self) }),
    {
        let ghost before = self.pipelines@;
        let mut i: usize = 0;
        while i < self.pipelines.len()
            invariant
                i <= self.pipelines@.len(),
                self.wf(),
                fits(sizes@, before),
                self.pipelines@.len() == before.len(),
                forall|j: int| 0 <= j < i ==> layer_sized(#[trigger] self.pipelines@[j], before[j], sizes@[j]@),
                forall|j: int| i <= j < before.len() ==> #[trigger] self.pipelines@[j] == before[j],
                *self == (Renderer { pipelines: self.pipelines, ..*old(self) }),
            decreases self.pipelines.len() - i,
        {
            let mut k: usize = 0;
            while k < self.pipelines[i].targets.len()
                invariant
                    i < self.pipelines@.len(),
                    k <= self.pipelines@[i as int].targets@.len(),
                    self.wf(),
                    fits(sizes@, before),
                    self.pipelines@.len() == before.len(),
                    forall|j: int| 0 <= j < i ==> layer_sized(#[trigger] self.pipelines@[j], before[j], sizes@[j]@),
                    forall|j: int| i < j < before.len() ==> #[trigger] self.pipelines@[j] == before[j],
                    same_but_targets(self.pipelines@[i as int], before[i as int]),
                    self.pipelines@[i as int].targets@.len() == before[i as int].targets@.len(),
                    forall|n: int|
                        0 <= n < k ==> target_sized(
                            #[trigger] self.pipelines@[i as int].targets@[n],
                            before[i as int].targets@[n],
                            sizes@[i as int]@[n],
                        ),
                    forall|n: int|
                        k <= n < before[i as int].targets@.len() ==> #[trigger] self.pipelines@[i as int].targets@[n]
                            == before[i as int].targets@[n],
                    *self == (Renderer { pipelines: self.pipelines, ..*old(self) }),
                decreases self.pipelines@[i as int].targets@.len() - k,
            {
                let ghost was = self.pipelines@;
                let size = sizes[i][k];
                assert(was[i as int].targets@[k as int].data.wf());
                let history = self.pipelines[i].targets[k].data.slots == 2;
                let data = RenderTargetData::new(size.0, size.1, history);
                self.pipelines[i].targets[k].data = data;
                assert(self.pipelines@ =~= was.update(i as int, self.pipelines@[i as int]));
                assert(self.pipelines@[i as int].targets@ =~= was[i as int].targets@.update(
                    k as int,
                    NamedTarget { data, ..was[i as int].targets@[k as int] },
                ));
                assert forall|a: int, b: int|
                    0 <= a < self.pipelines@.len() && 0 <= b < self.pipelines@[a].targets@.len() implies (
                #[trigger] self.pipelines@[a].targets@[b]).data.wf() by {
                    if a != i || b != k {
                        assert(was[a].targets@[b].data.wf());
                    }
                }
                k = k + 1;
            }
            i = i + 1;
        }
    }

    /// Draws the layers at another size: their buffers get new sizes, and the reduced
    /// target is dropped. Nothing happens where the quality is the same.
    pub fn set_quality(&mut self, changed: bool, sizes: &Vec<Vec<(u32, u32)>>)
        requires
            old(self).wf(),
            fits(sizes@, old(self).pipelines@),
        ensures
            final(self).wf(),
            !changed ==> *final(self) == *old(self),
            changed ==> resized(*final(self), *old(self), sizes@),
    {
        if changed {
            self.resize_targets(sizes);
            self.scene = None;
        }
    }

    /// Begins a frame by the clock, plans it and moves on to the one after it. While the
    /// layers are drawn at a reduced size, `scaling` gives that size.
    pub fn encode_frame(
        &mut self,
        uniforms: &mut UniformState,
        clock: FrameClock,
        scaling: Option<(u32, u32)>,
    ) -> (r: FramePlan)
        requires
            old(self).wf(),
            old(uniforms).uniforms.frame < i32::MAX,
        ensures
            final(self).wf(),
            drawn(*old(self), *final(self), scaling, r),
            uniform::begun(*final(uniforms), *old(uniforms), clock),
    {
        uniforms.update_global_only(clock);
        let mut steps: Vec<DrawStep> = Vec::new();
        let mut audio: bool = false;
        let mut i: usize = 0;
        let ghost layers = self.pipelines@;
        let ghost parity = self.frame_parity as int;
        assert(layers.subrange(0, 0) =~= Seq::<LayerPipeline>::empty());
        while i < self.pipelines.len()
            invariant
                i <= self.pipelines.len(),
                self.wf(),
                layers == self.pipelines@,
                parity == self.frame_parity,
                steps@ == frame_steps(layers.subrange(0, i as int), parity),
                audio == exists|k: int| 0 <= k < i && (#[trigger] layers[k]).audio,
                *self == *old(self),
            decreases self.pipelines.len() - i,
        {
            assert(layers.subrange(0, i + 1).drop_last() =~= layers.subrange(0, i as int));
            assert(layers.subrange(0, i + 1).last() == layers[i as int]);
            if self.pipelines[i].audio {
                audio = true;
            }
            self.push_layer_steps(&mut steps, i);
            i = i + 1;
        }
        assert(layers.subrange(0, layers.len() as int) =~= layers);
        let empty = self.pipelines.len() == 0;
        let mut make_scene = false;
        if !empty {
            if let Some(size) = scaling {
                make_scene = self.ensure_scene(size);
            }
        }
        self.frame_parity = 1 - self.frame_parity;
        FramePlan { clear_only: empty, audio, steps, upscale: scaling.is_some() && !empty, make_scene }
    }

    /// The estimated use of video memory in bytes.
    pub fn estimate_vram(&self) -> (r: u64)
        requires
            self.wf(),
            self.vram_bytes() <= u64::MAX,
        ensures
            r == self.vram_bytes(),
    {
        let ghost layers = self.pipelines@;
        proof {
            lemma_layer_bytes_positive(layers);
            lemma_product(self.size.0, self.size.1);
        }
        let mut total: u64 = self.size.0 as u64 * self.size.1 as u64 * 8;
        let ghost base = total as int;
        let mut i: usize = 0;
        assert(layers.subrange(0, 0) =~= Seq::<LayerPipeline>::empty());
        while i < self.pipelines.len()
            invariant
                i <= self.pipelines.len(),
                self.wf(),
                layers == self.pipelines@,
                base >= 0,
                base + layer_bytes(layers) <= u64::MAX,
                total == base + layer_bytes(layers.subrange(0, i as int)),
            decreases self.pipelines.len() - i,
        {
            proof {
                assert(layers.subrange(0, i + 1).drop_last() =~= layers.subrange(0, i as int));
                assert(layers.subrange(0, i + 1).last() == layers[i as int]);
                lemma_layer_bytes_grow(layers, i + 1);
                lemma_texture_bytes_positive(layers[i as int].textures@);
                lemma_target_bytes_positive(layers[i as int].targets@);
            }
            let l = &self.pipelines[i];
            total = total + sum_textures(&l.textures);
            total = total + sum_targets(&l.targets);
            total = total + 4;
            i = i + 1;
        }
        assert(layers.subrange(0, layers.len() as int) =~= layers);
        match self.scene {
            Some(s) => {
                proof {
                    lemma_product(s.0, s.1);
                }
                total + s.0 as u64 * s.1 as u64 * 4
            },
            None => total,
        }
    }
}

proof fn lemma_product(a: u32, b: u32)
    ensures
        0 <= a * b <= u64::MAX,
        a as u64 * b as u64 == a * b,
{
    assert(0 <= a * b <= 0xffff_ffff * 0xffff_ffff) by (nonlinear_arith)
        requires
            0 <= a <= 0xffff_ffff,
            0 <= b <= 0xffff_ffff,
    ;
}

proof fn lemma_texture_bytes_positive(t: Seq<NamedTexture>)
    ensures
        texture_bytes(t) >= 0,
    decreases t.len(),
{
    if t.len() > 0 {
        lemma_texture_bytes_positive(t.drop_last());
        lemma_product(t.last().width, t.last().height);
    }
}

proof fn lemma_target_product(d: RenderTargetData)
    ensures
        d.size.0 * d.size.1 * 8 * d.slots >= 0,
{
    lemma_product(d.size.0, d.size.1);
    assert(d.size.0 * d.size.1 * 8 * d.slots >= 0) by (nonlinear_arith)
        requires
            d.size.0 * d.size.1 >= 0,
            d.slots >= 0,
    ;
}

proof fn lemma_target_bytes_positive(t: Seq<NamedTarget>)
    ensures
        target_bytes(t) >= 0,
    decreases t.len(),
{
    if t.len() > 0 {
        lemma_target_bytes_positive(t.drop_last());
        lemma_target_product(t.last().data);
    }
}

proof fn lemma_layer_bytes_positive(l: Seq<LayerPipeline>)
    ensures
        layer_bytes(l) >= 0,
    decreases l.len(),
{
    if l.len() > 0 {
        lemma_layer_bytes_positive(l.drop_last());
        lemma_texture_bytes_positive(l.last().textures@);
        lemma_target_bytes_positive(l.last().targets@);
    }
}

proof fn lemma_layer_bytes_grow(l: Seq<LayerPipeline>, k: int)
    requires
        0 <= k <= l.len(),
    ensures
        0 <= layer_bytes(l.subrange(0, k)) <= layer_bytes(l),
    decreases l.len() - k,
{
    lemma_layer_bytes_positive(l.subrange(0, k));
    if k == l.len() {
        assert(l.subrange(0, k) =~= l);
    } else {
        lemma_layer_bytes_grow(l, k + 1);
        assert(l.subrange(0, k + 1).drop_last() =~= l.subrange(0, k));
        lemma_texture_bytes_positive(l[k].textures@);
        lemma_target_bytes_positive(l[k].targets@);
    }
}

proof fn lemma_texture_bytes_grow(t: Seq<NamedTexture>, k: int)
    requires
        0 <= k <= t.len(),
    ensures
        0 <= texture_bytes(t.subrange(0, k)) <= texture_bytes(t),
    decreases t.len() - k,
{
    lemma_texture_bytes_positive(t.subrange(0, k));
    if k == t.len() {
        assert(t.subrange(0, k) =~= t);
    } else {
        lemma_texture_bytes_grow(t, k + 1);
        assert(t.subrange(0, k + 1).drop_last() =~= t.subrange(0, k));
        lemma_product(t[k].width, t[k].height);
    }
}

proof fn lemma_target_bytes_grow(t: Seq<NamedTarget>, k: int)
    requires
        0 <= k <= t.len(),
    ensures
        0 <= target_bytes(t.subrange(0, k)) <= target_bytes(t),
    decreases t.len() - k,
{
    lemma_target_bytes_positive(t.subrange(0, k));
    if k == t.len() {
        assert(t.subrange(0, k) =~= t);
    } else {
        lemma_target_bytes_grow(t, k + 1);
        assert(t.subrange(0, k + 1).drop_last() =~= t.subrange(0, k));
        lemma_target_product(t[k].data);
    }
}

fn sum_textures(t: &Vec<NamedTexture>) -> (r: u64)
    requires
        texture_bytes(t@) <= u64::MAX,
    ensures
        r == texture_bytes(t@),
{
    let mut total: u64 = 0;
    let mut i: usize = 0;
    assert(t@.subrange(0, 0) =~= Seq::<NamedTexture>::empty());
    while i < t.len()
        invariant
            i <= t.len(),
            texture_bytes(t@) <= u64::MAX,
            total == texture_bytes(t@.subrange(0, i as int)),
        decreases t.len() - i,
    {
        proof {
            assert(t@.subrange(0, i + 1).drop_last() =~= t@.subrange(0, i as int));
            lemma_texture_bytes_grow(t@, i + 1);
            lemma_product(t@[i as int].width, t@[i as int].height);
        }
        total = total + t[i].width as u64 * t[i].height as u64 * 4;
        i = i + 1;
    }
    assert(t@.subrange(0, t@.len() as int) =~= t@);
    total
}

fn sum_targets(t: &Vec<NamedTarget>) -> (r: u64)
    requires
        target_bytes(t@) <= u64::MAX,
        forall|k: int| 0 <= k < t@.len() ==> (#[trigger] t@[k]).data.wf(),
    ensures
        r == target_bytes(t@),
{
    let mut total: u64 = 0;
    let mut i: usize = 0;
    assert(t@.subrange(0, 0) =~= Seq::<NamedTarget>::empty());
    while i < t.len()
        invariant
            i <= t.len(),
            target_bytes(t@) <= u64::MAX,
            forall|k: int| 0 <= k < t@.len() ==> (#[trigger] t@[k]).data.wf(),
            total == target_bytes(t@.subrange(0, i as int)),
        decreases t.len() - i,
    {
        let d = t[i].data;
        proof {
            assert(t@.subrange(0, i + 1).drop_last() =~= t@.subrange(0, i as int));
            lemma_target_bytes_grow(t@, i + 1);
            lemma_product(d.size.0, d.size.1);
            lemma_target_product(d);
            assert(t@[i as int].data.wf());
        }
        let pixels: u64 = d.size.0 as u64 * d.size.1 as u64;
        let one: u64 = pixels * 8;
        total = total + if d.slots == 1 { one } else { one * 2 };
        i = i + 1;
    }
    assert(t@.subrange(0, t@.len() as int) =~= t@);
    total
}

// ---------------------------------------------------------------------------
// Laws
// ---------------------------------------------------------------------------

proof fn lemma_steps_of_frame(layers: Seq<LayerPipeline>, parity: int, i: int)
    requires
        parity == 0 || parity == 1,
        layers.len() <= usize::MAX,
        forall|k: int| 0 <= k < layers.len() ==> (#[trigger] layers[k]).passes@.len() <= usize::MAX,
        0 <= i < frame_steps(layers, parity).len(),
    ensures
        match frame_steps(layers, parity)[i] {
            DrawStep::Offscreen { layer, pass, slot, parity: p } => {
                &&& layer < layers.len()
                &&& pass < layers[layer as int].passes@.len()
                &&& layers[layer as int].passes@[pass as int]@ != "image"@
                &&& slot == 1 - parity
                &&& p == parity
            },
            DrawStep::Image { layer, pass, clear, custom, blend, parity: p } => {
                &&& layer < layers.len()
                &&& pass < layers[layer as int].passes@.len()
                &&& layers[layer as int].passes@[pass as int]@ == "image"@
                &&& clear == (layer == 0)
                &&& p == parity
            },
        },
    decreases layers.len(),
{
    let d = layers.drop_last();
    let n = layers.len() - 1;
    let l = layers.last();
    let names = text::texts(l.passes@);
    let a = frame_steps(d, parity);
    let b = offscreen_steps(names, n, parity);
    if i < a.len() {
        assert forall|k: int| 0 <= k < d.len() implies (#[trigger] d[k]).passes@.len() <= usize::MAX by {
            assert(d[k] == layers[k]);
        }
        lemma_steps_of_frame(d, parity, i);
        assert(frame_steps(layers, parity)[i] == a[i]);
    } else if i < a.len() + b.len() {
        assert(layers[n].passes@.len() <= usize::MAX);
        lemma_offscreen(names, n, parity, i - a.len());
        assert(frame_steps(layers, parity)[i] == b[i - a.len()]);
    } else {
        let c = image_steps(l, n, parity);
        assert(layers[n].passes@.len() <= usize::MAX);
        assert(frame_steps(layers, parity)[i] == c[i - a.len() - b.len()]);
        let k = choose|k: int| 0 <= k < names.len() && names[k] == "image"@;
        text::lemma_pos_exists(names, "image"@, k);
    }
}

proof fn lemma_offscreen(names: Seq<Seq<char>>, layer: int, parity: int, i: int)
    requires
        parity == 0 || parity == 1,
        0 <= layer <= usize::MAX,
        names.len() <= usize::MAX,
        0 <= i < offscreen_steps(names, layer, parity).len(),
    ensures
        offscreen_steps(names, layer, parity)[i] matches DrawStep::Offscreen { layer: l, pass, slot, parity: p } && {
            &&& l == layer
            &&& pass < names.len()
            &&& names[pass as int] != "image"@
            &&& slot == 1 - parity
            &&& p == parity
        },
    decreases names.len(),
{
    let d = names.drop_last();
    let before = offscreen_steps(d, layer, parity);
    if i < before.len() {
        lemma_offscreen(d, layer, parity, i);
        assert(offscreen_steps(names, layer, parity)[i] == before[i]);
    }
}

/// What a frame draws: every draw call belongs to a pass of a layer; buffer passes
/// write the slot of the frame, and the target is cleared for the bottom layer only.
pub proof fn law_frame_draws_passes(layers: Seq<LayerPipeline>, parity: int)
    requires
        parity == 0 || parity == 1,
        layers.len() <= usize::MAX,
        forall|k: int| 0 <= k < layers.len() ==> (#[trigger] layers[k]).passes@.len() <= usize::MAX,
    ensures
        forall|i: int|
            0 <= i < frame_steps(layers, parity).len() ==> match #[trigger] frame_steps(layers, parity)[i] {
                DrawStep::Offscreen { layer, pass, slot, parity: p } => {
                    &&& layer < layers.len()
                    &&& pass < layers[layer as int].passes@.len()
                    &&& layers[layer as int].passes@[pass as int]@ != "image"@
                    &&& slot == 1 - parity
                    &&& p == parity
                },
                DrawStep::Image { layer, pass, clear, custom, blend, parity: p } => {
                    &&& layer < layers.len()
                    &&& pass < layers[layer as int].passes@.len()
                    &&& layers[layer as int].passes@[pass as int]@ == "image"@
                    &&& clear == (layer == 0)
                    &&& p == parity
                },
            },
{
    assert forall|i: int| 0 <= i < frame_steps(layers, parity).len() implies match #[trigger] frame_steps(
        layers,
        parity,
    )[i] {
        DrawStep::Offscreen { layer, pass, slot, parity: p } => {
            &&& layer < layers.len()
            &&& pass < layers[layer as int].passes@.len()
            &&& layers[layer as int].passes@[pass as int]@ != "image"@
            &&& slot == 1 - parity
            &&& p == parity
        },
        DrawStep::Image { layer, pass, clear, custom, blend, parity: p } => {
            &&& layer < layers.len()
            &&& pass < layers[layer as int].passes@.len()
            &&& layers[layer as int].passes@[pass as int]@ == "image"@
            &&& clear == (layer == 0)
            &&& p == parity
        },
    } by {
        lemma_steps_of_frame(layers, parity, i);
    }
}

/// Whether a frame was planned for `before` as `r` says, and `after` is ready for the next.
pub open spec fn drawn(before: Renderer, after: Renderer, scaling: Option<(u32, u32)>, r: FramePlan) -> bool {
    &&& r.clear_only == (before.pipelines@.len() == 0)
    &&& r.audio == some_audio(before.pipelines@)
    &&& r.steps@ == frame_steps(before.pipelines@, before.frame_parity as int)
    &&& r.upscale == (scaling is Some && !r.clear_only)
    &&& r.make_scene == (r.upscale && before.scene != scaling)
    &&& after.frame_parity == 1 - before.frame_parity
    &&& after.pipelines == before.pipelines
    &&& after.size == before.size
    &&& after.global_resolution == before.global_resolution
    &&& after.monitor_offset == before.monitor_offset
    &&& after.scene == (if r.upscale {
        scaling
    } else {
        before.scene
    })
}

/// A frame of a run: what was there before it and after it, and what it was drawn by.
pub struct Frame {
    pub before: Renderer,
    pub after: Renderer,
    pub uniforms: UniformState,
    pub next_uniforms: UniformState,
    pub clock: FrameClock,
    pub scaling: Option<(u32, u32)>,
    pub plan: FramePlan,
}

/// Whether frames were drawn one after the other, with nothing else between them.
pub open spec fn is_run(fs: Seq<Frame>) -> bool {
    &&& forall|i: int|
        0 <= i < fs.len() ==> (#[trigger] fs[i]).before.wf() && drawn(
            fs[i].before,
            fs[i].after,
            fs[i].scaling,
            fs[i].plan,
        ) && uniform::begun(fs[i].next_uniforms, fs[i].uniforms, fs[i].clock)
    &&& forall|i: int, j: int|
        0 <= i && j == i + 1 && j < fs.len() ==> (#[trigger] fs[j]).before == (#[trigger] fs[i]).after && fs[j].uniforms
            == fs[i].next_uniforms
}

/// Whether a pass reads its own buffer at `slot`, unless an earlier pass has its name.
pub open spec fn own_slot(layer: LayerPipeline, pass: int, parity: int, slot: int) -> bool {
    let names = text::texts(layer.passes@);
    text::pos(names, names[pass]) == Some(pass) ==> pipeline::read_slot(names, names[pass], pass, parity) == slot
}

/// Over frames that follow each other the slots of the buffers take turns and the frames
/// are counted: after `i` frames the parity has changed `i` times and the number of the
/// frame has grown by `i`, and the layers are the same. Every buffer pass writes the slot
/// of its buffer that the frame after it takes as its parity. What it reads of its own
/// buffer, unless an earlier pass has its name, is the other slot: what the frame before
/// wrote.
pub proof fn law_frames_take_turns(fs: Seq<Frame>)
    requires
        is_run(fs),
    ensures
        forall|i: int|
            0 <= i < fs.len() ==> {
                let f = #[trigger] fs[i];
                &&& f.before.frame_parity == (fs[0].before.frame_parity + i) % 2
                &&& f.after.frame_parity == (fs[0].before.frame_parity + i + 1) % 2
                &&& f.uniforms.uniforms.frame == fs[0].uniforms.uniforms.frame + i
                &&& f.next_uniforms.uniforms.frame == fs[0].uniforms.uniforms.frame + i + 1
                &&& f.before.pipelines == fs[0].before.pipelines
                &&& f.after.pipelines == fs[0].before.pipelines
                &&& f.plan.steps@ == frame_steps(fs[0].before.pipelines@, (fs[0].before.frame_parity + i) % 2)
            },
        forall|i: int, k: int|
            0 <= i < fs.len() && 0 <= k < fs[i].plan.steps@.len() ==> match #[trigger] fs[i].plan.steps@[k] {
                DrawStep::Offscreen { layer, pass, slot, parity } => {
                    &&& parity == fs[i].before.frame_parity
                    &&& slot == fs[i].after.frame_parity
                    &&& slot == 1 - parity
                    &&& layer < fs[i].before.pipelines@.len()
                    &&& pass < fs[i].before.pipelines@[layer as int].passes@.len()
                    &&& own_slot(fs[i].before.pipelines@[layer as int], pass as int, parity as int, parity as int)
                },
                DrawStep::Image { layer, pass, clear, custom, blend, parity } => parity == fs[i].before.frame_parity,
            },
{
    assert forall|i: int| 0 <= i < fs.len() implies {
        let f = #[trigger] fs[i];
        &&& f.before.frame_parity == (fs[0].before.frame_parity + i) % 2
        &&& f.after.frame_parity == (fs[0].before.frame_parity + i + 1) % 2
        &&& f.uniforms.uniforms.frame == fs[0].uniforms.uniforms.frame + i
        &&& f.next_uniforms.uniforms.frame == fs[0].uniforms.uniforms.frame + i + 1
        &&& f.before.pipelines == fs[0].before.pipelines
        &&& f.after.pipelines == fs[0].before.pipelines
        &&& f.plan.steps@ == frame_steps(fs[0].before.pipelines@, (fs[0].before.frame_parity + i) % 2)
    } by {
        lemma_turn(fs, i);
    }
    assert forall|i: int, k: int| 0 <= i < fs.len() && 0 <= k < fs[i].plan.steps@.len() implies match #[trigger] fs[i].plan.steps@[k] {
        DrawStep::Offscreen { layer, pass, slot, parity } => {
            &&& parity == fs[i].before.frame_parity
            &&& slot == fs[i].after.frame_parity
            &&& slot == 1 - parity
            &&& layer < fs[i].before.pipelines@.len()
            &&& pass < fs[i].before.pipelines@[layer as int].passes@.len()
            &&& own_slot(fs[i].before.pipelines@[layer as int], pass as int, parity as int, parity as int)
        },
        DrawStep::Image { layer, pass, clear, custom, blend, parity } => parity == fs[i].before.frame_parity,
    } by {
        lemma_turn(fs, i);
        let layers = fs[i].before.pipelines;
        assert(layers.len() == layers@.len());
        assert forall|l: int| 0 <= l < layers@.len() implies (#[trigger] layers@[l]).passes@.len() <= usize::MAX by {
            assert(layers@[l].passes.len() == layers@[l].passes@.len());
        }
        lemma_steps_of_frame(layers@, fs[i].before.frame_parity as int, k);
    }
}

proof fn lemma_turn(fs: Seq<Frame>, i: int)
    requires
        is_run(fs),
        0 <= i < fs.len(),
    ensures
        fs[i].before.frame_parity == (fs[0].before.frame_parity + i) % 2,
        fs[i].after.frame_parity == (fs[0].before.frame_parity + i + 1) % 2,
        fs[i].uniforms.uniforms.frame == fs[0].uniforms.uniforms.frame + i,
        fs[i].before.pipelines == fs[0].before.pipelines,
    decreases i,
{
    assert(fs[i].before.wf());
    if i > 0 {
        lemma_turn(fs, i - 1);
        assert(fs[i].before == fs[i - 1].after);
    }
}

/// The layer that a draw call belongs to.
pub open spec fn layer_of(s: DrawStep) -> int {
    match s {
        DrawStep::Offscreen { layer, .. } => layer as int,
        DrawStep::Image { layer, .. } => layer as int,
    }
}

/// Whether a draw call comes before another: those of a lower layer first, and of one
/// layer the buffers in the order of its passes before the pass that is shown.
pub open spec fn comes_before(a: DrawStep, b: DrawStep) -> bool {
    ||| layer_of(a) < layer_of(b)
    ||| layer_of(a) == layer_of(b) && match a {
        DrawStep::Offscreen { pass, .. } => match b {
            DrawStep::Offscreen { pass: other, .. } => pass < other,
            DrawStep::Image { .. } => true,
        },
        DrawStep::Image { .. } => false,
    }
}

/// Every layer is drawn: each of its buffer passes, and the pass that is shown, at the
/// place, with the blending and over the background that the layer asks for. The draw
/// calls come from the bottom layer to the top one, the buffers of a layer before what it
/// shows, and none comes twice.
pub proof fn law_every_layer_is_drawn(layers: Seq<LayerPipeline>, parity: int)
    requires
        parity == 0 || parity == 1,
        layers.len() <= usize::MAX,
        forall|k: int| 0 <= k < layers.len() ==> (#[trigger] layers[k]).passes@.len() <= usize::MAX,
    ensures
        forall|k: int, p: int|
            0 <= k < layers.len() && 0 <= p < layers[k].passes@.len() && (#[trigger] layers[k].passes@[p])@
                != "image"@ ==> frame_steps(layers, parity).contains(
                DrawStep::Offscreen {
                    layer: k as usize,
                    pass: p as usize,
                    slot: (1 - parity) as usize,
                    parity: parity as usize,
                },
            ),
        forall|k: int, p: int|
            0 <= k < layers.len() && #[trigger] text::first_index(text::texts(layers[k].passes@), "image"@, p)
                ==> exists|i: int| 0 <= i < frame_steps(layers, parity).len() && match #[trigger] frame_steps(
                layers,
                parity,
            )[i] {
                DrawStep::Image { layer, pass, clear, custom, blend, parity: q } => {
                    &&& layer == k
                    &&& pass == p
                    &&& clear == (k == 0)
                    &&& custom == (layers[k].positioning@ == "Custom"@)
                    &&& blend == 1 <==> layers[k].blend_mode@ == "additive"@
                    &&& blend == 2 <==> layers[k].blend_mode@ == "multiply"@
                    &&& blend == 3 <==> layers[k].blend_mode@ == "screen"@
                    &&& 0 <= blend <= 3
                    &&& q == parity
                },
                DrawStep::Offscreen { .. } => false,
            },
        forall|i: int, j: int|
            0 <= i < j < frame_steps(layers, parity).len() ==> comes_before(
                #[trigger] frame_steps(layers, parity)[i],
                #[trigger] frame_steps(layers, parity)[j],
            ),
    decreases layers.len(),
{
    if layers.len() > 0 {
        let d = layers.drop_last();
        let n = layers.len() - 1;
        let l = layers.last();
        let names = text::texts(l.passes@);
        let a = frame_steps(d, parity);
        let b = offscreen_steps(names, n, parity);
        let c = image_steps(l, n, parity);
        let all = frame_steps(layers, parity);
        assert(layers[n] == l);
        assert forall|k: int| 0 <= k < d.len() implies (#[trigger] d[k]).passes@.len() <= usize::MAX by {
            assert(d[k] == layers[k]);
        }
        law_every_layer_is_drawn(d, parity);
        lemma_buffers_are_drawn(names, n, parity);
        law_blend_numbers_tell_the_modes(l.blend_mode@);
        assert forall|k: int, p: int| 0 <= k < layers.len() && 0 <= p < layers[k].passes@.len() && (
        #[trigger] layers[k].passes@[p])@ != "image"@ implies all.contains(
            DrawStep::Offscreen {
                layer: k as usize,
                pass: p as usize,
                slot: (1 - parity) as usize,
                parity: parity as usize,
            },
        ) by {
            let s = DrawStep::Offscreen {
                layer: k as usize,
                pass: p as usize,
                slot: (1 - parity) as usize,
                parity: parity as usize,
            };
            if k < n {
                assert(d[k].passes@[p]@ != "image"@);
                assert(a.contains(s));
                let i = choose|i: int| 0 <= i < a.len() && a[i] == s;
                assert(all[i] == s);
            } else {
                assert(names[p] != "image"@);
                assert(b.contains(s));
                let i = choose|i: int| 0 <= i < b.len() && b[i] == s;
                assert(all[a.len() + i] == s);
            }
        }
        assert forall|k: int, p: int| 0 <= k < layers.len() && #[trigger] text::first_index(
            text::texts(layers[k].passes@),
            "image"@,
            p,
        ) implies exists|i: int| 0 <= i < all.len() && match #[trigger] all[i] {
            DrawStep::Image { layer, pass, clear, custom, blend, parity: q } => {
                &&& layer == k
                &&& pass == p
                &&& clear == (k == 0)
                &&& custom == (layers[k].positioning@ == "Custom"@)
                &&& blend == 1 <==> layers[k].blend_mode@ == "additive"@
                &&& blend == 2 <==> layers[k].blend_mode@ == "multiply"@
                &&& blend == 3 <==> layers[k].blend_mode@ == "screen"@
                &&& 0 <= blend <= 3
                &&& q == parity
            },
            DrawStep::Offscreen { .. } => false,
        } by {
            if k < n {
                assert(d[k] == layers[k]);
                assert(text::first_index(text::texts(d[k].passes@), "image"@, p));
                assert(d[k].positioning@ == layers[k].positioning@);
                let i = choose|i: int| 0 <= i < a.len() && match #[trigger] a[i] {
                    DrawStep::Image { layer, pass, clear, custom, blend, parity: q } => {
                        &&& layer == k
                        &&& pass == p
                        &&& clear == (k == 0)
                        &&& custom == (d[k].positioning@ == "Custom"@)
                        &&& blend == 1 <==> d[k].blend_mode@ == "additive"@
                        &&& blend == 2 <==> d[k].blend_mode@ == "multiply"@
                        &&& blend == 3 <==> d[k].blend_mode@ == "screen"@
                        &&& 0 <= blend <= 3
                        &&& q == parity
                    },
                    DrawStep::Offscreen { .. } => false,
                };
                assert(all[i] == a[i]);
            } else {
                text::lemma_pos(names, "image"@, p);
                assert(all[(a.len() + b.len()) as int] == c[0]);
            }
        }
        assert forall|i: int, j: int| 0 <= i < j < all.len() implies comes_before(
            #[trigger] all[i],
            #[trigger] all[j],
        ) by {
            if j < a.len() {
                assert(all[i] == a[i] && all[j] == a[j]);
            } else {
                if i < a.len() {
                    lemma_steps_of_frame(d, parity, i);
                    assert(all[i] == a[i]);
                } else if i < a.len() + b.len() {
                    assert(all[i] == b[i - a.len()]);
                    lemma_offscreen(names, n, parity, i - a.len());
                } else {
                    assert(false);
                }
                if j < a.len() + b.len() {
                    assert(all[j] == b[j - a.len()]);
                    lemma_offscreen(names, n, parity, j - a.len());
                } else {
                    assert(all[j] == c[j - a.len() - b.len()]);
                }
            }
        }
    }
}

proof fn lemma_buffers_are_drawn(names: Seq<Seq<char>>, layer: int, parity: int)
    requires
        parity == 0 || parity == 1,
        0 <= layer <= usize::MAX,
        names.len() <= usize::MAX,
    ensures
        forall|p: int|
            0 <= p < names.len() && #[trigger] names[p] != "image"@ ==> offscreen_steps(names, layer, parity).contains(
                DrawStep::Offscreen {
                    layer: layer as usize,
                    pass: p as usize,
                    slot: (1 - parity) as usize,
                    parity: parity as usize,
                },
            ),
        forall|i: int, j: int|
            0 <= i < j < offscreen_steps(names, layer, parity).len() ==> comes_before(
                #[trigger] offscreen_steps(names, layer, parity)[i],
                #[trigger] offscreen_steps(names, layer, parity)[j],
            ),
    decreases names.len(),
{
    if names.len() > 0 {
        let d = names.drop_last();
        let before = offscreen_steps(d, layer, parity);
        let all = offscreen_steps(names, layer, parity);
        lemma_buffers_are_drawn(d, layer, parity);
        assert forall|p: int| 0 <= p < names.len() && #[trigger] names[p] != "image"@ implies all.contains(
            DrawStep::Offscreen {
                layer: layer as usize,
                pass: p as usize,
                slot: (1 - parity) as usize,
                parity: parity as usize,
            },
        ) by {
            let s = DrawStep::Offscreen {
                layer: layer as usize,
                pass: p as usize,
                slot: (1 - parity) as usize,
                parity: parity as usize,
            };
            if p < d.len() {
                assert(d[p] == names[p]);
                assert(before.contains(s));
                let i = choose|i: int| 0 <= i < before.len() && before[i] == s;
                assert(all[i] == s);
            } else {
                assert(all[all.len() - 1] == s);
            }
        }
        assert forall|i: int, j: int| 0 <= i < j < all.len() implies comes_before(
            #[trigger] all[i],
            #[trigger] all[j],
        ) by {
            lemma_offscreen(d, layer, parity, i);
            assert(all[i] == before[i]);
            if j < before.len() {
                assert(all[j] == before[j]);
            }
        }
    }
}

/// The shader is told by the number what the layer's blend mode is: each mode has its own
/// number, and what is no other mode is normal.
pub proof fn law_blend_numbers_tell_the_modes(mode: Seq<char>)
    ensures
        0 <= blend_number(mode) <= 3,
        blend_number(mode) == 1 <==> mode == "additive"@,
        blend_number(mode) == 2 <==> mode == "multiply"@,
        blend_number(mode) == 3 <==> mode == "screen"@,
{
    reveal_strlit("additive");
    reveal_strlit("multiply");
    reveal_strlit("screen");
    assert("additive"@[0] == 'a' && "multiply"@[0] == 'm' && "screen"@[0] == 's');
}

/// A label that names the immediate mode or the mailbox mode gives that mode, and any
/// other label waits for the screen.
pub proof fn law_labels_name_present_modes(label: Seq<char>)
    ensures
        mode_of_label(label) == PresentMode::Immediate <==> text::has_text(label, "Immediate"@),
        mode_of_label(label) == PresentMode::Mailbox <==> text::has_text(label, "Mailbox"@) && !text::has_text(
            label,
            "Immediate"@,
        ),
        mode_of_label(label) == PresentMode::Fifo <==> !text::has_text(label, "Mailbox"@) && !text::has_text(
            label,
            "Immediate"@,
        ),
{
}

/// The same error is logged again after ten seconds and not before, another error at
/// once, and one that follows from an earlier error never.
pub proof fn law_errors_are_not_repeated(log: ErrorLog, message: Seq<char>, now: u64)
    ensures
        text::has_text(message, "] is invalid"@) ==> !log.logs(message, now),
        !text::has_text(message, "] is invalid"@) && log.last is None ==> log.logs(message, now),
        !text::has_text(message, "] is invalid"@) ==> (log.last matches Some((m, when)) ==> log.logs(message, now) == (
        m@ != message || now - when >= 10_000)),
{
}

/// A shader is told the size of what its channel samples: of the image, of the buffer, or
/// of the audio texture that the last binding of the channel names. A channel that nothing
/// is bound to has no size and plays nothing.
pub proof fn law_channels_tell_their_sizes(
    bindings: Seq<BindingText>,
    ch: int,
    textures: Seq<NamedTexture>,
    targets: Seq<NamedTarget>,
    k: int,
    j: int,
)
    requires
        forall|i: int| k < i < bindings.len() ==> (#[trigger] bindings[i]).channel != ch,
        -1 <= k < bindings.len(),
        k >= 0 ==> bindings[k].channel == ch,
    ensures
        k < 0 ==> channel_size(bindings, ch, textures, targets) is None && !plays(bindings, ch),
        k >= 0 && bindings[k].kind == "audio"@ ==> channel_size(bindings, ch, textures, targets) == Some((512u32, 2u32))
            && plays(bindings, ch),
        k >= 0 && bindings[k].kind == "texture"@ && 0 <= j < textures.len() && bindings[k].path == Some(
            textures[j].path@,
        ) && (forall|i: int| 0 <= i < j ==> (#[trigger] textures[i]).path@ != textures[j].path@) ==> channel_size(
            bindings,
            ch,
            textures,
            targets,
        ) == Some((textures[j].width, textures[j].height)),
        k >= 0 && bindings[k].kind == "buffer"@ && 0 <= j < targets.len() && bindings[k].target == Some(
            targets[j].name@,
        ) && (forall|i: int| 0 <= i < j ==> (#[trigger] targets[i]).name@ != targets[j].name@) ==> channel_size(
            bindings,
            ch,
            textures,
            targets,
        ) == Some(targets[j].data.size),
    decreases bindings.len(),
{
    reveal_strlit("audio");
    reveal_strlit("texture");
    reveal_strlit("buffer");
    assert("audio"@.len() == 5 && "texture"@.len() == 7 && "buffer"@.len() == 6);
    if bindings.len() > 0 {
        let d = bindings.drop_last();
        if k < bindings.len() - 1 {
            assert(bindings[bindings.len() - 1].channel != ch);
            assert forall|i: int| k < i < d.len() implies (#[trigger] d[i]).channel != ch by {
                assert(d[i] == bindings[i]);
            }
            if k >= 0 {
                assert(d[k] == bindings[k]);
            }
            law_channels_tell_their_sizes(d, ch, textures, targets, k, j);
            if k < 0 {
                assert forall|i: int| 0 <= i < bindings.len() implies (#[trigger] bindings[i]).channel != ch by {
                }
            } else {
                assert(bindings[k].channel == ch);
            }
        } else {
            assert(bindings.last() == bindings[k]);
            if bindings[k].kind == "texture"@ && 0 <= j < textures.len() && (forall|i: int|
                0 <= i < j ==> (#[trigger] textures[i]).path@ != textures[j].path@) {
                lemma_first_texture(textures, j);
            }
            if bindings[k].kind == "buffer"@ && 0 <= j < targets.len() && (forall|i: int|
                0 <= i < j ==> (#[trigger] targets[i]).name@ != targets[j].name@) {
                lemma_first_target(targets, j);
            }
        }
    }
}

proof fn lemma_first_texture(textures: Seq<NamedTexture>, j: int)
    requires
        0 <= j < textures.len(),
        forall|i: int| 0 <= i < j ==> (#[trigger] textures[i]).path@ != textures[j].path@,
    ensures
        texture_size(textures, textures[j].path@) == Some((textures[j].width, textures[j].height)),
    decreases textures.len(),
{
    if j > 0 {
        let rest = textures.subrange(1, textures.len() as int);
        assert(textures[0].path@ != textures[j].path@);
        assert(rest[j - 1] == textures[j]);
        assert forall|i: int| 0 <= i < j - 1 implies (#[trigger] rest[i]).path@ != rest[j - 1].path@ by {
            assert(rest[i] == textures[i + 1]);
        }
        lemma_first_texture(rest, j - 1);
    }
}

proof fn lemma_first_target(targets: Seq<NamedTarget>, j: int)
    requires
        0 <= j < targets.len(),
        forall|i: int| 0 <= i < j ==> (#[trigger] targets[i]).name@ != targets[j].name@,
    ensures
        target_size(targets, targets[j].name@) == Some(targets[j].data.size),
    decreases targets.len(),
{
    if j > 0 {
        let rest = targets.subrange(1, targets.len() as int);
        assert(targets[0].name@ != targets[j].name@);
        assert(rest[j - 1] == targets[j]);
        assert forall|i: int| 0 <= i < j - 1 implies (#[trigger] rest[i]).name@ != rest[j - 1].name@ by {
            assert(rest[i] == targets[i + 1]);
        }
        lemma_first_target(rest, j - 1);
    }
}

/// What the memory of a renderer is made up of: two images of the surface, four bytes for
/// each pixel of the reduced target and of every image of a layer, eight for each pixel of
/// every texture of a buffer, and a white pixel for each layer.
pub proof fn law_memory_is_counted(r: Renderer, l: LayerPipeline, t: NamedTexture, b: NamedTarget)
    ensures
        r.pipelines@.len() == 0 && r.scene is None ==> r.vram_bytes() == 2 * (r.size.0 * r.size.1 * 4),
        r.scene matches Some(s) ==> r.vram_bytes() == (Renderer { scene: None, ..r }).vram_bytes() + s.0 * s.1 * 4,
        layer_bytes(r.pipelines@.push(l)) == layer_bytes(r.pipelines@) + texture_bytes(l.textures@) + target_bytes(
            l.targets@,
        ) + 4,
        texture_bytes(l.textures@.push(t)) == texture_bytes(l.textures@) + t.width * t.height * 4,
        target_bytes(l.targets@.push(b)) == target_bytes(l.targets@) + b.data.size.0 * b.data.size.1 * 8 * b.data.slots,
        texture_bytes(Seq::empty()) == 0,
        target_bytes(Seq::empty()) == 0,
{
    assert(r.pipelines@.push(l).drop_last() =~= r.pipelines@);
    assert(l.textures@.push(t).drop_last() =~= l.textures@);
    assert(l.targets@.push(b).drop_last() =~= l.targets@);
}

/// A quality is kept between a quarter and one: one in between stays as it is, one below
/// becomes a quarter and one above becomes one; what is no number stays. A number is given
/// by its bits; one with the sign bit is negative.
pub proof fn law_quality_is_clamped(q: Bits32)
    ensures
        0x3e80_0000 <= q.0 <= 0x3f80_0000 ==> clamped_quality(q) == q,
        q.0 < 0x3e80_0000 ==> clamped_quality(q) == Bits32(0x3e80_0000),
        0x8000_0000 <= q.0 <= 0xff80_0000 ==> clamped_quality(q) == Bits32(0x3e80_0000),
        0x3f80_0000 < q.0 <= 0x7f80_0000 ==> clamped_quality(q) == Bits32(0x3f80_0000),
        0x7f80_0000 < q.0 < 0x8000_0000 || q.0 > 0xff80_0000 ==> clamped_quality(q) == q,
{
}

/// Another size changes the sizes of the buffers and nothing else: every layer keeps its
/// passes, images and settings, and every buffer its name and its textures.
pub proof fn law_sizes_change_alone(
    after: Seq<LayerPipeline>,
    before: Seq<LayerPipeline>,
    sizes: Seq<Vec<(u32, u32)>>,
    i: int,
    k: int,
)
    requires
        with_sizes(after, before, sizes),
        0 <= i < before.len(),
        0 <= k < before[i].targets@.len(),
    ensures
        after.len() == before.len(),
        after[i].targets@.len() == before[i].targets@.len(),
        after[i].targets@[k].data.size == sizes[i]@[k],
        after[i].targets@[k].data.slots == before[i].targets@[k].data.slots,
        after[i].targets@[k].name == before[i].targets@[k].name,
        after[i].passes == before[i].passes,
        after[i].textures == before[i].textures,
        after[i].opacity == before[i].opacity,
        after[i].resolution_scale == before[i].resolution_scale,
        after[i].positioning == before[i].positioning,
        after[i].transform == before[i].transform,
        after[i].blend_mode == before[i].blend_mode,
        after[i].audio == before[i].audio,
{
    assert(layer_sized(after[i], before[i], sizes[i]@));
    assert(target_sized(after[i].targets@[k], before[i].targets@[k], sizes[i]@[k]));
}

/// What a frame does besides its draw calls: a renderer without layers clears the screen
/// and draws nothing; the audio textures are filled where a layer listens; a reduced target
/// is used where a reduced size is asked for, and made where there is none of that size;
/// the frame after it has the other parity, and nothing else of the renderer changes.
pub proof fn law_frames_leave_the_rest(
    before: Renderer,
    after: Renderer,
    scaling: Option<(u32, u32)>,
    plan: FramePlan,
    k: int,
)
    requires
        before.wf(),
        drawn(before, after, scaling, plan),
    ensures
        before.pipelines@.len() == 0 ==> plan.clear_only && !plan.audio && !plan.upscale && !plan.make_scene
            && plan.steps@.len() == 0 && after.scene == before.scene,
        before.pipelines@.len() > 0 ==> !plan.clear_only && plan.upscale == (scaling is Some),
        0 <= k < before.pipelines@.len() && before.pipelines@[k].audio ==> plan.audio,
        plan.audio ==> exists|i: int| 0 <= i < before.pipelines@.len() && (#[trigger] before.pipelines@[i]).audio,
        plan.upscale ==> after.scene == scaling && plan.make_scene == (before.scene != scaling),
        !plan.upscale ==> after.scene == before.scene && !plan.make_scene,
        after.frame_parity != before.frame_parity && after.frame_parity <= 1,
        after.pipelines == before.pipelines,
        after.size == before.size,
        after.global_resolution == before.global_resolution,
        after.monitor_offset == before.monitor_offset,
{
}

/// A buffer pass that reads its own buffer reads the other texture than the one it writes,
/// and what it reads is what it wrote in the frame before.
pub proof fn law_own_buffer_is_read_a_frame_later(layer: LayerPipeline, pass: int, parity: int)
    requires
        parity == 0 || parity == 1,
        0 <= pass < layer.passes@.len(),
        forall|p: int| 0 <= p < pass ==> (#[trigger] layer.passes@[p])@ != layer.passes@[pass]@,
    ensures
        pipeline::read_slot(text::texts(layer.passes@), layer.passes@[pass]@, pass, parity) == parity,
        pipeline::read_slot(text::texts(layer.passes@), layer.passes@[pass]@, pass, parity) != 1 - parity,
        pipeline::read_slot(text::texts(layer.passes@), layer.passes@[pass]@, pass, 1 - parity) == 1 - parity,
{
    let names = text::texts(layer.passes@);
    assert forall|p: int| 0 <= p < pass implies names[p] != names[pass] by {
        assert(layer.passes@[p]@ != layer.passes@[pass]@);
    }
    text::lemma_pos(names, names[pass], pass);
}

/// A change of one layer leaves the other layers, the size and the place as they were.
pub proof fn law_layers_change_alone(
    after: Renderer,
    before: Renderer,
    index: int,
    layer: LayerPipeline,
    other: int,
)
    requires
        after.layer_changed(before, index, layer),
        0 <= index < before.pipelines@.len(),
        0 <= other < before.pipelines@.len(),
    ensures
        after.pipelines@.len() == before.pipelines@.len(),
        after.pipelines@[index] == layer,
        other != index ==> after.pipelines@[other] == before.pipelines@[other],
        after.size == before.size,
        after.global_resolution == before.global_resolution,
        after.monitor_offset == before.monitor_offset,
        after.frame_parity == before.frame_parity,
        after.scene == before.scene,
{
}

/// The parity of a frame is even or odd, and every buffer has one texture or two.
pub proof fn law_frames_are_even_or_odd(r: Renderer, i: int, k: int)
    requires
        r.wf(),
        0 <= i < r.pipelines@.len(),
        0 <= k < r.pipelines@[i].targets@.len(),
    ensures
        r.frame_parity == 0 || r.frame_parity == 1,
        r.pipelines@[i].targets@[k].data.slots == 1 || r.pipelines@[i].targets@[k].data.slots == 2,
{
}

} // verus!
