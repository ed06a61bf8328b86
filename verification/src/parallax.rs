//! The Parallax Studio: which models are needed and downloaded, and how a preview is
//! built and kept.
use vstd::prelude::*;
use crate::controller;
use crate::controller::{slugify, unique_dir};
use crate::depth;
use crate::depth::{lama_model, model_by_id, preset_upscaler, u2net_model, ModelChoice, Preset, Registry};
use crate::paths;
use crate::paths::{join_opt, Location};
use crate::text;
use crate::text::{
    chars_of, decimal_of, find_or_end, list_has, str_eq, str_starts_with, string_of, sub_chars, trim_chars, trim_str,
};

verus! {

broadcast use vstd::string::group_string_axioms;

// ---------------------------------------------------------------------------
// Where models are
// ---------------------------------------------------------------------------

/// How the program was built.
#[derive(Clone, Copy, PartialEq, Eq, Structural)]
pub struct Build {
    /// Whether it can run models.
    pub depth_onnx: bool,
}

/// Whether this build can run models.
pub fn onnx_available(build: Build) -> (r: bool)
    ensures
        r == build.depth_onnx,
{
    build.depth_onnx
}

/// The folder of the models, inside the data folder of the system.
pub fn models_dir(data_dir: &Option<Location>) -> (r: Option<Location>)
    ensures
        paths::opt_view(r) == controller::inner(controller::user_dir(paths::opt_view(*data_dir)), "models"@),
{
    join_opt(&controller::user_data_dir(data_dir), "models")
}

/// The folder of the preview, inside the data folder of the system.
pub fn preview_dir(data_dir: &Option<Location>) -> (r: Option<Location>)
    ensures
        paths::opt_view(r) == controller::inner(
            controller::user_dir(paths::opt_view(*data_dir)),
            "parallax-preview"@,
        ),
{
    join_opt(&controller::user_data_dir(data_dir), "parallax-preview")
}

/// The folder of a model, inside the folder of the models.
pub fn model_dir(models: &Option<Location>, choice: &ModelChoice) -> (r: Option<Location>)
    ensures
        paths::opt_view(r) == controller::inner(paths::opt_view(*models), choice.id@),
{
    join_opt(models, choice.id.as_str())
}

/// The file of a model that is loaded.
pub fn model_file_path(models: &Option<Location>, choice: &ModelChoice) -> (r: Option<Location>)
    ensures
        paths::opt_view(r) == controller::inner(
            controller::inner(paths::opt_view(*models), choice.id@),
            depth::primary(choice@),
        ),
{
    join_opt(&model_dir(models, choice), choice.primary_file())
}

/// The files in the folder of a model.
pub struct ModelDir {
    pub id: String,
    pub files: Vec<String>,
}

/// What is in the folder of the models.
pub struct Downloads {
    /// Whether there is such a folder.
    pub resolved: bool,
    pub dirs: Vec<ModelDir>,
}

/// Whether a folder of the models has the file `name` of the model `id`.
pub open spec fn has_file(d: Downloads, id: Seq<char>, name: Seq<char>) -> bool {
    exists|i: int|
        0 <= i < d.dirs@.len() && (#[trigger] d.dirs@[i]).id@ == id && text::texts(d.dirs@[i].files@).contains(name)
}

/// Whether a model is downloaded: all its files are there.
pub open spec fn downloaded(d: Downloads, m: depth::ModelText) -> bool {
    &&& d.resolved
    &&& forall|k: int| 0 <= k < m.files.len() ==> has_file(d, m.id, (#[trigger] m.files[k]).name)
}

fn file_present(d: &Downloads, id: &str, name: &str) -> (r: bool)
    ensures
        r == has_file(*d, id@, name@),
{
    let mut i: usize = 0;
    while i < d.dirs.len()
        invariant
            i <= d.dirs.len(),
            forall|j: int|
                0 <= j < i ==> !((#[trigger] d.dirs@[j]).id@ == id@ && text::texts(d.dirs@[j].files@).contains(
                    name@,
                )),
        decreases d.dirs.len() - i,
    {
        if str_eq(d.dirs[i].id.as_str(), id) && list_has(&d.dirs[i].files, name) {
            return true;
        }
        i = i + 1;
    }
    false
}

/// Whether a model is downloaded: all its files are there.
pub fn is_model_downloaded(d: &Downloads, choice: &ModelChoice) -> (r: bool)
    ensures
        r == downloaded(*d, choice@),
{
    if !d.resolved {
        return false;
    }
    let mut i: usize = 0;
    while i < choice.files.len()
        invariant
            i <= choice.files.len(),
            d.resolved,
            forall|k: int| 0 <= k < i ==> has_file(*d, choice@.id, (#[trigger] choice@.files[k]).name),
        decreases choice.files.len() - i,
    {
        assert(choice@.files[i as int].name == choice.files@[i as int].name@);
        if !file_present(d, choice.id.as_str(), choice.files[i].name.as_str()) {
            return false;
        }
        i = i + 1;
    }
    true
}

// ---------------------------------------------------------------------------
// Labels
// ---------------------------------------------------------------------------

/// Where the part of a model's name ends that is shown.
pub open spec fn label_end(s: Seq<char>) -> int {
    let a = text::text_pos(s, " · "@);
    let b = text::text_pos(s, " ("@);
    if a < b {
        a
    } else {
        b
    }
}

/// The part of a model's name that is shown: without precision, size and licence.
pub open spec fn label_of(name: Seq<char>) -> Seq<char> {
    let n = text::trim(name);
    text::trim(n.subrange(0, label_end(n)))
}

/// The part of a model's name that is shown.
pub fn clean_label(name: &str) -> (r: String)
    ensures
        r@ == label_of(name@),
{
    let n = trim_chars(&chars_of(name));
    let a: usize = find_or_end(&n, &chars_of(" · "));
    let b: usize = find_or_end(&n, &chars_of(" ("));
    let end: usize = if a < b { a } else { b };
    string_of(&trim_chars(&sub_chars(&n, 0, end)))
}

/// The labels of models.
pub open spec fn labels(ms: Seq<depth::ModelText>) -> Seq<Seq<char>> {
    Seq::new(ms.len(), |i: int| label_of(ms[i].name))
}

fn labels_of(models: &Vec<ModelChoice>) -> (r: Vec<String>)
    ensures
        text::texts(r@) == labels(depth::model_texts(models@)),
{
    let mut r: Vec<String> = Vec::new();
    let mut i: usize = 0;
    while i < models.len()
        invariant
            i <= models.len(),
            r@.len() == i,
            forall|j: int| 0 <= j < i ==> (#[trigger] r@[j])@ == label_of(models@[j].name@),
        decreases models.len() - i,
    {
        r.push(clean_label(models[i].name.as_str()));
        i = i + 1;
    }
    assert(text::texts(r@) =~= labels(depth::model_texts(models@)));
    r
}

/// The first model with the given label.
pub open spec fn with_label(ms: Seq<depth::ModelText>, label: Seq<char>) -> Option<depth::ModelText>
    decreases ms.len(),
{
    if ms.len() == 0 {
        None
    } else if label_of(ms[0].name) == label {
        Some(ms[0])
    } else {
        with_label(ms.subrange(1, ms.len() as int), label)
    }
}

fn find_label(models: &Vec<ModelChoice>, label: &str) -> (r: Option<ModelChoice>)
    ensures
        depth::opt_model(r) == with_label(depth::model_texts(models@), label@),
{
    let ghost all = depth::model_texts(models@);
    let mut i: usize = 0;
    assert(all.subrange(0, all.len() as int) =~= all);
    while i < models.len()
        invariant
            i <= models.len(),
            all == depth::model_texts(models@),
            with_label(all, label@) == with_label(all.subrange(i as int, all.len() as int), label@),
        decreases models.len() - i,
    {
        let ghost rest = all.subrange(i as int, all.len() as int);
        assert(rest[0] == models@[i as int]@);
        assert(rest.subrange(1, rest.len() as int) =~= all.subrange(i + 1, all.len() as int));
        if str_eq(clean_label(models[i].name.as_str()).as_str(), label) {
            return Some(models[i].copy());
        }
        i = i + 1;
    }
    None
}

/// The depth models that are offered; a build that cannot run models offers to work
/// without one.
pub fn model_options(build: Build, registry: &Registry) -> (r: Vec<String>)
    ensures
        text::texts(r@) == (if build.depth_onnx {
            labels(depth::model_texts(registry.depth@))
        } else {
            seq!["Fast (no model)"@]
        }),
{
    if onnx_available(build) {
        labels_of(&registry.depth)
    } else {
        let mut r: Vec<String> = Vec::new();
        r.push("Fast (no model)".to_owned());
        assert(text::texts(r@) =~= seq!["Fast (no model)"@]);
        r
    }
}

/// The depth model with the given label.
pub fn tier_for_label(registry: &Registry, label: &str) -> (r: Option<ModelChoice>)
    ensures
        depth::opt_model(r) == with_label(depth::model_texts(registry.depth@), label@),
{
    find_label(&registry.depth, label)
}

/// The upscalers that are offered, behind the choice of none.
pub fn upscaler_options(registry: &Registry) -> (r: Vec<String>)
    ensures
        text::texts(r@) == seq!["Off"@] + labels(depth::model_texts(registry.upscale@)),
{
    let mut r: Vec<String> = Vec::new();
    r.push("Off".to_owned());
    assert(text::texts(r@) =~= seq!["Off"@]);
    let ghost before = r@;
    let mut rest = labels_of(&registry.upscale);
    let ghost tail = rest@;
    r.append(&mut rest);
    assert(text::texts(r@) =~= text::texts(before) + text::texts(tail));
    r
}

/// The upscaler with the given label.
pub fn upscaler_choice_for_label(registry: &Registry, label: &str) -> (r: Option<ModelChoice>)
    ensures
        depth::opt_model(r) == with_label(depth::model_texts(registry.upscale@), label@),
{
    find_label(&registry.upscale, label)
}

/// Each upscaler that is offered is found by its label: the label gives a model of the
/// registry that has it, and the model itself where no other has the same label. The
/// choice of none gives no model, where no upscaler is labelled so.
pub proof fn law_offered_upscalers_are_found(ms: Seq<depth::ModelText>, k: int)
    requires
        0 <= k < ms.len(),
    ensures
        ({
            let options = seq!["Off"@] + labels(ms);
            &&& options.len() == ms.len() + 1
            &&& options[0] == "Off"@
            &&& with_label(ms, options[k + 1]) matches Some(m) && ms.contains(m) && label_of(m.name) == options[k + 1]
            &&& (forall|j: int| 0 <= j < ms.len() && j != k ==> #[trigger] labels(ms)[j] != labels(ms)[k])
                ==> with_label(ms, options[k + 1]) == Some(ms[k])
            &&& !labels(ms).contains("Off"@) ==> with_label(ms, "Off"@) is None
        }),
{
    let label = label_of(ms[k].name);
    assert((seq!["Off"@] + labels(ms))[k + 1] == label);
    lemma_label_is_found(ms, label, k);
    if !labels(ms).contains("Off"@) {
        assert forall|j: int| 0 <= j < ms.len() implies label_of((#[trigger] ms[j]).name) != "Off"@ by {
            assert(labels(ms)[j] != "Off"@);
        }
        lemma_label_is_missing(ms, "Off"@);
    }
    if forall|j: int| 0 <= j < ms.len() && j != k ==> #[trigger] labels(ms)[j] != labels(ms)[k] {
        let m = with_label(ms, label)->0;
        let j = choose|j: int| 0 <= j < ms.len() && ms[j] == m;
        assert(labels(ms)[j] == labels(ms)[k]);
    }
}

proof fn lemma_label_is_found(ms: Seq<depth::ModelText>, label: Seq<char>, k: int)
    requires
        0 <= k < ms.len(),
        label_of(ms[k].name) == label,
    ensures
        with_label(ms, label) matches Some(m) && ms.contains(m) && label_of(m.name) == label,
    decreases ms.len(),
{
    if label_of(ms[0].name) == label {
        assert(ms.contains(ms[0]));
    } else {
        let rest = ms.subrange(1, ms.len() as int);
        assert(rest[k - 1] == ms[k]);
        lemma_label_is_found(rest, label, k - 1);
        let m = with_label(rest, label)->0;
        let j = choose|j: int| 0 <= j < rest.len() && rest[j] == m;
        assert(ms[j + 1] == m);
    }
}

proof fn lemma_label_is_missing(ms: Seq<depth::ModelText>, label: Seq<char>)
    requires
        forall|j: int| 0 <= j < ms.len() ==> label_of((#[trigger] ms[j]).name) != label,
    ensures
        with_label(ms, label) is None,
    decreases ms.len(),
{
    if ms.len() > 0 {
        let rest = ms.subrange(1, ms.len() as int);
        assert forall|j: int| 0 <= j < rest.len() implies label_of((#[trigger] rest[j]).name) != label by {
            assert(rest[j] == ms[j + 1]);
        }
        lemma_label_is_missing(rest, label);
    }
}

/// The segmentation models that are offered.
pub fn seg_model_options(registry: &Registry) -> (r: Vec<String>)
    ensures
        text::texts(r@) == labels(depth::model_texts(registry.segment@)),
{
    labels_of(&registry.segment)
}

/// The segmentation model with the given label, else the first, else the default one.
pub open spec fn seg_choice(r: Registry, label: Seq<char>) -> Option<depth::ModelText> {
    match with_label(depth::model_texts(r.segment@), label) {
        Some(m) => Some(m),
        None => if r.segment@.len() > 0 {
            Some(r.segment@[0]@)
        } else {
            depth::with_id(r.all(), "u2net"@)
        },
    }
}

/// The segmentation model with the given label, else the first, else the default one.
pub fn seg_choice_for_label(registry: &Registry, label: &str) -> (r: ModelChoice)
    requires
        registry.segment@.len() > 0 || depth::with_id(registry.all(), "u2net"@) is Some,
    ensures
        seg_choice(*registry, label@) == Some(r@),
{
    match find_label(&registry.segment, label) {
        Some(m) => m,
        None => if registry.segment.len() > 0 {
            registry.segment[0].copy()
        } else {
            assert(depth::model_texts(registry.segment@) =~= Seq::empty());
            u2net_model(registry)
        },
    }
}

/// The styles of layered parallax.
pub fn parallax_style_options() -> (r: Vec<String>)
    ensures
        text::texts(r@) == seq!["Coherent 3D (grounded)"@, "Billboard (flat layers)"@],
{
    let mut r: Vec<String> = Vec::new();
    r.push("Coherent 3D (grounded)".to_owned());
    r.push("Billboard (flat layers)".to_owned());
    assert(text::texts(r@) =~= seq!["Coherent 3D (grounded)"@, "Billboard (flat layers)"@]);
    r
}

/// Whether a style is that of flat layers.
pub fn style_is_billboard(label: &str) -> (r: bool)
    ensures
        r == text::begins_with(label@, "Billboard"@),
{
    str_starts_with(label, "Billboard")
}

// ---------------------------------------------------------------------------
// Presets
// ---------------------------------------------------------------------------

/// The names of presets.
pub open spec fn preset_names(ps: Seq<Preset>) -> Seq<Seq<char>> {
    Seq::new(ps.len(), |i: int| ps[i].name@)
}

/// The presets that are offered.
pub fn preset_options(presets: &Vec<Preset>) -> (r: Vec<String>)
    ensures
        text::texts(r@) == preset_names(presets@),
{
    let mut r: Vec<String> = Vec::new();
    let mut i: usize = 0;
    while i < presets.len()
        invariant
            i <= presets.len(),
            r@.len() == i,
            forall|j: int| 0 <= j < i ==> (#[trigger] r@[j])@ == presets@[j].name@,
        decreases presets.len() - i,
    {
        r.push(presets[i].name.clone());
        i = i + 1;
    }
    assert(text::texts(r@) =~= preset_names(presets@));
    r
}

/// Whether a preset is the one with the given name, else the first.
pub open spec fn is_preset(ps: Seq<Preset>, label: Seq<char>, p: Preset) -> bool {
    match text::pos(preset_names(ps), label) {
        Some(i) => p == ps[i],
        None => p == ps[0],
    }
}

/// The preset with the given name, else the first.
pub fn preset_for_label<'a>(presets: &'a Vec<Preset>, label: &str) -> (r: &'a Preset)
    requires
        presets@.len() > 0,
    ensures
        is_preset(presets@, label@, *r),
{
    let names = preset_options(presets);
    match text::position_of(&names, label) {
        Some(i) => &presets[i],
        None => &presets[0],
    }
}

/// A list with one more model, if there is one.
pub open spec fn with_model(s: Seq<depth::ModelText>, m: Option<depth::ModelText>) -> Seq<depth::ModelText> {
    match m {
        Some(x) => s.push(x),
        None => s,
    }
}

fn push_model(v: &mut Vec<ModelChoice>, m: ModelChoice)
    ensures
        depth::model_texts(final(v)@) == depth::model_texts(old(v)@).push(m@),
{
    let ghost mv = m@;
    v.push(m);
    assert(depth::model_texts(v@) =~= depth::model_texts(old(v)@).push(mv));
}

/// The models that a preset needs, in the order in which they are downloaded: depth,
/// segmentation, inpainting and upscaling.
pub open spec fn preset_models(r: Registry, p: Preset) -> Seq<depth::ModelText> {
    with_model(
        with_model(
            with_model(with_model(Seq::empty(), depth::with_id(r.all(), p.depth@)), depth::with_id(r.all(), p.segment@)),
            depth::with_id(r.all(), "lama"@),
        ),
        depth::upscaler_of(r, p),
    )
}

/// The models that a preset needs.
pub fn preset_required_models(registry: &Registry, p: &Preset) -> (v: Vec<ModelChoice>)
    requires
        depth::with_id(registry.all(), "lama"@) is Some,
    ensures
        depth::model_texts(v@) == preset_models(*registry, *p),
{
    let mut v: Vec<ModelChoice> = Vec::new();
    assert(depth::model_texts(v@) =~= Seq::empty());
    if let Some(m) = model_by_id(registry, p.depth.as_str()) {
        push_model(&mut v, m.copy());
    }
    if let Some(m) = model_by_id(registry, p.segment.as_str()) {
        push_model(&mut v, m.copy());
    }
    push_model(&mut v, lama_model(registry));
    if let Some(m) = preset_upscaler(registry, p) {
        push_model(&mut v, m.copy());
    }
    v
}

/// The models among those given that are not downloaded.
pub open spec fn not_downloaded(d: Downloads, ms: Seq<depth::ModelText>) -> Seq<depth::ModelText>
    decreases ms.len(),
{
    if ms.len() == 0 {
        Seq::empty()
    } else if downloaded(d, ms.last()) {
        not_downloaded(d, ms.drop_last())
    } else {
        not_downloaded(d, ms.drop_last()).push(ms.last())
    }
}

/// The models among those given that are not downloaded.
pub fn missing_models(d: &Downloads, models: &Vec<ModelChoice>) -> (v: Vec<ModelChoice>)
    ensures
        depth::model_texts(v@) == not_downloaded(*d, depth::model_texts(models@)),
{
    let ghost all = depth::model_texts(models@);
    let mut v: Vec<ModelChoice> = Vec::new();
    let mut i: usize = 0;
    assert(all.subrange(0, 0) =~= Seq::empty());
    assert(depth::model_texts(v@) =~= Seq::empty());
    while i < models.len()
        invariant
            i <= models.len(),
            all == depth::model_texts(models@),
            depth::model_texts(v@) == not_downloaded(*d, all.subrange(0, i as int)),
        decreases models.len() - i,
    {
        assert(all.subrange(0, i + 1).drop_last() =~= all.subrange(0, i as int));
        assert(all.subrange(0, i + 1).last() == models@[i as int]@);
        if !is_model_downloaded(d, &models[i]) {
            push_model(&mut v, models[i].copy());
        }
        i = i + 1;
    }
    assert(all.subrange(0, i as int) =~= all);
    v
}

/// What the user chose in the Studio.
pub struct StudioChoice {
    /// `automatic` or `manual`.
    pub mode: String,
    pub preset: String,
    pub model: String,
    pub seg: String,
    pub upscaler: String,
    pub style: String,
}

/// The models that a choice needs.
pub open spec fn needed_models(r: Registry, ps: Seq<Preset>, c: StudioChoice, needed: Seq<depth::ModelText>) -> bool {
    if c.mode@ == "automatic"@ {
        exists|p: Preset| #[trigger] is_preset(ps, c.preset@, p) && needed == preset_models(r, p)
    } else {
        needed == with_model(
            with_model(
                with_model(
                    with_model(Seq::empty(), with_label(depth::model_texts(r.depth@), c.model@)),
                    seg_choice(r, c.seg@),
                ),
                depth::with_id(r.all(), "lama"@),
            ),
            with_label(depth::model_texts(r.upscale@), c.upscaler@),
        )
    }
}

/// The models that the choice of the user needs: those of the preset, or those chosen
/// one by one.
pub fn parallax_required_models(registry: &Registry, presets: &Vec<Preset>, c: &StudioChoice) -> (v: Vec<ModelChoice>)
    requires
        presets@.len() > 0,
        depth::with_id(registry.all(), "lama"@) is Some,
        registry.segment@.len() > 0 || depth::with_id(registry.all(), "u2net"@) is Some,
    ensures
        needed_models(*registry, presets@, *c, depth::model_texts(v@)),
{
    if str_eq(c.mode.as_str(), "automatic") {
        let p = preset_for_label(presets, c.preset.as_str());
        let v = preset_required_models(registry, p);
        assert(is_preset(presets@, c.preset@, *p));
        v
    } else {
        let mut v: Vec<ModelChoice> = Vec::new();
        assert(depth::model_texts(v@) =~= Seq::empty());
        if let Some(m) = tier_for_label(registry, c.model.as_str()) {
            push_model(&mut v, m);
        }
        push_model(&mut v, seg_choice_for_label(registry, c.seg.as_str()));
        push_model(&mut v, lama_model(registry));
        if let Some(m) = upscaler_choice_for_label(registry, c.upscaler.as_str()) {
            push_model(&mut v, m);
        }
        v
    }
}

/// Whether the user has to download models before a wallpaper can be made.
pub fn download_needed(build: Build, missing: &Vec<ModelChoice>) -> (r: bool)
    ensures
        r == (build.depth_onnx && missing@.len() > 0),
{
    onnx_available(build) && missing.len() > 0
}

/// What a wallpaper is made with.
pub struct RenderChoice {
    pub model: Option<ModelChoice>,
    pub seg: ModelChoice,
    pub upscaler: Option<ModelChoice>,
    pub billboard: bool,
    /// Whether the tuning is the default one, rather than the user's.
    pub default_tuning: bool,
}

/// The segmentation model of a preset, else the default one.
pub open spec fn preset_seg(r: Registry, p: Preset) -> Option<depth::ModelText> {
    match depth::with_id(r.all(), p.segment@) {
        Some(m) => Some(m),
        None => depth::with_id(r.all(), "u2net"@),
    }
}

/// Whether a wallpaper is made as the user chose: by a preset with the default tuning,
/// or with models and a tuning of their own.
pub open spec fn renders_choice(r: Registry, ps: Seq<Preset>, c: StudioChoice, x: RenderChoice) -> bool {
    &&& x.billboard == text::begins_with(c.style@, "Billboard"@)
    &&& x.default_tuning == (c.mode@ == "automatic"@)
    &&& if c.mode@ == "automatic"@ {
        exists|p: Preset| #[trigger]
            is_preset(ps, c.preset@, p) && depth::opt_model(x.model) == depth::with_id(r.all(), p.depth@)
                && preset_seg(r, p) == Some(x.seg@) && depth::opt_model(x.upscaler) == depth::upscaler_of(r, p)
    } else {
        &&& depth::opt_model(x.model) == with_label(depth::model_texts(r.depth@), c.model@)
        &&& seg_choice(r, c.seg@) == Some(x.seg@)
        &&& depth::opt_model(x.upscaler) == with_label(depth::model_texts(r.upscale@), c.upscaler@)
    }
}

fn copy_found(m: Option<&ModelChoice>) -> (r: Option<ModelChoice>)
    ensures
        match m {
            Some(x) => depth::opt_model(r) == Some(x@),
            None => r is None,
        },
{
    match m {
        Some(x) => Some(x.copy()),
        None => None,
    }
}

/// What a wallpaper is made with.
pub fn render_choice(registry: &Registry, presets: &Vec<Preset>, c: &StudioChoice) -> (x: RenderChoice)
    requires
        presets@.len() > 0,
        depth::with_id(registry.all(), "u2net"@) is Some,
    ensures
        renders_choice(*registry, presets@, *c, x),
{
    let billboard = style_is_billboard(c.style.as_str());
    if str_eq(c.mode.as_str(), "automatic") {
        let p = preset_for_label(presets, c.preset.as_str());
        let seg = match model_by_id(registry, p.segment.as_str()) {
            Some(m) => m.copy(),
            None => u2net_model(registry),
        };
        let model = copy_found(model_by_id(registry, p.depth.as_str()));
        let upscaler = copy_found(preset_upscaler(registry, p));
        let x = RenderChoice { model, seg, upscaler, billboard, default_tuning: true };
        assert(is_preset(presets@, c.preset@, *p));
        x
    } else {
        RenderChoice {
            model: tier_for_label(registry, c.model.as_str()),
            seg: seg_choice_for_label(registry, c.seg.as_str()),
            upscaler: upscaler_choice_for_label(registry, c.upscaler.as_str()),
            billboard,
            default_tuning: false,
        }
    }
}

// ---------------------------------------------------------------------------
// Downloading
// ---------------------------------------------------------------------------

/// The sum of file sizes.
pub open spec fn sum_of(sizes: Seq<u64>) -> int
    decreases sizes.len(),
{
    if sizes.len() == 0 {
        0
    } else {
        sum_of(sizes.drop_last()) + sizes.last()
    }
}

proof fn lemma_sum_grows(sizes: Seq<u64>, k: int)
    requires
        0 <= k <= sizes.len(),
    ensures
        0 <= sum_of(sizes.subrange(0, k)) <= sum_of(sizes),
    decreases sizes.len(),
{
    if k == sizes.len() {
        assert(sizes.subrange(0, k) =~= sizes);
        if k > 0 {
            lemma_sum_grows(sizes.drop_last(), k - 1);
            assert(sizes.drop_last().subrange(0, k - 1) =~= sizes.drop_last());
        }
    } else {
        lemma_sum_grows(sizes.drop_last(), k);
        assert(sizes.drop_last().subrange(0, k) =~= sizes.subrange(0, k));
    }
}

/// Which files of a model are downloaded, by their places: those that are not there yet,
/// in their order.
pub fn files_to_fetch(present: &Vec<bool>) -> (v: Vec<usize>)
    ensures
        forall|k: int| 0 <= k < v@.len() ==> (#[trigger] v@[k]) < present@.len() && !present@[v@[k] as int],
        forall|j: int, k: int| 0 <= j < k < v@.len() ==> (#[trigger] v@[j]) < (#[trigger] v@[k]),
        forall|i: int| 0 <= i < present@.len() && !(#[trigger] present@[i]) ==> v@.contains(i as usize),
{
    let mut v: Vec<usize> = Vec::new();
    let mut i: usize = 0;
    while i < present.len()
        invariant
            i <= present.len(),
            forall|k: int| 0 <= k < v@.len() ==> (#[trigger] v@[k]) < i && !present@[v@[k] as int],
            forall|j: int, k: int| 0 <= j < k < v@.len() ==> (#[trigger] v@[j]) < (#[trigger] v@[k]),
            forall|j: int| 0 <= j < i && !(#[trigger] present@[j]) ==> v@.contains(j as usize),
        decreases present.len() - i,
    {
        if !present[i] {
            let ghost before = v@;
            v.push(i);
            assert(v@[before.len() as int] == i);
            assert forall|j: int| 0 <= j < i && !(#[trigger] present@[j]) implies v@.contains(j as usize) by {
                let k = choose|k: int| 0 <= k < before.len() && before[k] == j as usize;
                assert(v@[k] == j as usize);
            }
        }
        i = i + 1;
    }
    v
}

/// The course of a download of several files.
#[derive(Clone, Copy, PartialEq, Eq, Structural)]
pub struct DownloadProgress {
    /// The bytes of the files that are finished.
    pub done: u64,
    /// All bytes, at least one.
    pub total: u64,
}

impl DownloadProgress {
    /// A download of files of the given sizes.
    pub fn new(sizes: &Vec<u64>) -> (p: DownloadProgress)
        requires
            sum_of(sizes@) <= u64::MAX,
        ensures
            p.done == 0,
            p.total == (if sum_of(sizes@) == 0 {
                1
            } else {
                sum_of(sizes@)
            }),
    {
        let mut total: u64 = 0;
        let mut i: usize = 0;
        assert(sizes@.subrange(0, 0) =~= Seq::empty());
        while i < sizes.len()
            invariant
                i <= sizes.len(),
                sum_of(sizes@) <= u64::MAX,
                total == sum_of(sizes@.subrange(0, i as int)),
            decreases sizes.len() - i,
        {
            proof {
                lemma_sum_grows(sizes@, i + 1);
            }
            assert(sizes@.subrange(0, i + 1).drop_last() =~= sizes@.subrange(0, i as int));
            total = total + sizes[i];
            i = i + 1;
        }
        assert(sizes@.subrange(0, i as int) =~= sizes@);
        DownloadProgress { done: 0, total: if total == 0 { 1 } else { total } }
    }

    /// A file is finished, or was there already; tells how many bytes are done.
    pub fn file_done(&mut self, bytes: u64) -> (r: u64)
        requires
            old(self).done + bytes <= u64::MAX,
        ensures
            final(self).done == old(self).done + bytes,
            final(self).total == old(self).total,
            r == final(self).done,
    {
        self.done = self.done + bytes;
        self.done
    }

    /// How many bytes are done when `bytes` of the current file have come.
    pub fn received(&self, bytes: u64) -> (r: u64)
        requires
            self.done + bytes <= u64::MAX,
        ensures
            r == self.done + bytes,
    {
        self.done + bytes
    }
}

/// How much of a download is done, in percent: none where nothing is known of its size,
/// and never more than all.
pub open spec fn percent_of(done: nat, all: nat) -> nat {
    if all == 0 {
        0
    } else if done * 100 / all > 100 {
        100
    } else {
        done * 100 / all
    }
}

/// How much of a download is done, in percent.
pub fn percent(done: u64, all: u64) -> (r: u8)
    ensures
        r == percent_of(done as nat, all as nat),
{
    if all == 0 {
        return 0;
    }
    let p: u128 = done as u128 * 100 / all as u128;
    if p > 100 {
        100
    } else {
        p as u8
    }
}

/// A model in the queue of downloads.
pub struct QueueItem {
    pub model: ModelChoice,
    pub label: String,
    /// Its number in the queue, from one.
    pub number: usize,
    pub total: usize,
}

/// What the queue is told while the downloads are performed.
pub enum QueueEvent {
    /// The downloads may begin.
    Begin,
    /// Of the model that is being downloaded, `done` of `all` bytes are there.
    Received { done: u64, all: u64 },
    /// The model that is being downloaded is there.
    Finished,
    /// The model that is being downloaded cannot be had.
    Failed(String),
}

/// A `QueueEvent` as mathematical values.
pub enum EventText {
    Begin,
    Received(nat, nat),
    Finished,
    Failed(Seq<char>),
}

impl View for QueueEvent {
    type V = EventText;

    open spec fn view(&self) -> EventText {
        match *self {
            QueueEvent::Begin => EventText::Begin,
            QueueEvent::Received { done, all } => EventText::Received(done as nat, all as nat),
            QueueEvent::Finished => EventText::Finished,
            QueueEvent::Failed(e) => EventText::Failed(e@),
        }
    }
}

/// How far the queue is.
pub enum QueuePhase {
    Ready,
    Fetching,
    Done,
    Failed(String),
}

/// A `QueuePhase` as mathematical values.
pub enum PhaseText {
    Ready,
    Fetching,
    Done,
    Failed(Seq<char>),
}

impl View for QueuePhase {
    type V = PhaseText;

    open spec fn view(&self) -> PhaseText {
        match *self {
            QueuePhase::Ready => PhaseText::Ready,
            QueuePhase::Fetching => PhaseText::Fetching,
            QueuePhase::Done => PhaseText::Done,
            QueuePhase::Failed(e) => PhaseText::Failed(e@),
        }
    }
}

/// What the user is shown of the queue.
pub struct QueueProgress {
    /// The number of the model in the queue, from one.
    pub number: usize,
    pub total: usize,
    pub label: String,
    pub size_mb: u32,
    pub percent: u8,
}

/// A `QueueProgress` as mathematical values.
pub struct ProgressText {
    pub number: int,
    pub total: int,
    pub label: Seq<char>,
    pub size_mb: int,
    pub percent: int,
}

impl View for QueueProgress {
    type V = ProgressText;

    open spec fn view(&self) -> ProgressText {
        ProgressText {
            number: self.number as int,
            total: self.total as int,
            label: self.label@,
            size_mb: self.size_mb as int,
            percent: self.percent as int,
        }
    }
}

/// The texts of what is shown.
pub open spec fn progress_texts(v: Seq<QueueProgress>) -> Seq<ProgressText> {
    Seq::new(v.len(), |i: int| v[i]@)
}

/// What follows an event: what is shown, in this order, and the model whose download is
/// begun then.
pub struct QueueTurn {
    pub shown: Vec<QueueProgress>,
    pub fetch: Option<usize>,
}

/// Models that are downloaded one after the other.
pub struct DownloadQueue {
    pub items: Vec<QueueItem>,
    /// The place of the model that is being downloaded: those before it are there.
    pub at: usize,
    pub phase: QueuePhase,
}

/// A `DownloadQueue` as mathematical values.
pub struct QueueText {
    pub models: Seq<depth::ModelText>,
    pub at: int,
    pub phase: PhaseText,
}

/// A queue before anything is downloaded.
pub open spec fn fresh_queue(models: Seq<depth::ModelText>) -> QueueText {
    QueueText { models, at: 0, phase: PhaseText::Ready }
}

/// What is shown of the model at `at` when `percent` of it is there.
pub open spec fn progress_at(models: Seq<depth::ModelText>, at: int, percent: int) -> ProgressText {
    ProgressText {
        number: at + 1,
        total: models.len() as int,
        label: label_of(models[at].name),
        size_mb: models[at].size_mb as int,
        percent,
    }
}

/// The queue after an event. The first failure ends it, and so does the last model.
pub open spec fn queue_after(q: QueueText, e: EventText) -> QueueText {
    match (q.phase, e) {
        (PhaseText::Ready, EventText::Begin) => QueueText {
            phase: if q.models.len() == 0 {
                PhaseText::Done
            } else {
                PhaseText::Fetching
            },
            ..q
        },
        (PhaseText::Fetching, EventText::Finished) => QueueText {
            at: q.at + 1,
            phase: if q.at + 1 == q.models.len() {
                PhaseText::Done
            } else {
                PhaseText::Fetching
            },
            ..q
        },
        (PhaseText::Fetching, EventText::Failed(why)) => QueueText { phase: PhaseText::Failed(why), ..q },
        _ => q,
    }
}

/// What is shown upon an event: a model begins with nothing done, and ends with all.
pub open spec fn queue_shows(q: QueueText, e: EventText) -> Seq<ProgressText> {
    match (q.phase, e) {
        (PhaseText::Ready, EventText::Begin) => if q.models.len() == 0 {
            Seq::empty()
        } else {
            seq![progress_at(q.models, q.at, 0)]
        },
        (PhaseText::Fetching, EventText::Received(done, all)) => seq![
            progress_at(q.models, q.at, percent_of(done, all) as int),
        ],
        (PhaseText::Fetching, EventText::Finished) => if q.at + 1 == q.models.len() {
            seq![progress_at(q.models, q.at, 100)]
        } else {
            seq![progress_at(q.models, q.at, 100), progress_at(q.models, q.at + 1, 0)]
        },
        _ => Seq::empty(),
    }
}

/// The model whose download is begun upon an event.
pub open spec fn queue_fetches(q: QueueText, e: EventText) -> Option<int> {
    match (q.phase, e) {
        (PhaseText::Ready, EventText::Begin) => if q.models.len() == 0 {
            None
        } else {
            Some(q.at)
        },
        (PhaseText::Fetching, EventText::Finished) => if q.at + 1 == q.models.len() {
            None
        } else {
            Some(q.at + 1)
        },
        _ => None,
    }
}

/// Whether the place of a queue fits how far it is.
pub open spec fn queue_wf(q: QueueText) -> bool {
    match q.phase {
        PhaseText::Ready => q.at == 0,
        PhaseText::Fetching => 0 <= q.at < q.models.len(),
        PhaseText::Done => q.at == q.models.len(),
        PhaseText::Failed(_) => 0 <= q.at < q.models.len(),
    }
}

impl View for DownloadQueue {
    type V = QueueText;

    open spec fn view(&self) -> QueueText {
        QueueText {
            models: Seq::new(self.items@.len(), |i: int| self.items@[i].model@),
            at: self.at as int,
            phase: self.phase@,
        }
    }
}

impl DownloadQueue {
    /// Whether the models are numbered and labelled, and the place fits how far it is.
    pub open spec fn wf(self) -> bool {
        &&& queue_wf(self@)
        &&& forall|i: int|
            0 <= i < self.items@.len() ==> (#[trigger] self.items@[i]).label@ == label_of(
                self.items@[i].model@.name,
            ) && self.items@[i].number == i + 1 && self.items@[i].total == self.items@.len()
    }

    fn progress(&self, at: usize, percent: u8) -> (r: QueueProgress)
        requires
            self.wf(),
            at < self.items@.len(),
        ensures
            r@ == progress_at(self@.models, at as int, percent as int),
    {
        let item = &self.items[at];
        QueueProgress {
            number: item.number,
            total: item.total,
            label: item.label.clone(),
            size_mb: item.model.size_mb,
            percent,
        }
    }

    /// Takes in what became of a download: says what is shown, and which model is
    /// downloaded next. An event that does not fit how far the queue is changes nothing.
    pub fn step(&mut self, event: QueueEvent) -> (r: QueueTurn)
        requires
            old(self).wf(),
        ensures
            final(self).wf(),
            final(self)@ == queue_after(old(self)@, event@),
            final(self).items == old(self).items,
            progress_texts(r.shown@) == queue_shows(old(self)@, event@),
            match r.fetch {
                Some(i) => queue_fetches(old(self)@, event@) == Some(i as int) && i < final(self).items@.len(),
                None => queue_fetches(old(self)@, event@) is None,
            },
    {
        let ghost q = self@;
        let mut shown: Vec<QueueProgress> = Vec::new();
        let mut fetch: Option<usize> = None;
        let total: usize = self.items.len();
        let ready = matches!(self.phase, QueuePhase::Ready);
        let fetching = matches!(self.phase, QueuePhase::Fetching);
        match event {
            QueueEvent::Begin => {
                if ready {
                    if total == 0 {
                        self.phase = QueuePhase::Done;
                    } else {
                        shown.push(self.progress(0, 0));
                        fetch = Some(0);
                        self.phase = QueuePhase::Fetching;
                    }
                }
            },
            QueueEvent::Received { done, all } => {
                if fetching {
                    shown.push(self.progress(self.at, percent(done, all)));
                }
            },
            QueueEvent::Finished => {
                if fetching {
                    shown.push(self.progress(self.at, 100));
                    if self.at + 1 == total {
                        self.phase = QueuePhase::Done;
                    } else {
                        shown.push(self.progress(self.at + 1, 0));
                        fetch = Some(self.at + 1);
                    }
                    self.at = self.at + 1;
                }
            },
            QueueEvent::Failed(why) => {
                if fetching {
                    self.phase = QueuePhase::Failed(why);
                }
            },
        }
        assert(progress_texts(shown@) =~= queue_shows(q, event@));
        assert(self@.models =~= q.models);
        QueueTurn { shown, fetch }
    }
}

/// The models that are not downloaded, to be downloaded one after the other, in their
/// order.
pub fn download_models_queue(d: &Downloads, models: &Vec<ModelChoice>) -> (q: DownloadQueue)
    ensures
        q.wf(),
        q@ == fresh_queue(not_downloaded(*d, depth::model_texts(models@))),
{
    let missing = missing_models(d, models);
    let ghost ms = not_downloaded(*d, depth::model_texts(models@));
    let total: usize = missing.len();
    let mut items: Vec<QueueItem> = Vec::new();
    let mut i: usize = 0;
    while i < total
        invariant
            i <= total,
            total == missing@.len(),
            depth::model_texts(missing@) == ms,
            items@.len() == i,
            forall|j: int|
                0 <= j < i ==> (#[trigger] items@[j]).model@ == ms[j] && items@[j].label@ == label_of(ms[j].name)
                    && items@[j].number == j + 1 && items@[j].total == total,
        decreases total - i,
    {
        assert(ms[i as int] == missing@[i as int]@);
        let label = clean_label(missing[i].name.as_str());
        items.push(QueueItem { model: missing[i].copy(), label, number: i + 1, total });
        i = i + 1;
    }
    let q = DownloadQueue { items, at: 0, phase: QueuePhase::Ready };
    assert(q@.models =~= ms);
    q
}

/// The line that is shown while a model is downloaded.
pub fn queue_text(label: &str, size_mb: u32, number: usize, total: usize) -> (r: String)
    requires
        number <= u64::MAX,
        total <= u64::MAX,
    ensures
        r@ == label@ + " · "@ + text::decimal(size_mb as nat) + " MB  ("@ + text::decimal(number as nat) + "/"@
            + text::decimal(total as nat) + ")"@,
{
    let mut s = label.to_owned();
    s.append(" · ");
    s.append(decimal_of(size_mb as u64).as_str());
    s.append(" MB  (");
    s.append(decimal_of(number as u64).as_str());
    s.append("/");
    s.append(decimal_of(total as u64).as_str());
    s.append(")");
    s
}

/// Nothing that is downloaded is downloaded again, and nothing is left out.
pub proof fn law_queue_is_what_is_missing(d: Downloads, ms: Seq<depth::ModelText>)
    ensures
        forall|m: depth::ModelText|
            #[trigger] not_downloaded(d, ms).contains(m) <==> ms.contains(m) && !downloaded(d, m),
    decreases ms.len(),
{
    if ms.len() > 0 {
        let rest = ms.drop_last();
        law_queue_is_what_is_missing(d, rest);
        let q = not_downloaded(d, ms);
        let qr = not_downloaded(d, rest);
        assert forall|m: depth::ModelText| #[trigger] q.contains(m) <==> ms.contains(m) && !downloaded(d, m) by {
            if ms.contains(m) {
                let k = choose|k: int| 0 <= k < ms.len() && ms[k] == m;
                if k < rest.len() {
                    assert(rest[k] == m);
                    assert(rest.contains(m));
                }
            }
            if rest.contains(m) {
                let k = choose|k: int| 0 <= k < rest.len() && rest[k] == m;
                assert(ms[k] == m);
            }
            assert(ms[ms.len() - 1] == ms.last());
            if qr.contains(m) {
                let k = choose|k: int| 0 <= k < qr.len() && qr[k] == m;
                assert(q[k] == m);
            }
            if q.contains(m) && !downloaded(d, ms.last()) {
                let k = choose|k: int| 0 <= k < q.len() && q[k] == m;
                if k < qr.len() {
                    assert(qr[k] == m);
                }
            }
            if !downloaded(d, ms.last()) {
                assert(q[q.len() - 1] == ms.last());
            }
        }
    }
}

/// The queue after events.
pub open spec fn queue_run(q: QueueText, es: Seq<EventText>) -> QueueText
    decreases es.len(),
{
    if es.len() == 0 {
        q
    } else {
        queue_after(queue_run(q, es.drop_last()), es.last())
    }
}

/// All that is shown upon events.
pub open spec fn run_shows(q: QueueText, es: Seq<EventText>) -> Seq<ProgressText>
    decreases es.len(),
{
    if es.len() == 0 {
        Seq::empty()
    } else {
        run_shows(q, es.drop_last()) + queue_shows(queue_run(q, es.drop_last()), es.last())
    }
}

/// All models whose downloads are begun upon events, in this order.
pub open spec fn run_fetches(q: QueueText, es: Seq<EventText>) -> Seq<int>
    decreases es.len(),
{
    if es.len() == 0 {
        Seq::empty()
    } else {
        let before = run_fetches(q, es.drop_last());
        match queue_fetches(queue_run(q, es.drop_last()), es.last()) {
            Some(i) => before.push(i),
            None => before,
        }
    }
}

/// Whether a model of the queue is shown as it is: with its number, label and size, and
/// between none and all of it done.
pub open spec fn shown_right(models: Seq<depth::ModelText>, p: ProgressText) -> bool {
    &&& 1 <= p.number <= models.len()
    &&& 0 <= p.percent <= 100
    &&& p == progress_at(models, p.number - 1, p.percent)
}

/// Whether what is shown goes on as the downloads do: it begins with nothing of the first
/// model, and leaves a model for the one after it when all of it is there.
pub open spec fn shown_in_order(ps: Seq<ProgressText>) -> bool {
    &&& ps.len() > 0 ==> ps[0].number == 1 && ps[0].percent == 0
    &&& forall|i: int, j: int|
        0 <= i && j == i + 1 && j < ps.len() ==> (#[trigger] ps[j]).number == (#[trigger] ps[i]).number || (ps[j].number
            == ps[i].number + 1 && ps[i].percent == 100 && ps[j].percent == 0)
}

/// How the queue runs, whatever becomes of the downloads: the models are downloaded in
/// their order, each once and none after one that failed; each is shown as it is, from
/// nothing done to all; the queue is done when every model is there, and at once where
/// there is none.
pub proof fn law_queue_runs(models: Seq<depth::ModelText>, es: Seq<EventText>)
    ensures
        ({
            let q = queue_run(fresh_queue(models), es);
            let ps = run_shows(fresh_queue(models), es);
            &&& queue_wf(q)
            &&& q.models == models
            &&& run_fetches(fresh_queue(models), es) == Seq::new(
                match q.phase {
                    PhaseText::Ready => 0,
                    PhaseText::Done => models.len(),
                    _ => (q.at + 1) as nat,
                },
                |i: int| i,
            )
            &&& forall|i: int| 0 <= i < ps.len() ==> shown_right(models, #[trigger] ps[i])
            &&& shown_in_order(ps)
            &&& (ps.len() == 0) == (q.phase is Ready || models.len() == 0)
            &&& ps.len() > 0 ==> ps.last().number == (if q.phase is Done {
                q.at
            } else {
                q.at + 1
            })
            &&& ps.len() > 0 && q.phase is Done ==> ps.last().percent == 100
            &&& q.phase matches PhaseText::Failed(why) ==> es.contains(EventText::Failed(why))
        }),
    decreases es.len(),
{
    if es.len() > 0 {
        let es0 = es.drop_last();
        let e = es.last();
        law_queue_runs(models, es0);
        let q0 = queue_run(fresh_queue(models), es0);
        let q = queue_run(fresh_queue(models), es);
        let ps0 = run_shows(fresh_queue(models), es0);
        let ps = run_shows(fresh_queue(models), es);
        let new = queue_shows(q0, e);
        assert(es[es.len() - 1] == e);
        if let PhaseText::Failed(why) = q0.phase {
            let k = choose|k: int| 0 <= k < es0.len() && es0[k] == EventText::Failed(why);
            assert(es[k] == EventText::Failed(why));
        }
        assert forall|i: int| 0 <= i < ps.len() implies shown_right(models, #[trigger] ps[i]) by {
            if i < ps0.len() {
                assert(ps[i] == ps0[i]);
            } else {
                assert(ps[i] == new[i - ps0.len()]);
            }
        }
    }
}

/// Nothing is shown or downloaded once the queue is done or a download failed.
pub proof fn law_an_ended_queue_stays(q: QueueText, e: EventText)
    requires
        q.phase is Done || q.phase is Failed,
    ensures
        queue_after(q, e) == q,
        queue_shows(q, e) == Seq::<ProgressText>::empty(),
        queue_fetches(q, e) is None,
{
}

/// When every model of the queue is there, and none that was there is gone, nothing is
/// missing.
pub proof fn law_a_finished_queue_leaves_nothing(before: Downloads, after: Downloads, ms: Seq<depth::ModelText>)
    requires
        forall|m: depth::ModelText| #[trigger] downloaded(before, m) ==> downloaded(after, m),
        forall|m: depth::ModelText| #[trigger] not_downloaded(before, ms).contains(m) ==> downloaded(after, m),
    ensures
        not_downloaded(after, ms) == Seq::<depth::ModelText>::empty(),
{
    law_queue_is_what_is_missing(before, ms);
    law_queue_is_what_is_missing(after, ms);
    let left = not_downloaded(after, ms);
    if left.len() > 0 {
        let m = left[0];
        assert(left.contains(m));
        assert(not_downloaded(before, ms).contains(m) <==> ms.contains(m) && !downloaded(before, m));
        assert(false);
    }
}

// ---------------------------------------------------------------------------
// The preview
// ---------------------------------------------------------------------------

/// What came of an attempt to remove the old preview.
#[derive(Clone, Copy, PartialEq, Eq, Structural)]
pub enum RemoveOutcome {
    Removed,
    NotFound,
    Failed,
}

/// What follows an attempt to remove the old preview.
#[derive(Clone, Copy, PartialEq, Eq, Structural)]
pub enum CleanStep {
    /// Go on.
    Done,
    /// Wait a moment and try again.
    Retry,
    /// Go on, and report that something may be left.
    GiveUp,
}

/// How often the removal is tried.
pub const CLEAN_ATTEMPTS: u32 = 6;

/// What follows the attempt with the given number, counted from zero.
pub fn prepare_clean_preview_dir(attempt: u32, outcome: RemoveOutcome) -> (r: CleanStep)
    ensures
        r == (if outcome != RemoveOutcome::Failed {
            CleanStep::Done
        } else if attempt + 1 < CLEAN_ATTEMPTS {
            CleanStep::Retry
        } else {
            CleanStep::GiveUp
        }),
{
    match outcome {
        RemoveOutcome::Failed => if attempt < CLEAN_ATTEMPTS - 1 {
            CleanStep::Retry
        } else {
            CleanStep::GiveUp
        },
        _ => CleanStep::Done,
    }
}

/// The files that must not survive from an old preview.
pub fn stale_preview_files() -> (r: Vec<String>)
    ensures
        text::texts(r@) == seq![
            "background.png"@,
            "mask.png"@,
            "image.glsl"@,
            "manifest.toml"@,
            "depth.png"@,
            "image.png"@,
        ],
{
    let mut r: Vec<String> = Vec::new();
    r.push("background.png".to_owned());
    r.push("mask.png".to_owned());
    r.push("image.glsl".to_owned());
    r.push("manifest.toml".to_owned());
    r.push("depth.png".to_owned());
    r.push("image.png".to_owned());
    assert(text::texts(r@) =~= seq![
        "background.png"@,
        "mask.png"@,
        "image.glsl"@,
        "manifest.toml"@,
        "depth.png"@,
        "image.png"@,
    ]);
    r
}

/// Whether depth is estimated by a model, rather than by the rule of thumb.
pub fn estimate_depth(build: Build, d: &Downloads, model: Option<&ModelChoice>) -> (r: bool)
    ensures
        r == (build.depth_onnx && (match model {
            Some(m) => downloaded(*d, m@),
            None => false,
        })),
{
    match model {
        Some(m) => onnx_available(build) && is_model_downloaded(d, m),
        None => false,
    }
}

/// How a preview is built.
#[derive(Clone, Copy, PartialEq, Eq, Structural)]
pub struct PreviewPlan {
    /// Whether the wallpaper has a foreground and an inpainted background.
    pub layered: bool,
    /// How far the mask of the subject is grown before inpainting, in pixels.
    pub dilate: u32,
    /// How wide the edge of the foreground is softened, in pixels.
    pub feather: u32,
}

/// The larger of two numbers.
pub open spec fn larger(a: int, b: int) -> int {
    if a > b {
        a
    } else {
        b
    }
}

/// How a preview of an image is built: in layers, where the models for it can be run.
pub fn build_preview(build: Build, width: u32, height: u32, seg_there: bool, lama_there: bool) -> (r: PreviewPlan)
    ensures
        r.layered == (build.depth_onnx && seg_there && lama_there),
        r.dilate == larger(larger(width as int, height as int) / 150, 8),
        r.feather == larger(larger(width as int, height as int) / 220, 2),
{
    let dim: u32 = if width > height { width } else { height };
    let dilate: u32 = if dim / 150 > 8 { dim / 150 } else { 8 };
    let feather: u32 = if dim / 220 > 2 { dim / 220 } else { 2 };
    PreviewPlan { layered: onnx_available(build) && seg_there && lama_there, dilate, feather }
}

/// What is done to keep a preview in the library.
pub struct SavePlan {
    pub out: Location,
    /// The files that are copied.
    pub files: Vec<String>,
    pub layered: bool,
}

/// The files of a preview that are kept, of those that are there.
pub open spec fn kept_files(there: Seq<Seq<char>>) -> Seq<Seq<char>> {
    files_there(
        seq!["image.png"@, "depth.png"@, "background.png"@, "mask.png"@, "image.glsl"@],
        there,
    )
}

/// The names of a list that are there, in the order of the list.
pub open spec fn files_there(names: Seq<Seq<char>>, there: Seq<Seq<char>>) -> Seq<Seq<char>>
    decreases names.len(),
{
    if names.len() == 0 {
        Seq::empty()
    } else if there.contains(names.last()) {
        files_there(names.drop_last(), there).push(names.last())
    } else {
        files_there(names.drop_last(), there)
    }
}

fn present_files(names: &Vec<String>, there: &Vec<String>) -> (r: Vec<String>)
    ensures
        text::texts(r@) == files_there(text::texts(names@), text::texts(there@)),
{
    let ghost all = text::texts(names@);
    let mut r: Vec<String> = Vec::new();
    let mut i: usize = 0;
    assert(all.subrange(0, 0) =~= Seq::empty());
    assert(text::texts(r@) =~= Seq::empty());
    while i < names.len()
        invariant
            i <= names.len(),
            all == text::texts(names@),
            text::texts(r@) == files_there(all.subrange(0, i as int), text::texts(there@)),
        decreases names.len() - i,
    {
        assert(all.subrange(0, i + 1).drop_last() =~= all.subrange(0, i as int));
        assert(all.subrange(0, i + 1).last() == names@[i as int]@);
        if list_has(there, names[i].as_str()) {
            let ghost before = r@;
            let f = names[i].clone();
            let ghost ft = f@;
            r.push(f);
            assert(text::texts(r@) =~= text::texts(before).push(ft));
        }
        i = i + 1;
    }
    assert(all.subrange(0, i as int) =~= all);
    r
}

/// How a preview is kept in the library: in a new folder, named after the wallpaper.
/// `there` lists the files of the preview, and `taken` the folders of the library.
pub fn save_to_library(base: &Location, display_name: &str, there: &Vec<String>, taken: &Vec<String>) -> (r: SavePlan)
    requires
        taken@.len() < u64::MAX,
    ensures
        exists|name: Seq<char>|
            r.out@ == base@.push(name) && #[trigger] controller::is_free_name(
                controller::slug(display_name@, "parallax"@),
                text::texts(taken@),
                name,
            ),
        text::texts(r.files@) == kept_files(text::texts(there@)),
        r.layered == (text::texts(there@).contains("background.png"@) && text::texts(there@).contains(
            "mask.png"@,
        )),
{
    let out = unique_dir(base, slugify(display_name, "parallax").as_str(), taken);
    let mut names: Vec<String> = Vec::new();
    names.push("image.png".to_owned());
    names.push("depth.png".to_owned());
    names.push("background.png".to_owned());
    names.push("mask.png".to_owned());
    names.push("image.glsl".to_owned());
    assert(text::texts(names@) =~= seq![
        "image.png"@,
        "depth.png"@,
        "background.png"@,
        "mask.png"@,
        "image.glsl"@,
    ]);
    let files = present_files(&names, there);
    let layered = list_has(there, "background.png") && list_has(there, "mask.png");
    SavePlan { out, files, layered }
}

/// The name of a new wallpaper: the one that was typed, else that of the image.
pub fn save_name(typed: &str, stem: &Option<String>) -> (r: String)
    ensures
        r@ == (if text::trim(typed@).len() > 0 {
            text::trim(typed@)
        } else {
            match text::opt_text(*stem) {
                Some(s) => s,
                None => "Parallax"@,
            }
        }),
{
    let t = trim_str(typed);
    if chars_of(t.as_str()).len() > 0 {
        t
    } else {
        match stem {
            Some(s) => s.clone(),
            None => "Parallax".to_owned(),
        }
    }
}

// ---------------------------------------------------------------------------
// What can be relied on
// ---------------------------------------------------------------------------

/// A model is downloaded exactly where the folder of the models is there and the folder of
/// the model holds each of its files.
pub proof fn law_models_are_downloaded_whole(d: Downloads, m: depth::ModelText, k: int)
    ensures
        downloaded(d, m) && 0 <= k < m.files.len() ==> exists|i: int|
            0 <= i < d.dirs@.len() && (#[trigger] d.dirs@[i]).id@ == m.id && text::texts(d.dirs@[i].files@).contains(
                m.files[k].name,
            ),
        !d.resolved ==> !downloaded(d, m),
        d.resolved && m.files.len() == 0 ==> downloaded(d, m),
        0 <= k < m.files.len() && !has_file(d, m.id, m.files[k].name) ==> !downloaded(d, m),
        d.resolved && (forall|j: int| 0 <= j < m.files.len() ==> has_file(d, m.id, (#[trigger] m.files[j]).name))
            ==> downloaded(d, m),
{
    if downloaded(d, m) && 0 <= k < m.files.len() {
        assert(has_file(d, m.id, m.files[k].name));
    }
}

/// The label of a model is its name up to the first dot between spaces or the first open
/// bracket behind a space, whichever comes first.
pub proof fn law_labels_end_at_details(name: Seq<char>, rest: Seq<char>)
    requires
        name.len() > 0,
        !text::is_whitespace(name[0]),
        !text::is_whitespace(name.last()),
        !name.contains('('),
        !name.contains('·'),
    ensures
        label_of(name) == name,
        !text::is_whitespace((name + " ("@ + rest).last()) ==> label_of(name + " ("@ + rest) == name,
        !text::is_whitespace((name + " · "@ + rest).last()) ==> label_of(name + " · "@ + rest) == name,
{
    reveal_strlit(" · ");
    reveal_strlit(" (");
    let none = Seq::<char>::empty();
    assert(none + name + none =~= name);
    text::law_trimmed_texts_stay(none, name, none);
    lemma_no_detail(name);
    assert(name.subrange(0, name.len() as int) =~= name);
    let a = name + " ("@ + rest;
    if !text::is_whitespace(a.last()) {
        assert(none + a + none =~= a);
        assert(a[0] == name[0]);
        text::law_trimmed_texts_stay(none, a, none);
        assert(a.subrange(name.len() as int, (name.len() + 2) as int) =~= " ("@);
        assert(text::text_at(a, " ("@, name.len() as int));
        assert(a.subrange(0, name.len() as int) =~= name);
        lemma_detail_starts_here(name, a);
    }
    let b = name + " · "@ + rest;
    if !text::is_whitespace(b.last()) {
        assert(none + b + none =~= b);
        assert(b[0] == name[0]);
        text::law_trimmed_texts_stay(none, b, none);
        assert(b.subrange(name.len() as int, (name.len() + 3) as int) =~= " · "@);
        assert(text::text_at(b, " · "@, name.len() as int));
        assert(b.subrange(0, name.len() as int) =~= name);
        lemma_detail_starts_here(name, b);
    }
}

proof fn lemma_no_detail(s: Seq<char>)
    requires
        !s.contains('('),
        !s.contains('·'),
    ensures
        text::text_pos(s, " · "@) == s.len(),
        text::text_pos(s, " ("@) == s.len(),
{
    reveal_strlit(" · ");
    reveal_strlit(" (");
    if text::has_text(s, " · "@) {
        let i = choose|i: int| text::text_at(s, " · "@, i);
        text::law_texts_stand_where_their_characters_do(s, " · "@, i);
        assert(" · "@[1] == '·');
        assert(s[i + 1] == '·');
    }
    if text::has_text(s, " ("@) {
        let i = choose|i: int| text::text_at(s, " ("@, i);
        text::law_texts_stand_where_their_characters_do(s, " ("@, i);
        assert(" ("@[1] == '(');
        assert(s[i + 1] == '(');
    }
}

/// Neither detail starts before the end of a name that has neither sign.
proof fn lemma_detail_starts_here(name: Seq<char>, s: Seq<char>)
    requires
        name.len() > 0,
        !text::is_whitespace(name.last()),
        !name.contains('('),
        !name.contains('·'),
        name.len() <= s.len(),
        s.subrange(0, name.len() as int) == name,
        text::text_at(s, " · "@, name.len() as int) || text::text_at(s, " ("@, name.len() as int),
    ensures
        label_end(s) == name.len(),
{
    reveal_strlit(" · ");
    reveal_strlit(" (");
    let n = name.len() as int;
    let front = s.subrange(0, n);
    assert(forall|i: int| 0 <= i < n ==> #[trigger] s[i] == front[i]);
    text::law_texts_stand_where_their_characters_do(s, " · "@, n);
    text::law_texts_stand_where_their_characters_do(s, " ("@, n);
    if text::has_text(s, " · "@) {
        let i = text::text_pos(s, " · "@);
        text::law_texts_stand_where_their_characters_do(s, " · "@, i);
        assert(" · "@[0] == ' ' && " · "@[1] == '·');
        assert(s[i] == ' ' && s[i + 1] == '·');
        if i < n {
            if i + 1 < n {
                assert(name[i + 1] == '·');
            } else {
                assert(name[n - 1] == ' ');
            }
        }
    }
    if text::has_text(s, " ("@) {
        let i = text::text_pos(s, " ("@);
        text::law_texts_stand_where_their_characters_do(s, " ("@, i);
        assert(" ("@[0] == ' ' && " ("@[1] == '(');
        assert(s[i] == ' ' && s[i + 1] == '(');
        if i < n {
            if i + 1 < n {
                assert(name[i + 1] == '(');
            } else {
                assert(name[n - 1] == ' ');
            }
        }
    }
}

/// A model is found by its label: the first with it.
pub proof fn law_models_are_found_by_label(ms: Seq<depth::ModelText>, label: Seq<char>, k: int)
    ensures
        0 <= k < ms.len() && label_of(ms[k].name) == label && (forall|j: int|
            0 <= j < k ==> label_of((#[trigger] ms[j]).name) != label) ==> with_label(ms, label) == Some(ms[k]),
        (forall|j: int| 0 <= j < ms.len() ==> label_of((#[trigger] ms[j]).name) != label) ==> with_label(ms, label)
            is None,
    decreases ms.len(),
{
    if ms.len() > 0 {
        let rest = ms.subrange(1, ms.len() as int);
        law_models_are_found_by_label(rest, label, k - 1);
        assert(forall|j: int| 0 <= j < rest.len() ==> #[trigger] rest[j] == ms[j + 1]);
        if label_of(ms[0].name) != label {
            if 0 <= k < ms.len() && label_of(ms[k].name) == label && (forall|j: int|
                0 <= j < k ==> label_of((#[trigger] ms[j]).name) != label) {
                assert(rest[k - 1] == ms[k]);
                assert forall|j: int| 0 <= j < k - 1 implies label_of((#[trigger] rest[j]).name) != label by {
                    assert(label_of(ms[j + 1].name) != label);
                }
            }
            if forall|j: int| 0 <= j < ms.len() ==> label_of((#[trigger] ms[j]).name) != label {
                assert forall|j: int| 0 <= j < rest.len() implies label_of((#[trigger] rest[j]).name) != label by {
                    assert(label_of(ms[j + 1].name) != label);
                }
            }
        }
    }
}

/// The segmentation model is the one with the label that was chosen; where none has it,
/// the first, and where there is none, the default one.
pub proof fn law_segmentation_has_a_stand_in(r: Registry, label: Seq<char>, p: Preset)
    ensures
        with_label(depth::model_texts(r.segment@), label) is Some ==> seg_choice(r, label) == with_label(
            depth::model_texts(r.segment@),
            label,
        ),
        with_label(depth::model_texts(r.segment@), label) is None && r.segment@.len() > 0 ==> seg_choice(r, label)
            == Some(r.segment@[0]@),
        r.segment@.len() == 0 ==> seg_choice(r, label) == depth::with_id(r.all(), "u2net"@),
        depth::with_id(r.all(), p.segment@) is Some ==> preset_seg(r, p) == depth::with_id(r.all(), p.segment@),
        depth::with_id(r.all(), p.segment@) is None ==> preset_seg(r, p) == depth::with_id(r.all(), "u2net"@),
{
}

/// A preset is found by its name; where none has it, the first is taken.
pub proof fn law_presets_are_found_by_name(ps: Seq<Preset>, label: Seq<char>, p: Preset, k: int)
    requires
        is_preset(ps, label, p),
        ps.len() > 0,
    ensures
        0 <= k < ps.len() && ps[k].name@ == label && (forall|j: int| 0 <= j < k ==> (#[trigger] ps[j]).name@ != label)
            ==> p == ps[k],
        (forall|j: int| 0 <= j < ps.len() ==> (#[trigger] ps[j]).name@ != label) ==> p == ps[0],
{
    let names = preset_names(ps);
    text::law_positions_are_first(names, label);
    assert(forall|j: int| 0 <= j < ps.len() ==> #[trigger] names[j] == ps[j].name@);
    match text::pos(names, label) {
        Some(i) => {
            assert(names[i] == label);
            if 0 <= k < ps.len() && ps[k].name@ == label && (forall|j: int|
                0 <= j < k ==> (#[trigger] ps[j]).name@ != label) {
                assert(names[k] == label);
                if i < k {
                    assert(ps[i].name@ != label);
                }
                assert(i == k);
            }
            assert(ps[i].name@ == label);
        },
        None => {
            if 0 <= k < ps.len() && ps[k].name@ == label {
                assert(names[k] == label);
            }
        },
    }
}

/// A preset needs the models for depth, segmentation and inpainting, and the upscaler that
/// it names, as far as they are known, in this order.
pub proof fn law_presets_need_their_models(
    r: Registry,
    p: Preset,
    d: depth::ModelText,
    s: depth::ModelText,
    l: depth::ModelText,
)
    requires
        depth::with_id(r.all(), p.depth@) == Some(d),
        depth::with_id(r.all(), p.segment@) == Some(s),
        depth::with_id(r.all(), "lama"@) == Some(l),
    ensures
        p.upscaler is None ==> preset_models(r, p) == seq![d, s, l],
        p.upscaler matches Some(id) ==> (depth::with_id(r.all(), id@) matches Some(u) ==> preset_models(r, p) == seq![
            d,
            s,
            l,
            u,
        ]),
{
    let none = Seq::<depth::ModelText>::empty();
    assert(none.push(d).push(s).push(l) =~= seq![d, s, l]);
    if p.upscaler is Some {
        if let Some(u) = depth::with_id(r.all(), p.upscaler->0@) {
            assert(none.push(d).push(s).push(l).push(u) =~= seq![d, s, l, u]);
        }
    }
}

/// What is not known is not needed.
pub proof fn law_unknown_models_are_not_needed(s: Seq<depth::ModelText>, m: depth::ModelText)
    ensures
        with_model(s, None) == s,
        with_model(s, Some(m)) == s.push(m),
{
}

/// What is chosen one by one needs the models with those labels and the inpainting model;
/// an automatic choice needs the models of its preset.
pub proof fn law_choices_need_their_models(
    r: Registry,
    ps: Seq<Preset>,
    c: StudioChoice,
    needed: Seq<depth::ModelText>,
    d: depth::ModelText,
    s: depth::ModelText,
    l: depth::ModelText,
)
    requires
        needed_models(r, ps, c, needed),
        ps.len() > 0,
    ensures
        c.mode@ == "automatic"@ ==> exists|p: Preset| #[trigger] is_preset(ps, c.preset@, p) && needed == preset_models(r, p),
        c.mode@ != "automatic"@ && with_label(depth::model_texts(r.depth@), c.model@) == Some(d) && seg_choice(
            r,
            c.seg@,
        ) == Some(s) && depth::with_id(r.all(), "lama"@) == Some(l) && with_label(
            depth::model_texts(r.upscale@),
            c.upscaler@,
        ) is None ==> needed == seq![d, s, l],
        c.mode@ != "automatic"@ && with_label(depth::model_texts(r.depth@), c.model@) == Some(d) && seg_choice(
            r,
            c.seg@,
        ) == Some(s) && depth::with_id(r.all(), "lama"@) == Some(l) ==> (with_label(
            depth::model_texts(r.upscale@),
            c.upscaler@,
        ) matches Some(u) ==> needed == seq![d, s, l, u]),
{
    let none = Seq::<depth::ModelText>::empty();
    assert(none.push(d).push(s).push(l) =~= seq![d, s, l]);
    if let Some(u) = with_label(depth::model_texts(r.upscale@), c.upscaler@) {
        assert(none.push(d).push(s).push(l).push(u) =~= seq![d, s, l, u]);
    }
}

/// What a wallpaper is made with is what was chosen: flat layers where the style says so,
/// the default tuning for a preset only, and the models of the preset or those chosen.
pub proof fn law_wallpapers_are_made_as_chosen(r: Registry, ps: Seq<Preset>, c: StudioChoice, x: RenderChoice)
    requires
        renders_choice(r, ps, c, x),
    ensures
        x.billboard <==> text::begins_with(c.style@, "Billboard"@),
        x.default_tuning <==> c.mode@ == "automatic"@,
        c.mode@ != "automatic"@ ==> depth::opt_model(x.model) == with_label(depth::model_texts(r.depth@), c.model@)
            && depth::opt_model(x.upscaler) == with_label(depth::model_texts(r.upscale@), c.upscaler@) && seg_choice(
            r,
            c.seg@,
        ) == Some(x.seg@),
        c.mode@ == "automatic"@ ==> exists|p: Preset| #[trigger]
            is_preset(ps, c.preset@, p) && depth::opt_model(x.model) == depth::with_id(r.all(), p.depth@) && Some(
                x.seg@,
            ) == preset_seg(r, p) && depth::opt_model(x.upscaler) == depth::upscaler_of(r, p),
{
}

/// The models that are missing are those that are not downloaded, in their order.
pub proof fn law_missing_models_keep_their_order(d: Downloads, ms: Seq<depth::ModelText>)
    ensures
        not_downloaded(d, ms) == ms.filter(|m: depth::ModelText| !downloaded(d, m)),
    decreases ms.len(),
{
    reveal(Seq::filter);
    if ms.len() > 0 {
        law_missing_models_keep_their_order(d, ms.drop_last());
    }
}

/// The sizes of files add up, in whatever parts they are added.
pub proof fn law_sizes_add_up(a: Seq<u64>, b: Seq<u64>, size: u64)
    ensures
        sum_of(a + b) == sum_of(a) + sum_of(b),
        sum_of(seq![size]) == size,
        sum_of(Seq::empty()) == 0,
    decreases b.len(),
{
    let one = seq![size];
    assert(one.drop_last() =~= Seq::<u64>::empty());
    assert(sum_of(one.drop_last()) == 0);
    assert(one.last() == size);
    if b.len() > 0 {
        law_sizes_add_up(a, b.drop_last(), size);
        assert((a + b).drop_last() =~= a + b.drop_last());
        assert((a + b).last() == b.last());
    } else {
        assert(a + b =~= a);
    }
}

/// The percentage is that of what is done of all, rounded down: none at first, all at the
/// end, and never more.
pub proof fn law_percentages_are_of_all(done: nat, all: nat)
    ensures
        percent_of(0, all) == 0,
        all > 0 ==> percent_of(all, all) == 100,
        percent_of(done, 0) == 0,
        percent_of(done, all) <= 100,
        done <= all && all > 0 ==> percent_of(done, all) * all <= done * 100 < (percent_of(done, all) + 1) * all,
        done > all && all > 0 ==> percent_of(done, all) == 100,
{
    if all > 0 {
        vstd::arithmetic::div_mod::lemma_fundamental_div_mod((done * 100) as int, all as int);
        assert((all * 100) / all == 100) by (nonlinear_arith)
            requires
                all > 0,
        ;
        assert(0nat * 100 / all == 0) by (nonlinear_arith)
            requires
                all > 0,
        ;
        let q = (done * 100) / all;
        let m = (done * 100) % all;
        assert(done * 100 == all * q + m);
        assert(all * q == q * all) by (nonlinear_arith);
        assert((q + 1) * all == q * all + all) by (nonlinear_arith);
        if done <= all {
            assert(q <= 100) by (nonlinear_arith)
                requires
                    done * 100 == q * all + m,
                    done <= all,
                    0 <= m,
                    all > 0,
            ;
        } else {
            assert(q >= 100) by (nonlinear_arith)
                requires
                    done * 100 == q * all + m,
                    done > all,
                    m < all,
                    all > 0,
            ;
        }
    }
}

/// A model is shown with its number, from one, its label, its size and how much of it is
/// there; a new queue has all models before it.
pub proof fn law_models_are_shown_as_they_are(models: Seq<depth::ModelText>, at: int, percent: int)
    ensures
        progress_at(models, at, percent).number == at + 1,
        progress_at(models, at, percent).total == models.len(),
        progress_at(models, at, percent).label == label_of(models[at].name),
        progress_at(models, at, percent).size_mb == models[at].size_mb,
        progress_at(models, at, percent).percent == percent,
        fresh_queue(models).models == models,
        fresh_queue(models).at == 0,
        fresh_queue(models).phase is Ready,
        CLEAN_ATTEMPTS == 6,
{
}

/// How the queue goes on: it begins with the first model, goes on with the next when one is
/// there, and ends with the last or with a failure.
pub proof fn law_queue_goes_on(models: Seq<depth::ModelText>, at: int, done: nat, all: nat, why: Seq<char>)
    requires
        0 <= at < models.len(),
    ensures
        ({
            let q = QueueText { models, at, phase: PhaseText::Fetching };
            let first = QueueText { models, at: 0, phase: PhaseText::Ready };
            &&& queue_fetches(first, EventText::Begin) == Some(0int)
            &&& queue_after(first, EventText::Begin) == (QueueText { models, at: 0, phase: PhaseText::Fetching })
            &&& queue_shows(q, EventText::Received(done, all)) == seq![
                progress_at(models, at, percent_of(done, all) as int),
            ]
            &&& queue_after(q, EventText::Received(done, all)) == q
            &&& queue_after(q, EventText::Failed(why)) == (QueueText { models, at, phase: PhaseText::Failed(why) })
            &&& queue_after(q, EventText::Finished).at == at + 1
            &&& at + 1 < models.len() ==> queue_fetches(q, EventText::Finished) == Some(at + 1) && queue_after(
                q,
                EventText::Finished,
            ).phase is Fetching
            &&& at + 1 == models.len() ==> queue_fetches(q, EventText::Finished) is None && queue_after(
                q,
                EventText::Finished,
            ).phase is Done
        }),
{
}

/// The files of a preview that are kept are those that are there, in their order.
pub proof fn law_preview_files_are_kept(names: Seq<Seq<char>>, there: Seq<Seq<char>>)
    ensures
        files_there(names, there) == names.filter(|n: Seq<char>| there.contains(n)),
        kept_files(there) == seq![
            "image.png"@,
            "depth.png"@,
            "background.png"@,
            "mask.png"@,
            "image.glsl"@,
        ].filter(|n: Seq<char>| there.contains(n)),
{
    lemma_files_there(names, there);
    lemma_files_there(seq!["image.png"@, "depth.png"@, "background.png"@, "mask.png"@, "image.glsl"@], there);
}

proof fn lemma_files_there(names: Seq<Seq<char>>, there: Seq<Seq<char>>)
    ensures
        files_there(names, there) == names.filter(|n: Seq<char>| there.contains(n)),
    decreases names.len(),
{
    reveal(Seq::filter);
    if names.len() > 0 {
        lemma_files_there(names.drop_last(), there);
    }
}

/// The larger of two numbers is one of them, and neither is above it.
pub proof fn law_larger_is_larger(a: int, b: int)
    ensures
        larger(a, b) >= a,
        larger(a, b) >= b,
        larger(a, b) == a || larger(a, b) == b,
{
}

/// The models of a queue are numbered from one and labelled by their names.
pub proof fn law_queued_models_are_numbered(q: DownloadQueue, i: int)
    requires
        q.wf(),
        0 <= i < q.items@.len(),
    ensures
        q.items@[i].number == i + 1,
        q.items@[i].total == q.items@.len(),
        q.items@[i].label@ == label_of(q.items@[i].model@.name),
        q.phase is Fetching ==> q.at < q.items@.len(),
        q.phase is Done ==> q.at == q.items@.len(),
        q.phase is Ready ==> q.at == 0,
{
}

} // verus!
