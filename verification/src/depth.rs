//! The models of the Parallax Studio: which there are, and which one suits a
//! graphics card.
use vstd::prelude::*;
use crate::paths::Location;
use crate::text::str_eq;

verus! {

broadcast use vstd::string::group_string_axioms;

/// The class of a graphics card.
#[derive(Clone, Copy, PartialEq, Eq, Structural)]
pub enum GpuClass {
    /// Software rendering.
    Cpu,
    Integrated,
    Discrete,
}

/// The kind of device that a graphics adapter reports.
#[derive(Clone, Copy, PartialEq, Eq, Structural)]
pub enum DeviceType {
    Other,
    IntegratedGpu,
    DiscreteGpu,
    VirtualGpu,
    Cpu,
}

/// The class of the graphics card behind an adapter.
pub open spec fn class_of(d: DeviceType) -> GpuClass {
    match d {
        DeviceType::DiscreteGpu => GpuClass::Discrete,
        DeviceType::IntegratedGpu => GpuClass::Integrated,
        DeviceType::VirtualGpu => GpuClass::Integrated,
        _ => GpuClass::Cpu,
    }
}

/// The class of the graphics card behind an adapter.
pub fn gpu_class(d: DeviceType) -> (r: GpuClass)
    ensures
        r == class_of(d),
{
    match d {
        DeviceType::DiscreteGpu => GpuClass::Discrete,
        DeviceType::IntegratedGpu => GpuClass::Integrated,
        DeviceType::VirtualGpu => GpuClass::Integrated,
        _ => GpuClass::Cpu,
    }
}

/// A file of a model, and where it is downloaded from.
pub struct ModelFile {
    pub name: String,
    pub url: String,
}

/// A model that can be downloaded and run.
pub struct ModelChoice {
    /// The name of the folder that holds the files.
    pub id: String,
    pub name: String,
    pub license: String,
    pub commercial_ok: bool,
    pub size_mb: u32,
    pub input_size: u32,
    pub invert: bool,
    /// `v2` or `v3` for depth models.
    pub arch: String,
    /// `small`, `base` or `large` for depth models.
    pub tier: String,
    /// The first file is the one that is loaded.
    pub files: Vec<ModelFile>,
}

/// A file of a model, by the texts it holds.
#[verifier::ext_equal]
pub struct FileLink {
    pub name: Seq<char>,
    pub url: Seq<char>,
}

/// A model, by the texts it holds.
#[verifier::ext_equal]
pub struct ModelText {
    pub id: Seq<char>,
    pub name: Seq<char>,
    pub license: Seq<char>,
    pub commercial_ok: bool,
    pub size_mb: u32,
    pub input_size: u32,
    pub invert: bool,
    pub arch: Seq<char>,
    pub tier: Seq<char>,
    pub files: Seq<FileLink>,
}

/// The files of a list.
pub open spec fn links(v: Seq<ModelFile>) -> Seq<FileLink> {
    Seq::new(v.len(), |i: int| FileLink { name: v[i].name@, url: v[i].url@ })
}

impl View for ModelChoice {
    type V = ModelText;

    open spec fn view(&self) -> ModelText {
        ModelText {
            id: self.id@,
            name: self.name@,
            license: self.license@,
            commercial_ok: self.commercial_ok,
            size_mb: self.size_mb,
            input_size: self.input_size,
            invert: self.invert,
            arch: self.arch@,
            tier: self.tier@,
            files: links(self.files@),
        }
    }
}

/// The models of a list.
pub open spec fn model_texts(v: Seq<ModelChoice>) -> Seq<ModelText> {
    Seq::new(v.len(), |i: int| v[i]@)
}

/// A model that may be missing.
pub open spec fn opt_model(m: Option<ModelChoice>) -> Option<ModelText> {
    match m {
        Some(x) => Some(x@),
        None => None,
    }
}

/// The known models, by what they are for.
pub struct Registry {
    pub depth: Vec<ModelChoice>,
    pub segment: Vec<ModelChoice>,
    pub inpaint: Vec<ModelChoice>,
    pub upscale: Vec<ModelChoice>,
}

impl Registry {
    /// All models: depth, segmentation, inpainting, upscaling.
    pub open spec fn all(self) -> Seq<ModelText> {
        model_texts(self.depth@) + model_texts(self.segment@) + model_texts(self.inpaint@) + model_texts(
            self.upscale@,
        )
    }
}

/// A quality preset: the models that it uses, by their ids.
pub struct Preset {
    pub name: String,
    pub depth: String,
    pub segment: String,
    pub upscaler: Option<String>,
}

/// The input size of a model that does not give one.
pub fn default_input_size() -> (r: u32)
    ensures
        r == 518,
{
    518
}

/// The file of a model that is loaded.
pub open spec fn primary(m: ModelText) -> Seq<char> {
    if m.files.len() > 0 {
        m.files[0].name
    } else {
        "model.onnx"@
    }
}

impl ModelChoice {
    /// The file that is loaded: the first one.
    pub fn primary_file(&self) -> (r: &str)
        ensures
            r@ == primary(self@),
    {
        if self.files.len() > 0 {
            assert(self@.files[0].name == self.files@[0].name@);
            self.files[0].name.as_str()
        } else {
            "model.onnx"
        }
    }

    /// Whether the model takes five-dimensional input and gives metric distance.
    pub fn is_v3(&self) -> (r: bool)
        ensures
            r == (self.arch@ == "v3"@),
    {
        str_eq(self.arch.as_str(), "v3")
    }

    /// A copy.
    pub fn copy(&self) -> (r: ModelChoice)
        ensures
            r@ == self@,
    {
        let mut files: Vec<ModelFile> = Vec::new();
        let mut i: usize = 0;
        while i < self.files.len()
            invariant
                i <= self.files.len(),
                files@.len() == i,
                forall|j: int|
                    0 <= j < i ==> (#[trigger] files@[j]).name@ == self.files@[j].name@ && files@[j].url@
                        == self.files@[j].url@,
            decreases self.files.len() - i,
        {
            files.push(ModelFile { name: self.files[i].name.clone(), url: self.files[i].url.clone() });
            i = i + 1;
        }
        assert(links(files@) =~= links(self.files@));
        ModelChoice {
            id: self.id.clone(),
            name: self.name.clone(),
            license: self.license.clone(),
            commercial_ok: self.commercial_ok,
            size_mb: self.size_mb,
            input_size: self.input_size,
            invert: self.invert,
            arch: self.arch.clone(),
            tier: self.tier.clone(),
            files,
        }
    }
}

/// A depth estimator that runs a model.
pub struct OnnxEstimator {
    pub model_path: Location,
    pub input_size: u32,
    /// Whether near and far are exchanged.
    pub invert: bool,
    /// Whether the input has five dimensions.
    pub rank5: bool,
    /// Whether the output is a metric distance, which has to be turned into a
    /// disparity.
    pub metric: bool,
}

impl OnnxEstimator {
    /// An estimator with the usual input.
    pub fn new(model_path: Location) -> (r: Self)
        ensures
            r.model_path == model_path,
            r.input_size == 518,
            !r.invert,
            !r.rank5,
            !r.metric,
    {
        OnnxEstimator { model_path, input_size: default_input_size(), invert: false, rank5: false, metric: false }
    }

    /// An estimator as a model describes it.
    pub fn from_choice(model_path: Location, choice: &ModelChoice) -> (r: Self)
        ensures
            r.model_path == model_path,
            r.input_size == choice.input_size,
            r.invert == choice.invert,
            r.rank5 == (choice.arch@ == "v3"@),
            r.metric == (choice.arch@ == "v3"@),
    {
        OnnxEstimator {
            model_path,
            input_size: choice.input_size,
            invert: choice.invert,
            rank5: choice.is_v3(),
            metric: choice.is_v3(),
        }
    }
}

// ---------------------------------------------------------------------------
// Looking models up
// ---------------------------------------------------------------------------

/// The first model with the given id.
pub open spec fn with_id(models: Seq<ModelText>, id: Seq<char>) -> Option<ModelText>
    decreases models.len(),
{
    if models.len() == 0 {
        None
    } else if models[0].id == id {
        Some(models[0])
    } else {
        with_id(models.subrange(1, models.len() as int), id)
    }
}

/// The first model of the given tier.
pub open spec fn with_tier(models: Seq<ModelText>, tier: Seq<char>) -> Option<ModelText>
    decreases models.len(),
{
    if models.len() == 0 {
        None
    } else if models[0].tier == tier {
        Some(models[0])
    } else {
        with_tier(models.subrange(1, models.len() as int), tier)
    }
}

proof fn lemma_with_id_append(a: Seq<ModelText>, b: Seq<ModelText>, id: Seq<char>)
    ensures
        with_id(a + b, id) == (match with_id(a, id) {
            Some(m) => Some(m),
            None => with_id(b, id),
        }),
    decreases a.len(),
{
    if a.len() == 0 {
        assert(a + b =~= b);
    } else {
        assert((a + b).subrange(1, (a + b).len() as int) =~= a.subrange(1, a.len() as int) + b);
        lemma_with_id_append(a.subrange(1, a.len() as int), b, id);
    }
}

fn find_id<'a>(models: &'a Vec<ModelChoice>, id: &str) -> (r: Option<&'a ModelChoice>)
    ensures
        match r {
            Some(m) => with_id(model_texts(models@), id@) == Some(m@),
            None => with_id(model_texts(models@), id@) is None,
        },
{
    let ghost all = model_texts(models@);
    let mut i: usize = 0;
    assert(all.subrange(0, all.len() as int) =~= all);
    while i < models.len()
        invariant
            i <= models.len(),
            all == model_texts(models@),
            with_id(all, id@) == with_id(all.subrange(i as int, all.len() as int), id@),
        decreases models.len() - i,
    {
        let ghost rest = all.subrange(i as int, all.len() as int);
        assert(rest[0] == models@[i as int]@);
        assert(rest.subrange(1, rest.len() as int) =~= all.subrange(i + 1, all.len() as int));
        if str_eq(models[i].id.as_str(), id) {
            return Some(&models[i]);
        }
        i = i + 1;
    }
    None
}

/// The depth models, in the order in which they are offered.
pub fn depth_models(r: &Registry) -> (v: &Vec<ModelChoice>)
    ensures
        *v == r.depth,
{
    &r.depth
}

/// The segmentation models, in the order in which they are offered.
pub fn segment_models(r: &Registry) -> (v: &Vec<ModelChoice>)
    ensures
        *v == r.segment,
{
    &r.segment
}

/// The upscalers, in the order in which they are offered.
pub fn upscale_models(r: &Registry) -> (v: &Vec<ModelChoice>)
    ensures
        *v == r.upscale,
{
    &r.upscale
}

/// The model with the given id, whatever it is for.
pub fn model_by_id<'a>(r: &'a Registry, id: &str) -> (m: Option<&'a ModelChoice>)
    ensures
        match m {
            Some(x) => with_id(r.all(), id@) == Some(x@),
            None => with_id(r.all(), id@) is None,
        },
{
    proof {
        let a = model_texts(r.depth@);
        let b = model_texts(r.segment@);
        let c = model_texts(r.inpaint@);
        let d = model_texts(r.upscale@);
        lemma_with_id_append(a, b, id@);
        lemma_with_id_append(a + b, c, id@);
        lemma_with_id_append(a + b + c, d, id@);
    }
    match find_id(&r.depth, id) {
        Some(m) => Some(m),
        None => match find_id(&r.segment, id) {
            Some(m) => Some(m),
            None => match find_id(&r.inpaint, id) {
                Some(m) => Some(m),
                None => find_id(&r.upscale, id),
            },
        },
    }
}

fn known_model(r: &Registry, id: &str) -> (m: ModelChoice)
    requires
        with_id(r.all(), id@) is Some,
    ensures
        with_id(r.all(), id@) == Some(m@),
{
    match model_by_id(r, id) {
        Some(m) => m.copy(),
        None => {
            assert(false);
            ModelChoice {
                id: String::new(),
                name: String::new(),
                license: String::new(),
                commercial_ok: false,
                size_mb: 0,
                input_size: 0,
                invert: false,
                arch: String::new(),
                tier: String::new(),
                files: Vec::new(),
            }
        },
    }
}

/// The inpainting model.
pub fn lama_model(r: &Registry) -> (m: ModelChoice)
    requires
        with_id(r.all(), "lama"@) is Some,
    ensures
        with_id(r.all(), "lama"@) == Some(m@),
{
    known_model(r, "lama")
}

/// The default segmentation model.
pub fn u2net_model(r: &Registry) -> (m: ModelChoice)
    requires
        with_id(r.all(), "u2net"@) is Some,
    ensures
        with_id(r.all(), "u2net"@) == Some(m@),
{
    known_model(r, "u2net")
}

/// The sharper segmentation model.
pub fn birefnet_model(r: &Registry) -> (m: ModelChoice)
    requires
        with_id(r.all(), "birefnet-lite"@) is Some,
    ensures
        with_id(r.all(), "birefnet-lite"@) == Some(m@),
{
    known_model(r, "birefnet-lite")
}

/// The tier that suits a graphics card.
pub open spec fn tier_for(gpu: GpuClass) -> Seq<char> {
    if gpu == GpuClass::Discrete {
        "base"@
    } else {
        "small"@
    }
}

/// The depth model to offer first on a graphics card: the first of the tier that
/// suits it, or the first of all.
pub fn recommended_tier<'a>(r: &'a Registry, gpu: GpuClass) -> (m: &'a ModelChoice)
    requires
        r.depth@.len() > 0,
    ensures
        m@ == (match with_tier(model_texts(r.depth@), tier_for(gpu)) {
            Some(x) => x,
            None => r.depth@[0]@,
        }),
{
    let want = if gpu == GpuClass::Discrete { "base" } else { "small" };
    let models = &r.depth;
    let ghost all = model_texts(models@);
    let mut i: usize = 0;
    assert(all.subrange(0, all.len() as int) =~= all);
    while i < models.len()
        invariant
            i <= models.len(),
            *models == r.depth,
            all == model_texts(models@),
            want@ == tier_for(gpu),
            with_tier(all, want@) == with_tier(all.subrange(i as int, all.len() as int), want@),
        decreases models.len() - i,
    {
        let ghost rest = all.subrange(i as int, all.len() as int);
        assert(rest[0] == models@[i as int]@);
        assert(rest.subrange(1, rest.len() as int) =~= all.subrange(i + 1, all.len() as int));
        if str_eq(models[i].tier.as_str(), want) {
            return &models[i];
        }
        i = i + 1;
    }
    &models[0]
}

/// The upscaler of a preset, where it names a known one.
pub open spec fn upscaler_of(r: Registry, p: Preset) -> Option<ModelText> {
    match p.upscaler {
        Some(id) => with_id(r.all(), id@),
        None => None,
    }
}

/// The upscaler of a preset, where it names a known one.
pub fn preset_upscaler<'a>(r: &'a Registry, p: &Preset) -> (m: Option<&'a ModelChoice>)
    ensures
        match m {
            Some(x) => upscaler_of(*r, *p) == Some(x@),
            None => upscaler_of(*r, *p) is None,
        },
{
    match &p.upscaler {
        Some(id) => model_by_id(r, id.as_str()),
        None => None,
    }
}

/// Whether a depth map that was written at the time `output` still holds for an
/// image of the time `source`; a time is missing where the file or its time is not
/// there.
pub fn is_cached(source: Option<u64>, output: Option<u64>) -> (r: bool)
    ensures
        r == (source matches Some(s) && output matches Some(d) && d >= s),
{
    match source {
        Some(s) => match output {
            Some(d) => d >= s,
            None => false,
        },
        None => false,
    }
}

// ---------------------------------------------------------------------------
// What can be relied on
// ---------------------------------------------------------------------------

/// A discrete card is taken as such; an integrated one, and one that is shared, as
/// integrated; everything else is software.
pub proof fn law_cards_have_their_class(d: DeviceType)
    ensures
        class_of(d) == GpuClass::Discrete <==> d == DeviceType::DiscreteGpu,
        class_of(d) == GpuClass::Integrated <==> d == DeviceType::IntegratedGpu || d == DeviceType::VirtualGpu,
        class_of(d) == GpuClass::Cpu <==> d == DeviceType::Cpu || d == DeviceType::Other,
{
}

/// The file of a model that is loaded is its first one.
pub proof fn law_first_file_is_loaded(m: ModelText)
    ensures
        m.files.len() > 0 ==> primary(m) == m.files[0].name,
        m.files.len() == 0 ==> primary(m) == "model.onnx"@,
{
}

/// A model is found by its id: the first with it.
pub proof fn law_models_are_found_by_id(models: Seq<ModelText>, id: Seq<char>, k: int)
    ensures
        0 <= k < models.len() && models[k].id == id && (forall|j: int| 0 <= j < k ==> (#[trigger] models[j]).id != id)
            ==> with_id(models, id) == Some(models[k]),
        (forall|j: int| 0 <= j < models.len() ==> (#[trigger] models[j]).id != id) ==> with_id(models, id) is None,
    decreases models.len(),
{
    if models.len() > 0 {
        let rest = models.subrange(1, models.len() as int);
        law_models_are_found_by_id(rest, id, k - 1);
        assert(forall|j: int| 0 <= j < rest.len() ==> #[trigger] rest[j] == models[j + 1]);
        if models[0].id != id {
            if 0 <= k < models.len() && models[k].id == id && (forall|j: int|
                0 <= j < k ==> (#[trigger] models[j]).id != id) {
                assert(rest[k - 1] == models[k]);
                assert forall|j: int| 0 <= j < k - 1 implies (#[trigger] rest[j]).id != id by {
                    assert(models[j + 1].id != id);
                }
            }
            if forall|j: int| 0 <= j < models.len() ==> (#[trigger] models[j]).id != id {
                assert forall|j: int| 0 <= j < rest.len() implies (#[trigger] rest[j]).id != id by {
                    assert(models[j + 1].id != id);
                }
            }
        }
    }
}

/// A model is found by its tier: the first of it.
pub proof fn law_models_are_found_by_tier(models: Seq<ModelText>, tier: Seq<char>, k: int)
    ensures
        0 <= k < models.len() && models[k].tier == tier && (forall|j: int|
            0 <= j < k ==> (#[trigger] models[j]).tier != tier) ==> with_tier(models, tier) == Some(models[k]),
        (forall|j: int| 0 <= j < models.len() ==> (#[trigger] models[j]).tier != tier) ==> with_tier(models, tier)
            is None,
    decreases models.len(),
{
    if models.len() > 0 {
        let rest = models.subrange(1, models.len() as int);
        law_models_are_found_by_tier(rest, tier, k - 1);
        assert(forall|j: int| 0 <= j < rest.len() ==> #[trigger] rest[j] == models[j + 1]);
        if models[0].tier != tier {
            if 0 <= k < models.len() && models[k].tier == tier && (forall|j: int|
                0 <= j < k ==> (#[trigger] models[j]).tier != tier) {
                assert(rest[k - 1] == models[k]);
                assert forall|j: int| 0 <= j < k - 1 implies (#[trigger] rest[j]).tier != tier by {
                    assert(models[j + 1].tier != tier);
                }
            }
            if forall|j: int| 0 <= j < models.len() ==> (#[trigger] models[j]).tier != tier {
                assert forall|j: int| 0 <= j < rest.len() implies (#[trigger] rest[j]).tier != tier by {
                    assert(models[j + 1].tier != tier);
                }
            }
        }
    }
}

/// Only a discrete card gets the larger model, and the upscaler of a preset is the one
/// that it names, if it names any.
pub proof fn law_cards_get_their_tier(gpu: GpuClass, r: Registry, p: Preset)
    ensures
        tier_for(GpuClass::Discrete) == "base"@,
        gpu != GpuClass::Discrete ==> tier_for(gpu) == "small"@,
        p.upscaler is None ==> upscaler_of(r, p) is None,
        p.upscaler matches Some(id) ==> upscaler_of(r, p) == with_id(r.all(), id@),
{
}

/// All models of a registry are those for depth, segmentation, inpainting and upscaling,
/// in this order.
pub proof fn law_all_models_are_looked_at(r: Registry, i: int)
    ensures
        r.all().len() == r.depth@.len() + r.segment@.len() + r.inpaint@.len() + r.upscale@.len(),
        0 <= i < r.depth@.len() ==> r.all()[i] == r.depth@[i]@,
        0 <= i < r.segment@.len() ==> r.all()[r.depth@.len() + i] == r.segment@[i]@,
        0 <= i < r.inpaint@.len() ==> r.all()[r.depth@.len() + r.segment@.len() + i] == r.inpaint@[i]@,
        0 <= i < r.upscale@.len() ==> r.all()[r.depth@.len() + r.segment@.len() + r.inpaint@.len() + i]
            == r.upscale@[i]@,
{
}

} // verus!
