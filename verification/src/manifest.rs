//! The description of a wallpaper: its passes, and what each pass samples.
use vstd::prelude::*;
use crate::text;
use crate::text::{chars_of, eq_ignoring_case, rfind_char, str_contains, str_eq, string_of, sub_chars};

verus! {

broadcast use vstd::string::group_string_axioms;

/// A 32-bit float by its bits. The library carries such values and never
/// computes with them.
#[derive(Clone, Copy, PartialEq, Eq, Structural)]
pub struct Bits32(pub u32);

/// The bits of the float 1.
pub const ONE_BITS: u32 = 0x3f80_0000;

/// What a channel of a pass samples.
pub struct BindingConfig {
    pub channel: u32,
    /// `texture`, `cubemap`, `buffer` or `audio`.
    pub binding_type: String,
    /// The file of a texture or cubemap.
    pub path: Option<String>,
    /// The pass whose buffer is sampled.
    pub target: Option<String>,
    /// The file of an audio track.
    pub stream: Option<String>,
    /// `clamp`, or `repeat` when it is missing.
    pub wrap: Option<String>,
}

/// A pass of a wallpaper.
pub struct PassConfig {
    pub source: String,
    pub double_buffered: bool,
    /// `replace` or `alpha`.
    pub blend: String,
    /// The size of the pass relative to the screen.
    pub scale: Bits32,
    pub bindings: Vec<BindingConfig>,
}

/// What a wallpaper says about itself.
pub struct WallpaperInfo {
    pub name: String,
    pub author: String,
    pub version: String,
    /// The page of the original, empty when unknown.
    pub source_url: String,
    pub tags: Vec<String>,
    /// The passes in the order in which they are rendered.
    pub passes: Vec<String>,
    /// The video file of a movie wallpaper, which has no passes.
    pub video: Option<String>,
}

/// A pass under its name.
pub struct RenderTarget {
    pub name: String,
    pub config: PassConfig,
}

/// A wallpaper: what it says about itself, and its passes by name.
pub struct WallpaperConfig {
    pub wallpaper: WallpaperInfo,
    pub render_targets: Vec<RenderTarget>,
}

/// The scale of a pass that does not give one.
pub fn default_scale() -> (r: Bits32)
    ensures
        r == Bits32(ONE_BITS),
{
    Bits32(ONE_BITS)
}

/// The blending of a pass that does not give one.
pub fn default_blend() -> (r: String)
    ensures
        r@ == "replace"@,
{
    "replace".to_owned()
}

// ---------------------------------------------------------------------------
// Passes by name
// ---------------------------------------------------------------------------

/// The names of the described passes.
pub open spec fn target_names(v: Seq<RenderTarget>) -> Seq<Seq<char>> {
    Seq::new(v.len(), |i: int| v[i].name@)
}

impl WallpaperConfig {
    /// No pass is described twice.
    pub open spec fn wf(self) -> bool {
        target_names(self.render_targets@).no_duplicates()
    }

    /// The description of the pass `name`.
    pub open spec fn pass(self, name: Seq<char>) -> Option<PassConfig> {
        let names = target_names(self.render_targets@);
        if names.contains(name) {
            Some(self.render_targets@[choose|i: int| text::first_index(names, name, i)].config)
        } else {
            None
        }
    }

    /// The description of the pass `name`.
    pub fn find_pass(&self, name: &str) -> (r: Option<&PassConfig>)
        ensures
            match r {
                Some(p) => self.pass(name@) == Some(*p),
                None => self.pass(name@) is None,
            },
    {
        let ghost names = target_names(self.render_targets@);
        let mut i: usize = 0;
        while i < self.render_targets.len()
            invariant
                i <= self.render_targets.len(),
                names == target_names(self.render_targets@),
                forall|j: int| 0 <= j < i ==> names[j] != name@,
            decreases self.render_targets.len() - i,
        {
            if str_eq(self.render_targets[i].name.as_str(), name) {
                proof {
                    assert(names[i as int] == name@);
                    assert(text::first_index(names, name@, i as int));
                    let w = choose|w: int| text::first_index(names, name@, w);
                    assert(w == i);
                }
                return Some(&self.render_targets[i].config);
            }
            i = i + 1;
        }
        None
    }
}

// ---------------------------------------------------------------------------
// A folder without a manifest
// ---------------------------------------------------------------------------

/// A binding, by the texts it holds.
#[verifier::ext_equal]
pub struct BindingText {
    pub channel: u32,
    pub kind: Seq<char>,
    pub path: Option<Seq<char>>,
    pub target: Option<Seq<char>>,
    pub stream: Option<Seq<char>>,
    pub wrap: Option<Seq<char>>,
}

impl View for BindingConfig {
    type V = BindingText;

    open spec fn view(&self) -> BindingText {
        BindingText {
            channel: self.channel,
            kind: self.binding_type@,
            path: text::opt_text(self.path),
            target: text::opt_text(self.target),
            stream: text::opt_text(self.stream),
            wrap: text::opt_text(self.wrap),
        }
    }
}

/// The bindings of a list, by the texts they hold.
pub open spec fn binding_texts(v: Seq<BindingConfig>) -> Seq<BindingText> {
    Seq::new(v.len(), |i: int| v[i]@)
}

/// The extension of a file name: what stands behind the last dot, unless that dot
/// is the first character.
pub open spec fn extension(name: Seq<char>) -> Option<Seq<char>> {
    let dot = text::last_index(name, '.');
    if dot > 0 {
        Some(name.subrange(dot + 1, name.len() as int))
    } else {
        None
    }
}

/// The channel that a file name asks for: the first of the names `iChannel0` to
/// `iChannel3` that it contains, and 0 where it contains none.
pub open spec fn channel_in(name: Seq<char>) -> u32 {
    if text::has_text(name, "iChannel0"@) {
        0
    } else if text::has_text(name, "iChannel1"@) {
        1
    } else if text::has_text(name, "iChannel2"@) {
        2
    } else if text::has_text(name, "iChannel3"@) {
        3
    } else {
        0
    }
}

/// The binding that a file of the folder becomes: audio for a track, a texture for
/// an image, nothing for any other file.
pub open spec fn file_binding(name: Seq<char>) -> Option<BindingText> {
    match extension(name) {
        None => None,
        Some(ext) => if text::same_ignoring_case(ext, "mp3"@) || text::same_ignoring_case(ext, "wav"@) {
            Some(
                BindingText {
                    channel: channel_in(name),
                    kind: "audio"@,
                    path: None,
                    target: None,
                    stream: Some(name),
                    wrap: None,
                },
            )
        } else if text::same_ignoring_case(ext, "png"@) || text::same_ignoring_case(ext, "jpg"@)
            || text::same_ignoring_case(ext, "jpeg"@) {
            Some(
                BindingText {
                    channel: channel_in(name),
                    kind: "texture"@,
                    path: Some(name),
                    target: None,
                    stream: None,
                    wrap: None,
                },
            )
        } else {
            None
        },
    }
}

/// The bindings that the files of a folder become, in the order of the files.
pub open spec fn file_bindings(names: Seq<Seq<char>>) -> Seq<BindingText>
    decreases names.len(),
{
    if names.len() == 0 {
        Seq::empty()
    } else {
        let before = file_bindings(names.drop_last());
        match file_binding(names.last()) {
            Some(b) => before.push(b),
            None => before,
        }
    }
}

/// The extension of a file name.
pub fn file_extension(name: &str) -> (r: Option<String>)
    ensures
        text::opt_text(r) == extension(name@),
{
    let n = chars_of(name);
    match rfind_char(&n, '.') {
        Some(dot) => {
            if dot > 0 {
                let end: usize = n.len();
                Some(string_of(&sub_chars(&n, dot + 1, end)))
            } else {
                None
            }
        },
        None => None,
    }
}

fn channel_of(name: &str) -> (r: u32)
    ensures
        r == channel_in(name@),
{
    if str_contains(name, "iChannel0") {
        0
    } else if str_contains(name, "iChannel1") {
        1
    } else if str_contains(name, "iChannel2") {
        2
    } else if str_contains(name, "iChannel3") {
        3
    } else {
        0
    }
}

fn bind_file(name: &str) -> (r: Option<BindingConfig>)
    ensures
        match r {
            Some(b) => file_binding(name@) == Some(b@),
            None => file_binding(name@) is None,
        },
{
    match file_extension(name) {
        None => None,
        Some(e) => {
            let ext = e.as_str();
            if eq_ignoring_case(ext, "mp3") || eq_ignoring_case(ext, "wav") {
                Some(
                    BindingConfig {
                        channel: channel_of(name),
                        binding_type: "audio".to_owned(),
                        path: None,
                        target: None,
                        stream: Some(name.to_owned()),
                        wrap: None,
                    },
                )
            } else if eq_ignoring_case(ext, "png") || eq_ignoring_case(ext, "jpg") || eq_ignoring_case(ext, "jpeg") {
                Some(
                    BindingConfig {
                        channel: channel_of(name),
                        binding_type: "texture".to_owned(),
                        path: Some(name.to_owned()),
                        target: None,
                        stream: None,
                        wrap: None,
                    },
                )
            } else {
                None
            }
        },
    }
}

fn bind_files(names: &Vec<String>) -> (r: Vec<BindingConfig>)
    ensures
        binding_texts(r@) == file_bindings(text::texts(names@)),
{
    let mut out: Vec<BindingConfig> = Vec::new();
    let ghost all = text::texts(names@);
    let mut i: usize = 0;
    assert(all.subrange(0, 0) =~= Seq::<Seq<char>>::empty());
    assert(binding_texts(out@) =~= Seq::<BindingText>::empty());
    while i < names.len()
        invariant
            i <= names.len(),
            all == text::texts(names@),
            binding_texts(out@) == file_bindings(all.subrange(0, i as int)),
        decreases names.len() - i,
    {
        assert(all.subrange(0, i + 1).drop_last() =~= all.subrange(0, i as int));
        match bind_file(names[i].as_str()) {
            Some(b) => {
                let ghost before = out@;
                let ghost bt = b@;
                out.push(b);
                assert(binding_texts(out@) =~= binding_texts(before).push(bt));
            },
            None => {},
        }
        i = i + 1;
    }
    assert(all.subrange(0, names@.len() as int) =~= all);
    out
}

/// Where the description of a wallpaper comes from.
pub enum ManifestSource {
    /// From the manifest in its folder.
    File,
    /// From the contents of its folder.
    Built(WallpaperConfig),
}

/// Whether a wallpaper is the one described by the files of a folder alone: a
/// single image pass with the folder's tracks and images bound to its channels.
pub open spec fn built_from(c: WallpaperConfig, folder: Seq<char>, files: Seq<Seq<char>>) -> bool {
    &&& c.wallpaper.name@ == folder
    &&& c.wallpaper.author@ == "Unknown"@
    &&& c.wallpaper.version@ == "1.0.0"@
    &&& c.wallpaper.source_url@ == Seq::<char>::empty()
    &&& c.wallpaper.tags@.len() == 0
    &&& text::texts(c.wallpaper.passes@) == seq!["image"@]
    &&& c.wallpaper.video is None
    &&& c.render_targets@.len() == 1
    &&& c.render_targets@[0].name@ == "image"@
    &&& c.render_targets@[0].config.source@ == "image.glsl"@
    &&& !c.render_targets@[0].config.double_buffered
    &&& c.render_targets@[0].config.blend@ == "replace"@
    &&& c.render_targets@[0].config.scale == Bits32(ONE_BITS)
    &&& binding_texts(c.render_targets@[0].config.bindings@) == file_bindings(files)
}

impl WallpaperConfig {
    /// The description of the wallpaper in a folder: its manifest where there is
    /// one, otherwise what its files give where there is an `image.glsl`. `shown` is
    /// the folder as it appears in the error, `folder` its name.
    pub fn load_from_dir(
        shown: &str,
        folder: Option<&str>,
        has_manifest: bool,
        has_image: bool,
        files: &Vec<String>,
    ) -> (r: Result<ManifestSource, String>)
        ensures
            match r {
                Ok(ManifestSource::File) => has_manifest,
                Ok(ManifestSource::Built(c)) => {
                    &&& !has_manifest && has_image
                    &&& c.wf()
                    &&& built_from(
                        c,
                        match folder {
                            Some(f) => f@,
                            None => "Dynamic Wallpaper"@,
                        },
                        text::texts(files@),
                    )
                },
                Err(e) => {
                    &&& !has_manifest && !has_image
                    &&& e@ == "No manifest.toml or image.glsl found in "@ + shown@
                },
            },
    {
        if has_manifest {
            return Ok(ManifestSource::File);
        }
        if !has_image {
            let mut e = "No manifest.toml or image.glsl found in ".to_owned();
            e.append(shown);
            return Err(e);
        }
        let name = match folder {
            Some(f) => f.to_owned(),
            None => "Dynamic Wallpaper".to_owned(),
        };
        let config = PassConfig {
            source: "image.glsl".to_owned(),
            double_buffered: false,
            blend: default_blend(),
            scale: default_scale(),
            bindings: bind_files(files),
        };
        let mut render_targets: Vec<RenderTarget> = Vec::new();
        render_targets.push(RenderTarget { name: "image".to_owned(), config });
        let mut passes: Vec<String> = Vec::new();
        passes.push("image".to_owned());
        assert(text::texts(passes@) =~= seq!["image"@]);
        let wallpaper = WallpaperInfo {
            name,
            author: "Unknown".to_owned(),
            version: "1.0.0".to_owned(),
            source_url: String::new(),
            tags: Vec::new(),
            passes,
            video: None,
        };
        Ok(ManifestSource::Built(WallpaperConfig { wallpaper, render_targets }))
    }
}

/// A pass is found by its name: the first description with that name is its own, and a
/// name that nothing is described under has none.
pub proof fn law_passes_are_found_by_name(config: WallpaperConfig, t: int)
    requires
        0 <= t < config.render_targets@.len(),
        forall|j: int| 0 <= j < t ==> (#[trigger] config.render_targets@[j]).name@ != config.render_targets@[t].name@,
    ensures
        config.pass(config.render_targets@[t].name@) == Some(config.render_targets@[t].config),
        forall|name: Seq<char>|
            (forall|j: int| 0 <= j < config.render_targets@.len() ==> (#[trigger] config.render_targets@[j]).name@ != name)
                ==> #[trigger] config.pass(name) is None,
{
    let names = target_names(config.render_targets@);
    let name = config.render_targets@[t].name@;
    assert(names[t] == name);
    assert forall|j: int| 0 <= j < t implies names[j] != name by {
        assert(config.render_targets@[j].name@ != name);
    }
    assert(text::first_index(names, name, t));
    text::lemma_pos(names, name, t);
    assert forall|other: Seq<char>|
        (forall|j: int| 0 <= j < config.render_targets@.len() ==> (#[trigger] config.render_targets@[j]).name@ != other)
        implies #[trigger] config.pass(other) is None by {
        if names.contains(other) {
            let k = choose|k: int| 0 <= k < names.len() && names[k] == other;
            assert(config.render_targets@[k].name@ == other);
        }
    }
}

/// The extension of a file name is what stands behind its last dot.
pub proof fn law_extensions_stand_behind_the_dot(base: Seq<char>, ext: Seq<char>)
    requires
        !ext.contains('.'),
    ensures
        base.len() > 0 ==> extension(base + seq!['.'] + ext) == Some(ext),
        base.len() == 0 ==> extension(base + seq!['.'] + ext) is None,
        extension(ext) is None,
{
    let name = base + seq!['.'] + ext;
    assert(name[base.len() as int] == '.');
    assert forall|i: int| base.len() < i < name.len() implies name[i] != '.' by {
        assert(name[i] == ext[i - base.len() - 1]);
    }
    text::law_last_index_is_last(name, '.', base.len() as int);
    assert(name.subrange((base.len() + 1) as int, name.len() as int) =~= ext);
    text::law_missing_character_has_no_index(ext, '.');
}

/// The files of a folder without a manifest become the channels of its shader: a track
/// becomes audio and an image becomes a texture, each under its own name, and no other file
/// becomes anything.
pub proof fn law_files_become_channels(base: Seq<char>, ext: Seq<char>)
    requires
        base.len() > 0,
        !ext.contains('.'),
    ensures
        ({
            let name = base + seq!['.'] + ext;
            let track = text::same_ignoring_case(ext, "mp3"@) || text::same_ignoring_case(ext, "wav"@);
            let image = text::same_ignoring_case(ext, "png"@) || text::same_ignoring_case(ext, "jpg"@)
                || text::same_ignoring_case(ext, "jpeg"@);
            &&& track ==> (file_binding(name) matches Some(b) && b.kind == "audio"@ && b.stream == Some(name) && b.path
                is None)
            &&& image && !track ==> (file_binding(name) matches Some(b) && b.kind == "texture"@ && b.path == Some(name)
                && b.stream is None)
            &&& !track && !image ==> file_binding(name) is None
            &&& file_binding(name) matches Some(b) ==> b.target is None && b.wrap is None && b.channel < 4
        }),
{
    law_extensions_stand_behind_the_dot(base, ext);
}

/// A file that names a channel is bound to it, and one that names none to the first.
pub proof fn law_files_name_their_channels(name: Seq<char>)
    ensures
        channel_in(name) == 1 ==> text::has_text(name, "iChannel1"@),
        channel_in(name) == 2 ==> text::has_text(name, "iChannel2"@),
        channel_in(name) == 3 ==> text::has_text(name, "iChannel3"@),
        channel_in(name) <= 3,
        text::has_text(name, "iChannel0"@) ==> channel_in(name) == 0,
        text::has_text(name, "iChannel1"@) && !text::has_text(name, "iChannel0"@) ==> channel_in(name) == 1,
        text::has_text(name, "iChannel2"@) && !text::has_text(name, "iChannel0"@) && !text::has_text(name, "iChannel1"@)
            ==> channel_in(name) == 2,
        text::has_text(name, "iChannel3"@) && !text::has_text(name, "iChannel0"@) && !text::has_text(name, "iChannel1"@)
            && !text::has_text(name, "iChannel2"@) ==> channel_in(name) == 3,
{
}

/// Every file that becomes a binding is among the bindings of the folder, and nothing else
/// is.
pub proof fn law_all_files_are_bound(names: Seq<Seq<char>>, b: BindingText)
    ensures
        file_bindings(names).contains(b) <==> exists|i: int|
            0 <= i < names.len() && file_binding(#[trigger] names[i]) == Some(b),
    decreases names.len(),
{
    if names.len() > 0 {
        let d = names.drop_last();
        let before = file_bindings(d);
        let all = file_bindings(names);
        law_all_files_are_bound(d, b);
        assert(names[names.len() - 1] == names.last());
        assert(forall|i: int| 0 <= i < d.len() ==> d[i] == names[i]);
        if before.contains(b) {
            let i = choose|i: int| 0 <= i < before.len() && before[i] == b;
            assert(all[i] == b);
            let k = choose|k: int| 0 <= k < d.len() && file_binding(#[trigger] d[k]) == Some(b);
            assert(file_binding(names[k]) == Some(b));
        }
        if file_binding(names.last()) is Some {
            assert(all[before.len() as int] == file_binding(names.last())->0);
        }
        if all.contains(b) && !before.contains(b) {
            let i = choose|i: int| 0 <= i < all.len() && all[i] == b;
            if i < before.len() {
                assert(before[i] == b);
            }
            assert(file_binding(names[names.len() - 1]) == Some(b));
        }
        if exists|i: int| 0 <= i < names.len() && file_binding(#[trigger] names[i]) == Some(b) {
            let i = choose|i: int| 0 <= i < names.len() && file_binding(#[trigger] names[i]) == Some(b);
            if i < d.len() {
                assert(file_binding(d[i]) == Some(b));
            }
        }
    }
}

/// A folder without a manifest is described by its files: a wallpaper that is called as
/// the folder, with one pass that shows its image source in full size, and with its tracks
/// and pictures bound.
pub proof fn law_folders_describe_themselves(c: WallpaperConfig, folder: Seq<char>, files: Seq<Seq<char>>)
    requires
        built_from(c, folder, files),
    ensures
        c.wallpaper.name@ == folder,
        c.wallpaper.author@ == "Unknown"@,
        c.wallpaper.version@ == "1.0.0"@,
        c.wallpaper.source_url@.len() == 0,
        c.wallpaper.tags@.len() == 0,
        c.wallpaper.video is None,
        text::texts(c.wallpaper.passes@) == seq!["image"@],
        c.render_targets@.len() == 1,
        c.render_targets@[0].name@ == "image"@,
        c.render_targets@[0].config.source@ == "image.glsl"@,
        !c.render_targets@[0].config.double_buffered,
        c.render_targets@[0].config.blend@ == "replace"@,
        c.render_targets@[0].config.scale == Bits32(0x3f80_0000),
        forall|b: BindingText|
            #[trigger] binding_texts(c.render_targets@[0].config.bindings@).contains(b) <==> exists|i: int|
                0 <= i < files.len() && file_binding(#[trigger] files[i]) == Some(b),
{
    assert forall|b: BindingText| #[trigger]
        binding_texts(c.render_targets@[0].config.bindings@).contains(b) <==> exists|i: int|
            0 <= i < files.len() && file_binding(#[trigger] files[i]) == Some(b) by {
        law_all_files_are_bound(files, b);
    }
}

} // verus!
