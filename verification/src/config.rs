//! The settings that are kept between runs.
use vstd::prelude::*;
use crate::controller;
use crate::controller::{copy_layers, AppState, LayerInfo, MonitorInfo};
use crate::manifest::{Bits32, ONE_BITS};
use crate::settings;
use crate::settings::scale_to_shader_quality;

verus! {

broadcast use vstd::string::group_string_axioms;

/// What is kept of a monitor.
pub struct MonitorConfig {
    pub id: String,
    pub name: String,
    pub color: String,
    pub layers: Vec<LayerInfo>,
}

/// What is kept of a monitor, by the texts it holds.
#[verifier::ext_equal]
pub struct KeptMonitor {
    pub id: Seq<char>,
    pub name: Seq<char>,
    pub color: Seq<char>,
    pub layers: Seq<controller::LayerText>,
}

impl View for MonitorConfig {
    type V = KeptMonitor;

    open spec fn view(&self) -> KeptMonitor {
        KeptMonitor {
            id: self.id@,
            name: self.name@,
            color: self.color@,
            layers: controller::layer_texts(self.layers@),
        }
    }
}

/// What is kept of the monitors of a list.
pub open spec fn kept_texts(v: Seq<MonitorConfig>) -> Seq<KeptMonitor> {
    Seq::new(v.len(), |i: int| v[i]@)
}

/// What is kept of a monitor: all but its size and place, which the system knows.
pub open spec fn kept_of(m: controller::MonitorText) -> KeptMonitor {
    KeptMonitor { id: m.id, name: m.name, color: m.color, layers: m.layers }
}

/// The settings.
pub struct Config {
    pub theme_mode: String,
    pub span_monitors: bool,
    pub autostart: bool,
    pub target_fps: u32,
    pub audio_sensitivity: Bits32,
    pub mouse_mode: String,
    pub mouse_sensitivity: Bits32,
    pub shader_quality: String,
    pub library_version: String,
    /// In seconds since 1970, zero for never.
    pub last_update_check: i64,
    pub library_sort: String,
    pub monitors: Vec<MonitorConfig>,
}

/// The order of the library at first.
pub fn default_library_sort() -> (r: String)
    ensures
        r@ == "default"@,
{
    "default".to_owned()
}

/// The version of the library that came with the program.
pub fn default_library_version() -> (r: String)
    ensures
        r@ == "1.0.0"@,
{
    "1.0.0".to_owned()
}

/// The limit of the frame rate at first.
pub fn default_target_fps() -> (r: u32)
    ensures
        r == 60,
{
    60
}

/// The audio sensitivity at first: one.
pub fn default_audio_sensitivity() -> (r: Bits32)
    ensures
        r == Bits32(ONE_BITS),
{
    Bits32(ONE_BITS)
}

/// The mouse sensitivity at first: one.
pub fn default_mouse_sensitivity() -> (r: Bits32)
    ensures
        r == Bits32(ONE_BITS),
{
    Bits32(ONE_BITS)
}

/// Which wallpapers follow the mouse at first.
pub fn default_mouse_mode() -> (r: String)
    ensures
        r@ == "On (Only Parallax Studio)"@,
{
    "On (Only Parallax Studio)".to_owned()
}

/// The quality at first.
pub fn default_shader_quality() -> (r: String)
    ensures
        r@ == "High (Maximum Fidelity)"@,
{
    "High (Maximum Fidelity)".to_owned()
}

/// Whether settings are those of a first run.
pub open spec fn is_first_run(c: Config) -> bool {
    &&& c.theme_mode@ == "system"@
    &&& !c.span_monitors
    &&& !c.autostart
    &&& c.target_fps == 60
    &&& c.audio_sensitivity == Bits32(ONE_BITS)
    &&& c.mouse_mode@ == "On (Only Parallax Studio)"@
    &&& c.mouse_sensitivity == Bits32(ONE_BITS)
    &&& c.shader_quality@ == "High (Maximum Fidelity)"@
    &&& c.library_version@ == "1.0.0"@
    &&& c.last_update_check == 0
    &&& c.library_sort@ == "default"@
    &&& c.monitors@.len() == 0
}

impl Config {
    /// The settings that were kept, or those of a first run where there are none that
    /// can be read.
    pub fn load(kept: Option<Config>) -> (c: Config)
        ensures
            kept matches Some(k) ==> c == k,
            kept is None ==> is_first_run(c),
    {
        match kept {
            Some(c) => c,
            None => Config {
                theme_mode: "system".to_owned(),
                span_monitors: false,
                autostart: false,
                target_fps: default_target_fps(),
                audio_sensitivity: default_audio_sensitivity(),
                mouse_mode: default_mouse_mode(),
                mouse_sensitivity: default_mouse_sensitivity(),
                shader_quality: default_shader_quality(),
                library_version: default_library_version(),
                last_update_check: 0,
                library_sort: default_library_sort(),
                monitors: Vec::new(),
            },
        }
    }

    /// Takes over what the user changed; the other settings stay.
    pub fn update_from_state(&mut self, theme_mode: String, span: bool, autostart: bool, monitors: &Vec<MonitorInfo>)
        ensures
            final(self).theme_mode == theme_mode,
            final(self).span_monitors == span,
            final(self).autostart == autostart,
            kept_texts(final(self).monitors@) == Seq::new(
                monitors@.len(),
                |i: int| kept_of(monitors@[i]@),
            ),
            *final(self) == (Config {
                theme_mode,
                span_monitors: span,
                autostart,
                monitors: final(self).monitors,
                ..*old(self)
            }),
    {
        let mut kept: Vec<MonitorConfig> = Vec::new();
        let mut i: usize = 0;
        while i < monitors.len()
            invariant
                i <= monitors.len(),
                kept@.len() == i,
                forall|j: int| 0 <= j < i ==> (#[trigger] kept@[j])@ == kept_of(monitors@[j]@),
            decreases monitors.len() - i,
        {
            let m = &monitors[i];
            kept.push(
                MonitorConfig {
                    id: m.id.clone(),
                    name: m.name.clone(),
                    color: m.color.clone(),
                    layers: copy_layers(&m.layers),
                },
            );
            i = i + 1;
        }
        assert(kept_texts(kept@) =~= Seq::new(monitors@.len(), |i: int| kept_of(monitors@[i]@)));
        self.theme_mode = theme_mode;
        self.span_monitors = span;
        self.autostart = autostart;
        self.monitors = kept;
    }
}

/// Takes over everything that is kept: what the user changed, and the values of the
/// sliders.
pub fn flush_config(
    config: &mut Config,
    state: &AppState,
    target_fps: u32,
    audio_sensitivity: Bits32,
    mouse_mode: &str,
    mouse_sensitivity: Bits32,
    quality_scale: Bits32,
)
    ensures
        final(config).theme_mode@ == state.theme_mode@,
        final(config).mouse_mode@ == mouse_mode@,
        final(config).shader_quality@ == settings::quality_label(quality_scale),
        kept_texts(final(config).monitors@) == Seq::new(
            state.monitors@.len(),
            |i: int| kept_of(state.monitors@[i]@),
        ),
        *final(config) == (Config {
            theme_mode: final(config).theme_mode,
            span_monitors: state.span_monitors,
            autostart: state.autostart,
            target_fps,
            audio_sensitivity,
            mouse_mode: final(config).mouse_mode,
            mouse_sensitivity,
            shader_quality: final(config).shader_quality,
            monitors: final(config).monitors,
            ..*old(config)
        }),
{
    config.update_from_state(state.theme_mode.clone(), state.span_monitors, state.autostart, &state.monitors);
    config.target_fps = target_fps;
    config.audio_sensitivity = audio_sensitivity;
    config.mouse_mode = mouse_mode.to_owned();
    config.mouse_sensitivity = mouse_sensitivity;
    config.shader_quality = scale_to_shader_quality(quality_scale).to_owned();
}

/// What is kept of a monitor are its id, its name, its colour and its layers.
pub proof fn law_monitors_are_kept(m: controller::MonitorText)
    ensures
        kept_of(m).id == m.id,
        kept_of(m).name == m.name,
        kept_of(m).color == m.color,
        kept_of(m).layers == m.layers,
{
}

/// The settings of a first run: nothing is spanned or started by itself, sixty frames a
/// second, full sensitivity and quality, and no monitor has a wallpaper.
pub proof fn law_first_run_is_plain(c: Config)
    requires
        is_first_run(c),
    ensures
        c.theme_mode@ == "system"@,
        !c.span_monitors,
        !c.autostart,
        c.target_fps == 60,
        c.audio_sensitivity == Bits32(0x3f80_0000),
        c.mouse_mode@ == "On (Only Parallax Studio)"@,
        settings::mouse_number(c.mouse_mode@) == 3,
        c.mouse_sensitivity == Bits32(0x3f80_0000),
        c.shader_quality@ == "High (Maximum Fidelity)"@,
        settings::quality_scale(c.shader_quality@) == Bits32(0x3f80_0000),
        c.library_version@ == "1.0.0"@,
        c.last_update_check == 0,
        c.library_sort@ == "default"@,
        c.monitors@.len() == 0,
{
    settings::law_mouse_modes_are_kept(3);
    settings::law_qualities_are_kept(Bits32(settings::FULL_BITS));
}

} // verus!
