//! Assigning wallpapers to monitors and editing their layers.
use vstd::prelude::*;
use crate::config;
use crate::config::MonitorConfig;
use crate::controller;
use crate::controller::{copy_layers, primary_position, AppState, LayerInfo, MonitorInfo, WallpaperEntry};
use crate::lists;
use crate::manifest::{Bits32, ONE_BITS};
use crate::paths;
use crate::paths::Location;
use crate::renderer::Rect32;
use crate::settings;
use crate::settings::default_monitor_color;
use crate::text;
use crate::text::{chars_of, str_eq};

verus! {

broadcast use vstd::string::group_string_axioms;

// ---------------------------------------------------------------------------
// Movies
// ---------------------------------------------------------------------------

/// A movie wallpaper: its folder and its video file.
pub struct Movie {
    pub pack: Location,
    pub file: Location,
}

/// The video file of a wallpaper, if it is a movie.
pub open spec fn movie_file(movies: Seq<Movie>, path: Seq<Seq<char>>) -> Option<Seq<Seq<char>>>
    decreases movies.len(),
{
    if movies.len() == 0 {
        None
    } else if movies[0].pack@ == path {
        Some(movies[0].file@)
    } else {
        movie_file(movies.subrange(1, movies.len() as int), path)
    }
}

/// Whether a wallpaper is a movie, rather than a shader.
pub open spec fn is_movie(movies: Seq<Movie>, path: Seq<Seq<char>>) -> bool {
    movie_file(movies, path) is Some
}

/// The video file of a wallpaper, if it is a movie.
pub fn find_movie(movies: &Vec<Movie>, path: &Location) -> (r: Option<Location>)
    ensures
        paths::opt_view(r) == movie_file(movies@, path@),
{
    let ghost all = movies@;
    let mut i: usize = 0;
    assert(all.subrange(0, all.len() as int) =~= all);
    while i < movies.len()
        invariant
            i <= movies.len(),
            all == movies@,
            movie_file(all, path@) == movie_file(all.subrange(i as int, all.len() as int), path@),
        decreases movies.len() - i,
    {
        let ghost rest = all.subrange(i as int, all.len() as int);
        assert(rest.subrange(1, rest.len() as int) =~= all.subrange(i + 1, all.len() as int));
        if movies[i].pack.same(path) {
            return Some(movies[i].file.copy());
        }
        i = i + 1;
    }
    None
}

/// Whether a list of layers holds a movie.
pub open spec fn some_movie(movies: Seq<Movie>, layers: Seq<controller::LayerText>) -> bool {
    exists|i: int| 0 <= i < layers.len() && is_movie(movies, (#[trigger] layers[i]).path)
}

/// Whether a list of layers holds a shader.
pub open spec fn some_shader(movies: Seq<Movie>, layers: Seq<controller::LayerText>) -> bool {
    exists|i: int| 0 <= i < layers.len() && !is_movie(movies, (#[trigger] layers[i]).path)
}

/// Whether a list of layers holds a wallpaper.
pub open spec fn shows(layers: Seq<controller::LayerText>, path: Seq<Seq<char>>) -> bool {
    exists|i: int| 0 <= i < layers.len() && (#[trigger] layers[i]).path == path
}

/// Whether a list of layers holds a movie.
pub fn has_movie(movies: &Vec<Movie>, layers: &Vec<LayerInfo>) -> (r: bool)
    ensures
        r == some_movie(movies@, controller::layer_texts(layers@)),
{
    let ghost ls = controller::layer_texts(layers@);
    let mut i: usize = 0;
    while i < layers.len()
        invariant
            i <= layers.len(),
            ls == controller::layer_texts(layers@),
            forall|j: int| 0 <= j < i ==> !is_movie(movies@, (#[trigger] ls[j]).path),
        decreases layers.len() - i,
    {
        assert(ls[i as int].path == layers@[i as int].wallpaper_path@);
        if find_movie(movies, &layers[i].wallpaper_path).is_some() {
            return true;
        }
        i = i + 1;
    }
    false
}

/// Whether a list of layers holds a shader.
pub fn has_shader(movies: &Vec<Movie>, layers: &Vec<LayerInfo>) -> (r: bool)
    ensures
        r == some_shader(movies@, controller::layer_texts(layers@)),
{
    let ghost ls = controller::layer_texts(layers@);
    let mut i: usize = 0;
    while i < layers.len()
        invariant
            i <= layers.len(),
            ls == controller::layer_texts(layers@),
            forall|j: int| 0 <= j < i ==> is_movie(movies@, (#[trigger] ls[j]).path),
        decreases layers.len() - i,
    {
        assert(ls[i as int].path == layers@[i as int].wallpaper_path@);
        if find_movie(movies, &layers[i].wallpaper_path).is_none() {
            return true;
        }
        i = i + 1;
    }
    false
}

/// The place of a wallpaper in a list of layers.
pub open spec fn layer_place(layers: Seq<controller::LayerText>, path: Seq<Seq<char>>) -> Option<int> {
    lists::first_where(layers, |l: controller::LayerText| l.path == path)
}

fn find_layer(layers: &Vec<LayerInfo>, path: &Location) -> (r: Option<usize>)
    ensures
        match r {
            Some(i) => layer_place(controller::layer_texts(layers@), path@) == Some(i as int) && i < layers@.len(),
            None => layer_place(controller::layer_texts(layers@), path@) is None,
        },
        r is Some == shows(controller::layer_texts(layers@), path@),
{
    let ghost ls = controller::layer_texts(layers@);
    let ghost p = |l: controller::LayerText| l.path == path@;
    let mut i: usize = 0;
    while i < layers.len()
        invariant
            i <= layers.len(),
            ls == controller::layer_texts(layers@),
            p == (|l: controller::LayerText| l.path == path@),
            forall|j: int| 0 <= j < i ==> !p(#[trigger] ls[j]),
        decreases layers.len() - i,
    {
        assert(ls[i as int].path == layers@[i as int].wallpaper_path@);
        if layers[i].wallpaper_path.same(path) {
            proof {
                lists::lemma_first(ls, p, i as int);
            }
            return Some(i);
        }
        assert(!p(ls[i as int]));
        i = i + 1;
    }
    proof {
        lists::lemma_no_first(ls, p);
        assert forall|j: int| 0 <= j < ls.len() implies (#[trigger] ls[j]).path != path@ by {
            assert(!p(ls[j]));
        }
    }
    None
}

/// The layers of a list that are shaders.
pub open spec fn shaders_of(movies: Seq<Movie>, layers: Seq<controller::LayerText>) -> Seq<controller::LayerText>
    decreases layers.len(),
{
    if layers.len() == 0 {
        Seq::empty()
    } else if is_movie(movies, layers.last().path) {
        shaders_of(movies, layers.drop_last())
    } else {
        shaders_of(movies, layers.drop_last()).push(layers.last())
    }
}

fn push_layer(v: &mut Vec<LayerInfo>, l: LayerInfo)
    ensures
        controller::layer_texts(final(v)@) == controller::layer_texts(old(v)@).push(l@),
{
    let ghost lv = l@;
    v.push(l);
    assert(controller::layer_texts(v@) =~= controller::layer_texts(old(v)@).push(lv));
}

/// The layers of a list that are shaders.
pub fn shader_layers(movies: &Vec<Movie>, layers: &Vec<LayerInfo>) -> (r: Vec<LayerInfo>)
    ensures
        controller::layer_texts(r@) == shaders_of(movies@, controller::layer_texts(layers@)),
{
    let ghost ls = controller::layer_texts(layers@);
    let mut r: Vec<LayerInfo> = Vec::new();
    let mut i: usize = 0;
    assert(ls.subrange(0, 0) =~= Seq::empty());
    assert(controller::layer_texts(r@) =~= Seq::empty());
    while i < layers.len()
        invariant
            i <= layers.len(),
            ls == controller::layer_texts(layers@),
            controller::layer_texts(r@) == shaders_of(movies@, ls.subrange(0, i as int)),
        decreases layers.len() - i,
    {
        assert(ls.subrange(0, i + 1).drop_last() =~= ls.subrange(0, i as int));
        assert(ls.subrange(0, i + 1).last() == layers@[i as int]@);
        if find_movie(movies, &layers[i].wallpaper_path).is_none() {
            push_layer(&mut r, layers[i].copy());
        }
        i = i + 1;
    }
    assert(ls.subrange(0, i as int) =~= ls);
    r
}

// ---------------------------------------------------------------------------
// Applying a wallpaper
// ---------------------------------------------------------------------------

/// Whether two states differ at most in the layers, names and colours of the monitors.
pub open spec fn same_but_monitors(a: AppState, b: AppState) -> bool {
    &&& a.wallpapers == b.wallpapers
    &&& a.theme_mode == b.theme_mode
    &&& a.span_monitors == b.span_monitors
    &&& a.autostart == b.autostart
}

/// A monitor with other layers.
pub open spec fn with_layers(m: controller::MonitorText, layers: Seq<controller::LayerText>) -> controller::MonitorText {
    controller::MonitorText { layers, ..m }
}

/// The monitors, one of them with other layers.
pub open spec fn set_layers(
    ms: Seq<controller::MonitorText>,
    i: int,
    layers: Seq<controller::LayerText>,
) -> Seq<controller::MonitorText> {
    ms.update(i, with_layers(ms[i], layers))
}

fn put_layers(state: &mut AppState, i: usize, layers: Vec<LayerInfo>)
    requires
        i < old(state).monitors@.len(),
    ensures
        same_but_monitors(*final(state), *old(state)),
        controller::monitor_texts(final(state).monitors@) == set_layers(
            controller::monitor_texts(old(state).monitors@),
            i as int,
            controller::layer_texts(layers@),
        ),
{
    let ghost before = state.monitors@;
    let ghost lt = controller::layer_texts(layers@);
    state.monitors[i].layers = layers;
    assert(controller::monitor_texts(state.monitors@) =~= set_layers(
        controller::monitor_texts(before),
        i as int,
        lt,
    ));
}

/// The place of the wallpaper with the given name.
pub open spec fn wallpaper_place(ws: Seq<controller::EntryText>, name: Seq<char>) -> Option<int> {
    lists::first_where(ws, |w: controller::EntryText| w.name == name)
}

fn find_wallpaper(ws: &Vec<WallpaperEntry>, name: &str) -> (r: Option<usize>)
    ensures
        match r {
            Some(i) => wallpaper_place(controller::entry_texts(ws@), name@) == Some(i as int) && i < ws@.len()
                && ws@[i as int].name@ == name@,
            None => wallpaper_place(controller::entry_texts(ws@), name@) is None,
        },
{
    let ghost es = controller::entry_texts(ws@);
    let ghost p = |w: controller::EntryText| w.name == name@;
    let mut i: usize = 0;
    while i < ws.len()
        invariant
            i <= ws.len(),
            es == controller::entry_texts(ws@),
            p == (|w: controller::EntryText| w.name == name@),
            forall|j: int| 0 <= j < i ==> !p(#[trigger] es[j]),
        decreases ws.len() - i,
    {
        if str_eq(ws[i].name.as_str(), name) {
            proof {
                lists::lemma_first(es, p, i as int);
            }
            return Some(i);
        }
        assert(!p(es[i as int]));
        i = i + 1;
    }
    proof {
        lists::lemma_no_first(es, p);
    }
    None
}

/// What is asked before a movie takes the place of shaders that span the monitors.
pub const SPAN_CONFLICT: &'static str = "Compositing shaders with movie-based wallpapers is not supported. Applying this movie wallpaper will remove the shader layers spanning your displays.";

/// What is asked before a movie takes the place of shaders.
pub const MOVIE_CONFLICT: &'static str = "Compositing shaders with movie-based wallpapers is not supported. Applying this movie wallpaper will remove the current shader layers on ";

/// What is asked before a shader takes the place of a movie.
pub const SHADER_CONFLICT: &'static str = "Compositing shaders with movie-based wallpapers is not supported. Applying this shader will remove the current movie wallpaper on ";

/// Whether the primary monitor has a shader.
pub open spec fn primary_shader(movies: Seq<Movie>, ms: Seq<controller::MonitorText>) -> bool {
    match controller::primary_index(ms) {
        Some(i) => some_shader(movies, ms[i].layers),
        None => false,
    }
}

/// What is asked before a wallpaper is applied to a monitor, if that removes
/// wallpapers of the other kind.
pub open spec fn conflict(
    movies: Seq<Movie>,
    span: bool,
    ms: Seq<controller::MonitorText>,
    i: int,
    path: Seq<Seq<char>>,
) -> Option<Seq<char>> {
    if shows(ms[i].layers, path) {
        None
    } else if is_movie(movies, path) && span && primary_shader(movies, ms) {
        Some(SPAN_CONFLICT@)
    } else if is_movie(movies, path) && some_shader(movies, ms[i].layers) {
        Some(MOVIE_CONFLICT@ + ms[i].name + "."@)
    } else if !is_movie(movies, path) && some_movie(movies, ms[i].layers) {
        Some(SHADER_CONFLICT@ + ms[i].name + "."@)
    } else {
        None
    }
}

fn primary_has_shader(movies: &Vec<Movie>, monitors: &Vec<MonitorInfo>) -> (r: bool)
    ensures
        r == primary_shader(movies@, controller::monitor_texts(monitors@)),
{
    match primary_position(monitors) {
        Some(i) => has_shader(movies, &monitors[i].layers),
        None => false,
    }
}

/// What is asked before a wallpaper is applied to a monitor, if anything is.
pub fn apply_conflict(state: &AppState, movies: &Vec<Movie>, monitor: usize, wallpaper: &str) -> (r: Option<String>)
    ensures
        text::opt_text(r) == (match wallpaper_place(
            controller::entry_texts(state.wallpapers@),
            wallpaper@,
        ) {
            Some(k) => if monitor < state.monitors@.len() {
                conflict(
                    movies@,
                    state.span_monitors,
                    controller::monitor_texts(state.monitors@),
                    monitor as int,
                    state.wallpapers@[k].path@,
                )
            } else {
                None
            },
            None => None,
        }),
{
    let k: usize = match find_wallpaper(&state.wallpapers, wallpaper) {
        Some(k) => k,
        None => {
            return None;
        },
    };
    if monitor >= state.monitors.len() {
        return None;
    }
    let path = &state.wallpapers[k].path;
    let m = &state.monitors[monitor];
    assert(controller::monitor_texts(state.monitors@)[monitor as int] == m@);
    if find_layer(&m.layers, path).is_some() {
        return None;
    }
    let movie = find_movie(movies, path).is_some();
    if movie && state.span_monitors && primary_has_shader(movies, &state.monitors) {
        return Some(SPAN_CONFLICT.to_owned());
    }
    if movie && has_shader(movies, &m.layers) {
        let mut s = MOVIE_CONFLICT.to_owned();
        s.append(m.name.as_str());
        s.append(".");
        return Some(s);
    }
    if !movie && has_movie(movies, &m.layers) {
        let mut s = SHADER_CONFLICT.to_owned();
        s.append(m.name.as_str());
        s.append(".");
        return Some(s);
    }
    None
}

/// The place of the monitor whose layers span the others: the one that the system
/// marks as primary, else the first.
pub open spec fn spanning_index(ms: Seq<controller::MonitorText>) -> int {
    match lists::first_where(ms, |m: controller::MonitorText| m.is_primary) {
        Some(i) => i,
        None => 0,
    }
}

/// The monitors after a movie ended span mode: the layers that spanned them are gone.
pub open spec fn unspanned(ms: Seq<controller::MonitorText>) -> Seq<controller::MonitorText> {
    let i = spanning_index(ms);
    if i < ms.len() {
        set_layers(ms, i, Seq::empty())
    } else {
        ms
    }
}

/// Whether applying a wallpaper to a monitor ends span mode.
pub open spec fn ends_span(
    movies: Seq<Movie>,
    span: bool,
    ms: Seq<controller::MonitorText>,
    i: int,
    path: Seq<Seq<char>>,
) -> bool {
    is_movie(movies, path) && span && !(0 <= i < ms.len() && shows(ms[i].layers, path))
}

/// The layers of a monitor after a wallpaper was applied to it: it is taken off where
/// it was there; else it comes on top, a movie in place of everything and a shader in
/// place of a movie.
pub open spec fn applied_layers(
    movies: Seq<Movie>,
    layers: Seq<controller::LayerText>,
    path: Seq<Seq<char>>,
    name: Seq<char>,
) -> Seq<controller::LayerText> {
    match layer_place(layers, path) {
        Some(k) => layers.remove(k),
        None => if is_movie(movies, path) {
            seq![controller::fresh_layer(path, name)]
        } else {
            seq![controller::fresh_layer(path, name)] + shaders_of(movies, layers)
        },
    }
}

/// The monitors after a wallpaper was applied to one of them.
pub open spec fn applied(
    movies: Seq<Movie>,
    span: bool,
    ms: Seq<controller::MonitorText>,
    i: int,
    path: Seq<Seq<char>>,
    name: Seq<char>,
) -> Seq<controller::MonitorText> {
    let free = if ends_span(movies, span, ms, i, path) {
        unspanned(ms)
    } else {
        ms
    };
    if 0 <= i < ms.len() {
        set_layers(free, i, applied_layers(movies, free[i].layers, path, name))
    } else {
        free
    }
}

/// What the user is told about a change.
pub struct Note {
    pub title: String,
    pub text: String,
}

fn fresh_info(path: &Location, name: &str) -> (l: LayerInfo)
    ensures
        l@ == controller::fresh_layer(path@, name@),
{
    LayerInfo {
        wallpaper_path: path.copy(),
        name: name.to_owned(),
        opacity: Bits32(ONE_BITS),
        resolution_scale: Bits32(ONE_BITS),
        positioning: "Fill".to_owned(),
        transform: Rect32 { x: Bits32(0), y: Bits32(0), w: Bits32(ONE_BITS), h: Bits32(ONE_BITS) },
        visible: true,
        blend_mode: "normal".to_owned(),
    }
}

fn without_layer(layers: &Vec<LayerInfo>, k: usize) -> (r: Vec<LayerInfo>)
    requires
        k < layers@.len(),
    ensures
        controller::layer_texts(r@) == controller::layer_texts(layers@).remove(k as int),
{
    let mut r = copy_layers(layers);
    let ghost before = controller::layer_texts(r@);
    assert(r@.len() == before.len());
    r.remove(k);
    assert(controller::layer_texts(r@) =~= before.remove(k as int));
    r
}

fn apply_layers(movies: &Vec<Movie>, layers: &Vec<LayerInfo>, path: &Location, name: &str) -> (r: Vec<LayerInfo>)
    ensures
        controller::layer_texts(r@) == applied_layers(
            movies@,
            controller::layer_texts(layers@),
            path@,
            name@,
        ),
{
    match find_layer(layers, path) {
        Some(k) => without_layer(layers, k),
        None => {
            let mut r: Vec<LayerInfo> = Vec::new();
            assert(controller::layer_texts(r@) =~= Seq::empty());
            push_layer(&mut r, fresh_info(path, name));
            assert(controller::layer_texts(r@) =~= seq![controller::fresh_layer(path@, name@)]);
            if find_movie(movies, path).is_none() {
                let ghost before = r@;
                let mut rest = shader_layers(movies, layers);
                let ghost tail = rest@;
                r.append(&mut rest);
                assert(controller::layer_texts(r@) =~= controller::layer_texts(before)
                    + controller::layer_texts(tail));
            }
            r
        },
    }
}

fn spanning_position(monitors: &Vec<MonitorInfo>) -> (r: usize)
    ensures
        r == spanning_index(controller::monitor_texts(monitors@)),
{
    let ghost ms = controller::monitor_texts(monitors@);
    let ghost p = |m: controller::MonitorText| m.is_primary;
    let mut i: usize = 0;
    while i < monitors.len()
        invariant
            i <= monitors.len(),
            ms == controller::monitor_texts(monitors@),
            p == (|m: controller::MonitorText| m.is_primary),
            forall|j: int| 0 <= j < i ==> !p(#[trigger] ms[j]),
        decreases monitors.len() - i,
    {
        if monitors[i].is_primary {
            proof {
                lists::lemma_first(ms, p, i as int);
            }
            return i;
        }
        assert(!p(ms[i as int]));
        i = i + 1;
    }
    proof {
        lists::lemma_no_first(ms, p);
    }
    0
}

/// The note about a wallpaper that was applied or taken off.
pub open spec fn apply_note(added: bool, span: bool, wallpaper: Seq<char>, monitor: Seq<char>) -> (Seq<char>, Seq<char>) {
    if added {
        (
            "Engine Synchronizing"@,
            if span {
                "Shader deployed to all monitors (Spanned mode)."@
            } else {
                wallpaper + " applied to "@ + monitor + "."@
            },
        )
    } else {
        ("Shader Removed"@, wallpaper + " removed from "@ + monitor + "."@)
    }
}

fn write_apply_note(added: bool, span: bool, wallpaper: &str, monitor: &str) -> (r: Note)
    ensures
        (r.title@, r.text@) == apply_note(added, span, wallpaper@, monitor@),
{
    if added {
        let line = if span {
            "Shader deployed to all monitors (Spanned mode).".to_owned()
        } else {
            let mut s = wallpaper.to_owned();
            s.append(" applied to ");
            s.append(monitor);
            s.append(".");
            s
        };
        Note { title: "Engine Synchronizing".to_owned(), text: line }
    } else {
        let mut s = wallpaper.to_owned();
        s.append(" removed from ");
        s.append(monitor);
        s.append(".");
        Note { title: "Shader Removed".to_owned(), text: s }
    }
}

/// Applies a wallpaper to a monitor, or takes it off where it is already there. Gives
/// the note for the user where something changed on that monitor.
pub fn apply_to_monitor(state: &mut AppState, movies: &Vec<Movie>, monitor: usize, wallpaper: &str) -> (r: Option<
    Note,
>)
    ensures
        match wallpaper_place(controller::entry_texts(old(state).wallpapers@), wallpaper@) {
            Some(k) => {
                let path = old(state).wallpapers@[k].path@;
                let ms = controller::monitor_texts(old(state).monitors@);
                let ends = ends_span(movies@, old(state).span_monitors, ms, monitor as int, path);
                &&& controller::monitor_texts(final(state).monitors@) == applied(
                    movies@,
                    old(state).span_monitors,
                    ms,
                    monitor as int,
                    path,
                    wallpaper@,
                )
                &&& final(state).span_monitors == (old(state).span_monitors && !ends)
                &&& final(state).wallpapers == old(state).wallpapers
                &&& final(state).theme_mode == old(state).theme_mode
                &&& final(state).autostart == old(state).autostart
                &&& r is Some == (monitor < old(state).monitors@.len())
                &&& r matches Some(n) ==> (n.title@, n.text@) == apply_note(
                    !shows(ms[monitor as int].layers, path),
                    final(state).span_monitors,
                    wallpaper@,
                    ms[monitor as int].name,
                )
            },
            None => r is None && *final(state) == *old(state),
        },
{
    let k: usize = match find_wallpaper(&state.wallpapers, wallpaper) {
        Some(k) => k,
        None => {
            return None;
        },
    };
    let path = state.wallpapers[k].path.copy();
    let ghost ms = controller::monitor_texts(state.monitors@);
    let here: bool = if monitor < state.monitors.len() {
        assert(ms[monitor as int] == state.monitors@[monitor as int]@);
        find_layer(&state.monitors[monitor].layers, &path).is_some()
    } else {
        false
    };
    let movie = find_movie(movies, &path).is_some();
    if movie && !here && state.span_monitors {
        state.span_monitors = false;
        let p: usize = spanning_position(&state.monitors);
        if p < state.monitors.len() {
            let none: Vec<LayerInfo> = Vec::new();
            assert(controller::layer_texts(none@) =~= Seq::empty());
            put_layers(state, p, none);
        }
    }
    let ghost free = controller::monitor_texts(state.monitors@);
    assert(free == (if ends_span(movies@, old(state).span_monitors, ms, monitor as int, path@) {
        unspanned(ms)
    } else {
        ms
    }));
    if monitor >= state.monitors.len() {
        return None;
    }
    assert(free[monitor as int] == state.monitors@[monitor as int]@);
    let layers = apply_layers(movies, &state.monitors[monitor].layers, &path, wallpaper);
    let note = write_apply_note(!here, state.span_monitors, wallpaper, state.monitors[monitor].name.as_str());
    put_layers(state, monitor, layers);
    Some(note)
}

/// Whether layers are of one kind: shaders, or a single movie.
pub open spec fn one_kind(movies: Seq<Movie>, layers: Seq<controller::LayerText>) -> bool {
    some_movie(movies, layers) ==> layers.len() == 1
}

proof fn lemma_shaders(movies: Seq<Movie>, layers: Seq<controller::LayerText>)
    ensures
        !some_movie(movies, shaders_of(movies, layers)),
        shaders_of(movies, layers).len() <= layers.len(),
        !some_movie(movies, layers) ==> shaders_of(movies, layers) == layers,
        forall|k: int|
            0 <= k < shaders_of(movies, layers).len() ==> layers.contains(
                #[trigger] shaders_of(movies, layers)[k],
            ),
    decreases layers.len(),
{
    if layers.len() > 0 {
        let rest = layers.drop_last();
        lemma_shaders(movies, rest);
        assert(layers[layers.len() - 1] == layers.last());
        assert forall|k: int| 0 <= k < shaders_of(movies, layers).len() implies layers.contains(
            #[trigger] shaders_of(movies, layers)[k],
        ) by {
            let x = shaders_of(movies, layers)[k];
            if k < shaders_of(movies, rest).len() {
                assert(shaders_of(movies, rest)[k] == x);
                let j = choose|j: int| 0 <= j < rest.len() && rest[j] == x;
                assert(layers[j] == x);
            }
        }
        if !some_movie(movies, layers) {
            assert forall|j: int| 0 <= j < rest.len() implies !is_movie(movies, (#[trigger] rest[j]).path) by {
                assert(layers[j] == rest[j]);
            }
            assert(!some_movie(movies, rest));
            assert(rest.push(layers.last()) =~= layers);
        }
        assert forall|k: int| 0 <= k < shaders_of(movies, layers).len() implies !is_movie(
            movies,
            (#[trigger] shaders_of(movies, layers)[k]).path,
        ) by {
            if k < shaders_of(movies, rest).len() {
                assert(shaders_of(movies, rest)[k] == shaders_of(movies, layers)[k]);
            }
        }
    }
}

/// A monitor shows either shaders or one movie, whatever is applied to it.
pub proof fn law_one_kind_per_monitor(
    movies: Seq<Movie>,
    layers: Seq<controller::LayerText>,
    path: Seq<Seq<char>>,
    name: Seq<char>,
)
    requires
        one_kind(movies, layers),
    ensures
        one_kind(movies, applied_layers(movies, layers, path, name)),
{
    let after = applied_layers(movies, layers, path, name);
    match layer_place(layers, path) {
        Some(k) => {
            let p = |l: controller::LayerText| l.path == path;
            assert(lists::is_first(layers, p, k));
            if some_movie(movies, after) {
                let j = choose|j: int| 0 <= j < after.len() && is_movie(movies, (#[trigger] after[j]).path);
                let j0 = if j < k {
                    j
                } else {
                    j + 1
                };
                assert(layers[j0] == after[j]);
                assert(some_movie(movies, layers));
            }
        },
        None => {
            if !is_movie(movies, path) {
                lemma_shaders(movies, layers);
                let rest = shaders_of(movies, layers);
                assert forall|j: int| 0 <= j < after.len() implies !is_movie(
                    movies,
                    (#[trigger] after[j]).path,
                ) by {
                    if j > 0 {
                        assert(after[j] == rest[j - 1]);
                    }
                }
            }
        },
    }
}

/// Applying a shader a second time undoes it: the shaders that were there are shown
/// again, in their order.
pub proof fn law_applying_twice_undoes(
    movies: Seq<Movie>,
    layers: Seq<controller::LayerText>,
    path: Seq<Seq<char>>,
    name: Seq<char>,
)
    requires
        !is_movie(movies, path),
        !shows(layers, path),
    ensures
        applied_layers(movies, applied_layers(movies, layers, path, name), path, name) == shaders_of(
            movies,
            layers,
        ),
        !some_movie(movies, layers) ==> shaders_of(movies, layers) == layers,
{
    let p = |l: controller::LayerText| l.path == path;
    lemma_shaders(movies, layers);
    assert forall|j: int| 0 <= j < layers.len() implies !p(#[trigger] layers[j]) by {
    }
    lists::lemma_no_first(layers, p);
    let once = applied_layers(movies, layers, path, name);
    assert(once[0].path == path);
    assert(lists::is_first(once, p, 0));
    lists::lemma_first(once, p, 0);
    assert(once.remove(0) =~= shaders_of(movies, layers));
}

/// Nothing of the other kind is removed unasked: where no question is asked, a shader
/// that is applied leaves all layers in place, a movie finds no shader on its monitor,
/// and span mode is not ended over a spanning shader. A monitor is marked as primary.
pub proof fn law_nothing_is_removed_unasked(
    movies: Seq<Movie>,
    span: bool,
    ms: Seq<controller::MonitorText>,
    i: int,
    path: Seq<Seq<char>>,
    name: Seq<char>,
)
    requires
        0 <= i < ms.len(),
        exists|k: int| 0 <= k < ms.len() && (#[trigger] ms[k]).is_primary,
        conflict(movies, span, ms, i, path) is None,
        !shows(ms[i].layers, path),
    ensures
        !is_movie(movies, path) ==> applied_layers(movies, ms[i].layers, path, name) == seq![
            controller::fresh_layer(path, name),
        ] + ms[i].layers,
        is_movie(movies, path) ==> !some_shader(movies, ms[i].layers),
        ends_span(movies, span, ms, i, path) ==> !some_shader(movies, ms[spanning_index(ms)].layers),
{
    let layers = ms[i].layers;
    let p = |l: controller::LayerText| l.path == path;
    assert forall|j: int| 0 <= j < layers.len() implies !p(#[trigger] layers[j]) by {
    }
    lists::lemma_no_first(layers, p);
    lemma_shaders(movies, layers);
    let marked = |m: controller::MonitorText| m.is_primary;
    let k = choose|k: int| 0 <= k < ms.len() && (#[trigger] ms[k]).is_primary;
    lemma_some_first(ms, marked, k);
    assert(controller::primary_index(ms) == Some(spanning_index(ms)));
}

proof fn lemma_some_first<T>(s: Seq<T>, p: spec_fn(T) -> bool, k: int)
    requires
        0 <= k < s.len(),
        p(s[k]),
    ensures
        lists::first_where(s, p) is Some,
    decreases k,
{
    if forall|j: int| 0 <= j < k ==> !p(#[trigger] s[j]) {
        assert(lists::is_first(s, p, k));
    } else {
        let j = choose|j: int| 0 <= j < k && p(#[trigger] s[j]);
        lemma_some_first(s, p, j);
    }
}

// ---------------------------------------------------------------------------
// Editing layers
// ---------------------------------------------------------------------------

/// Whether a monitor has a layer.
pub open spec fn has_layer(ms: Seq<controller::MonitorText>, monitor: int, layer: int) -> bool {
    0 <= monitor < ms.len() && 0 <= layer < ms[monitor].layers.len()
}

/// The monitors, one of them with another layer in place of one it had.
pub open spec fn set_layer(
    ms: Seq<controller::MonitorText>,
    monitor: int,
    layer: int,
    l: controller::LayerText,
) -> Seq<controller::MonitorText> {
    set_layers(ms, monitor, ms[monitor].layers.update(layer, l))
}

fn layer_there(state: &AppState, monitor: usize, layer: usize) -> (r: bool)
    ensures
        r == has_layer(controller::monitor_texts(state.monitors@), monitor as int, layer as int),
        r ==> monitor < state.monitors@.len() && layer < state.monitors@[monitor as int].layers@.len(),
        r ==> controller::monitor_texts(state.monitors@)[monitor as int].layers[layer as int]
            == state.monitors@[monitor as int].layers@[layer as int]@,
{
    monitor < state.monitors.len() && layer < state.monitors[monitor].layers.len()
}

fn replace_layer(state: &mut AppState, monitor: usize, layer: usize, l: LayerInfo)
    requires
        has_layer(controller::monitor_texts(old(state).monitors@), monitor as int, layer as int),
    ensures
        same_but_monitors(*final(state), *old(state)),
        controller::monitor_texts(final(state).monitors@) == set_layer(
            controller::monitor_texts(old(state).monitors@),
            monitor as int,
            layer as int,
            l@,
        ),
{
    let ghost lv = l@;
    let mut layers = copy_layers(&state.monitors[monitor].layers);
    let ghost before = controller::layer_texts(layers@);
    assert(before == controller::monitor_texts(state.monitors@)[monitor as int].layers);
    assert(layers@.len() == before.len());
    layers.set(layer, l);
    assert(controller::layer_texts(layers@) =~= before.update(layer as int, lv));
    put_layers(state, monitor, layers);
}

/// Takes a layer off a monitor.
pub fn remove_layer(state: &mut AppState, monitor: usize, layer: usize) -> (changed: bool)
    ensures
        changed == has_layer(
            controller::monitor_texts(old(state).monitors@),
            monitor as int,
            layer as int,
        ),
        !changed ==> *final(state) == *old(state),
        changed ==> same_but_monitors(*final(state), *old(state)) && controller::monitor_texts(
            final(state).monitors@,
        ) == set_layers(
            controller::monitor_texts(old(state).monitors@),
            monitor as int,
            controller::monitor_texts(old(state).monitors@)[monitor as int].layers.remove(layer as int),
        ),
{
    if !layer_there(state, monitor, layer) {
        return false;
    }
    let layers = without_layer(&state.monitors[monitor].layers, layer);
    put_layers(state, monitor, layers);
    true
}

/// The number of visible layers in a list.
pub open spec fn visible_count(layers: Seq<controller::LayerText>) -> nat
    decreases layers.len(),
{
    if layers.len() == 0 {
        0
    } else {
        visible_count(layers.drop_last()) + (if layers.last().visible {
            1nat
        } else {
            0
        })
    }
}

/// The place of a layer among what the engine draws: the visible layers, the last of
/// the list first.
pub open spec fn pipeline_index(layers: Seq<controller::LayerText>, layer: int) -> nat {
    visible_count(layers.subrange(layer + 1, layers.len() as int))
}

/// What the engine draws: the visible layers, the last of the list first.
pub open spec fn drawn(layers: Seq<controller::LayerText>) -> Seq<controller::LayerText>
    decreases layers.len(),
{
    if layers.len() == 0 {
        Seq::empty()
    } else if layers.last().visible {
        seq![layers.last()] + drawn(layers.drop_last())
    } else {
        drawn(layers.drop_last())
    }
}

proof fn lemma_visible_split(a: Seq<controller::LayerText>, b: Seq<controller::LayerText>)
    ensures
        visible_count(a + b) == visible_count(a) + visible_count(b),
        drawn(a + b) == drawn(b) + drawn(a),
        drawn(b).len() == visible_count(b),
    decreases b.len(),
{
    if b.len() == 0 {
        assert(a + b =~= a);
        assert(drawn(b) + drawn(a) =~= drawn(a));
    } else {
        assert((a + b).drop_last() =~= a + b.drop_last());
        assert((a + b).last() == b.last());
        lemma_visible_split(a, b.drop_last());
        if b.last().visible {
            assert(seq![b.last()] + (drawn(b.drop_last()) + drawn(a)) =~= (seq![b.last()] + drawn(b.drop_last()))
                + drawn(a));
        }
    }
}

/// A live change of a visible layer reaches that layer: at its place among what the
/// engine draws stands the layer itself.
pub proof fn law_pipeline_index_finds_the_layer(layers: Seq<controller::LayerText>, layer: int)
    requires
        0 <= layer < layers.len(),
        layers[layer].visible,
    ensures
        pipeline_index(layers, layer) < drawn(layers).len(),
        drawn(layers)[pipeline_index(layers, layer) as int] == layers[layer],
{
    let a = layers.subrange(0, layer);
    let m = seq![layers[layer]];
    let b = layers.subrange(layer + 1, layers.len() as int);
    assert(layers =~= a + m + b);
    lemma_visible_split(a + m, b);
    lemma_visible_split(a, m);
    assert(m.drop_last() =~= Seq::empty());
    reveal_with_fuel(drawn, 2);
    assert(drawn(m) =~= m);
    assert(drawn(layers) == drawn(b) + (m + drawn(a)));
}

/// The place of a layer among what the engine draws.
pub fn find_pipeline(layers: &Vec<LayerInfo>, layer: usize) -> (r: usize)
    requires
        layer < layers@.len(),
    ensures
        r == pipeline_index(controller::layer_texts(layers@), layer as int),
{
    let ghost ls = controller::layer_texts(layers@);
    let ghost behind = ls.subrange(layer + 1, ls.len() as int);
    let end: usize = layers.len();
    assert(layer < end);
    let mut r: usize = 0;
    let mut i: usize = layer + 1;
    assert(behind.subrange(0, 0) =~= Seq::empty());
    while i < layers.len()
        invariant
            layer + 1 <= i <= layers.len(),
            ls == controller::layer_texts(layers@),
            behind == ls.subrange(layer + 1, ls.len() as int),
            r == visible_count(behind.subrange(0, i - layer - 1)),
            r <= i - layer - 1,
        decreases layers.len() - i,
    {
        assert(behind.subrange(0, i - layer).drop_last() =~= behind.subrange(0, i - layer - 1));
        assert(behind.subrange(0, i - layer).last() == layers@[i as int]@);
        if layers[i].visible {
            r = r + 1;
        }
        i = i + 1;
    }
    assert(behind.subrange(0, i - layer - 1) =~= behind);
    r
}

/// A change that the engine makes to a layer without building it again.
pub struct LiveChange {
    pub monitor_id: String,
    pub pipeline_index: usize,
}

/// Whether a live change is for the given layer.
pub open spec fn is_live_change(c: LiveChange, ms: Seq<controller::MonitorText>, monitor: int, layer: int) -> bool {
    c.monitor_id@ == ms[monitor].id && c.pipeline_index == pipeline_index(ms[monitor].layers, layer)
}

fn live_change(state: &AppState, monitor: usize, layer: usize) -> (r: Option<LiveChange>)
    requires
        has_layer(controller::monitor_texts(state.monitors@), monitor as int, layer as int),
    ensures
        r is Some == controller::monitor_texts(state.monitors@)[monitor as int].layers[layer as int].visible,
        r matches Some(c) ==> is_live_change(
            c,
            controller::monitor_texts(state.monitors@),
            monitor as int,
            layer as int,
        ),
{
    let m = &state.monitors[monitor];
    assert(controller::monitor_texts(state.monitors@)[monitor as int] == m@);
    if m.layers[layer].visible {
        Some(LiveChange { monitor_id: m.id.clone(), pipeline_index: find_pipeline(&m.layers, layer) })
    } else {
        None
    }
}

/// Changes the opacity of a layer. Tells whether there is such a layer, and how the
/// engine is told, where the layer is visible.
pub fn set_layer_opacity(state: &mut AppState, monitor: usize, layer: usize, opacity: Bits32) -> (r: (
    bool,
    Option<LiveChange>,
))
    ensures
        ({
            let ms = controller::monitor_texts(old(state).monitors@);
            let l = ms[monitor as int].layers[layer as int];
            &&& r.0 == has_layer(ms, monitor as int, layer as int)
            &&& !r.0 ==> *final(state) == *old(state) && r.1 is None
            &&& r.0 ==> {
                &&& same_but_monitors(*final(state), *old(state))
                &&& controller::monitor_texts(final(state).monitors@) == set_layer(
                    ms,
                    monitor as int,
                    layer as int,
                    controller::LayerText { opacity, ..l },
                )
                &&& r.1 is Some == l.visible
                &&& r.1 matches Some(c) ==> is_live_change(c, ms, monitor as int, layer as int)
            }
        }),
{
    if !layer_there(state, monitor, layer) {
        return (false, None);
    }
    let live = live_change(state, monitor, layer);
    let mut l = state.monitors[monitor].layers[layer].copy();
    l.opacity = opacity;
    replace_layer(state, monitor, layer, l);
    (true, live)
}

/// How the engine is told to show a layer in another place while it is dragged;
/// nothing is kept.
pub fn layer_transform_live(state: &AppState, monitor: usize, layer: usize) -> (r: Option<LiveChange>)
    ensures
        ({
            let ms = controller::monitor_texts(state.monitors@);
            &&& r is Some == (has_layer(ms, monitor as int, layer as int)
                && ms[monitor as int].layers[layer as int].visible)
            &&& r matches Some(c) ==> is_live_change(c, ms, monitor as int, layer as int)
        }),
{
    if !layer_there(state, monitor, layer) {
        return None;
    }
    live_change(state, monitor, layer)
}

/// What an edit of a layer leaves: the state with that layer changed, or as it was where
/// there is no such layer.
pub open spec fn edited(
    before: AppState,
    after: AppState,
    monitor: int,
    layer: int,
    l: controller::LayerText,
    changed: bool,
) -> bool {
    let ms = controller::monitor_texts(before.monitors@);
    &&& changed == has_layer(ms, monitor, layer)
    &&& !changed ==> after == before
    &&& changed ==> same_but_monitors(after, before) && controller::monitor_texts(after.monitors@) == set_layer(
        ms,
        monitor,
        layer,
        l,
    )
}

/// A layer of a state.
pub open spec fn layer_at(s: AppState, monitor: int, layer: int) -> controller::LayerText {
    controller::monitor_texts(s.monitors@)[monitor].layers[layer]
}

/// Shows or hides a layer.
pub fn set_layer_visible(state: &mut AppState, monitor: usize, layer: usize, visible: bool) -> (changed: bool)
    ensures
        edited(
            *old(state),
            *final(state),
            monitor as int,
            layer as int,
            controller::LayerText { visible, ..layer_at(*old(state), monitor as int, layer as int) },
            changed,
        ),
{
    if !layer_there(state, monitor, layer) {
        return false;
    }
    let mut l = state.monitors[monitor].layers[layer].copy();
    l.visible = visible;
    replace_layer(state, monitor, layer, l);
    true
}

/// Changes how a layer is blended.
pub fn set_layer_blend(state: &mut AppState, monitor: usize, layer: usize, mode: &str) -> (changed: bool)
    ensures
        edited(
            *old(state),
            *final(state),
            monitor as int,
            layer as int,
            controller::LayerText { blend: mode@, ..layer_at(*old(state), monitor as int, layer as int) },
            changed,
        ),
{
    if !layer_there(state, monitor, layer) {
        return false;
    }
    let mut l = state.monitors[monitor].layers[layer].copy();
    l.blend_mode = mode.to_owned();
    replace_layer(state, monitor, layer, l);
    true
}

/// Changes the scale at which a layer is rendered.
pub fn set_layer_scale(state: &mut AppState, monitor: usize, layer: usize, scale: Bits32) -> (changed: bool)
    ensures
        edited(
            *old(state),
            *final(state),
            monitor as int,
            layer as int,
            controller::LayerText { scale, ..layer_at(*old(state), monitor as int, layer as int) },
            changed,
        ),
{
    if !layer_there(state, monitor, layer) {
        return false;
    }
    let mut l = state.monitors[monitor].layers[layer].copy();
    l.resolution_scale = scale;
    replace_layer(state, monitor, layer, l);
    true
}

/// Puts a layer into a rectangle of its own.
pub fn set_layer_transform(state: &mut AppState, monitor: usize, layer: usize, rect: Rect32) -> (changed: bool)
    ensures
        edited(
            *old(state),
            *final(state),
            monitor as int,
            layer as int,
            controller::LayerText {
                transform: rect,
                positioning: "Custom"@,
                ..layer_at(*old(state), monitor as int, layer as int)
            },
            changed,
        ),
{
    if !layer_there(state, monitor, layer) {
        return false;
    }
    let mut l = state.monitors[monitor].layers[layer].copy();
    l.transform = rect;
    l.positioning = "Custom".to_owned();
    replace_layer(state, monitor, layer, l);
    true
}

/// How a change of the positioning takes effect.
pub enum PositioningEffect {
    /// There is no such layer.
    Nothing,
    /// The engine builds the layers again.
    Reload,
    /// The movie on a monitor is fitted in another way.
    Fit { monitor_id: String, fit: String },
}

/// How a movie is fitted to a monitor.
pub open spec fn object_fit(positioning: Seq<char>) -> Seq<char> {
    if positioning == "Fit"@ {
        "contain"@
    } else if positioning == "Stretch"@ {
        "fill"@
    } else if positioning == "Center"@ || positioning == "Custom"@ {
        "none"@
    } else {
        "cover"@
    }
}

/// How a movie with the given positioning is fitted to a monitor.
pub fn positioning_to_object_fit(positioning: &str) -> (r: &'static str)
    ensures
        r@ == object_fit(positioning@),
{
    if str_eq(positioning, "Fit") {
        "contain"
    } else if str_eq(positioning, "Stretch") {
        "fill"
    } else if str_eq(positioning, "Center") || str_eq(positioning, "Custom") {
        "none"
    } else {
        "cover"
    }
}

/// Changes the positioning of a layer.
pub fn set_layer_positioning(
    state: &mut AppState,
    movies: &Vec<Movie>,
    monitor: usize,
    layer: usize,
    mode: &str,
) -> (r: PositioningEffect)
    ensures
        edited(
            *old(state),
            *final(state),
            monitor as int,
            layer as int,
            controller::LayerText {
                positioning: mode@,
                ..layer_at(*old(state), monitor as int, layer as int)
            },
            !(r is Nothing),
        ),
        !(r is Nothing) ==> (r is Fit == is_movie(
            movies@,
            layer_at(*old(state), monitor as int, layer as int).path,
        )),
        r matches PositioningEffect::Fit { monitor_id, fit } ==> monitor_id@ == controller::monitor_texts(
            old(state).monitors@,
        )[monitor as int].id && fit@ == object_fit(mode@),
{
    if !layer_there(state, monitor, layer) {
        return PositioningEffect::Nothing;
    }
    let mut l = state.monitors[monitor].layers[layer].copy();
    l.positioning = mode.to_owned();
    let movie = find_movie(movies, &l.wallpaper_path).is_some();
    let monitor_id = state.monitors[monitor].id.clone();
    replace_layer(state, monitor, layer, l);
    if movie {
        PositioningEffect::Fit { monitor_id, fit: positioning_to_object_fit(mode).to_owned() }
    } else {
        PositioningEffect::Reload
    }
}

/// A list with two neighbours exchanged.
pub open spec fn exchanged(layers: Seq<controller::LayerText>, upper: int) -> Seq<controller::LayerText> {
    layers.update(upper, layers[upper + 1]).update(upper + 1, layers[upper])
}

fn exchange(state: &mut AppState, monitor: usize, upper: usize)
    requires
        monitor < old(state).monitors@.len(),
        upper + 1 < old(state).monitors@[monitor as int].layers@.len(),
    ensures
        same_but_monitors(*final(state), *old(state)),
        controller::monitor_texts(final(state).monitors@) == set_layers(
            controller::monitor_texts(old(state).monitors@),
            monitor as int,
            exchanged(controller::monitor_texts(old(state).monitors@)[monitor as int].layers, upper as int),
        ),
{
    let ghost before = controller::monitor_texts(state.monitors@)[monitor as int].layers;
    let end: usize = state.monitors[monitor].layers.len();
    assert(upper + 1 < end);
    let a = state.monitors[monitor].layers[upper].copy();
    let b = state.monitors[monitor].layers[upper + 1].copy();
    let mut layers = copy_layers(&state.monitors[monitor].layers);
    assert(layers@.len() == controller::layer_texts(layers@).len());
    assert(before == controller::layer_texts(layers@));
    let ghost av = a@;
    let ghost bv = b@;
    layers.set(upper, b);
    layers.set(upper + 1, a);
    assert(av == before[upper as int]);
    assert(bv == before[upper + 1]);
    assert(controller::layer_texts(layers@) =~= exchanged(before, upper as int));
    put_layers(state, monitor, layers);
}

/// Moves a layer up by one.
pub fn move_layer_up(state: &mut AppState, monitor: usize, layer: usize) -> (changed: bool)
    ensures
        ({
            let ms = controller::monitor_texts(old(state).monitors@);
            &&& changed == (layer > 0 && has_layer(ms, monitor as int, layer as int))
            &&& !changed ==> *final(state) == *old(state)
            &&& changed ==> same_but_monitors(*final(state), *old(state)) && controller::monitor_texts(
                final(state).monitors@,
            ) == set_layers(ms, monitor as int, exchanged(ms[monitor as int].layers, layer - 1))
        }),
{
    if layer > 0 && layer_there(state, monitor, layer) {
        exchange(state, monitor, layer - 1);
        true
    } else {
        false
    }
}

/// Moves a layer down by one.
pub fn move_layer_down(state: &mut AppState, monitor: usize, layer: usize) -> (changed: bool)
    ensures
        ({
            let ms = controller::monitor_texts(old(state).monitors@);
            &&& changed == has_layer(ms, monitor as int, layer + 1)
            &&& !changed ==> *final(state) == *old(state)
            &&& changed ==> same_but_monitors(*final(state), *old(state)) && controller::monitor_texts(
                final(state).monitors@,
            ) == set_layers(ms, monitor as int, exchanged(ms[monitor as int].layers, layer as int))
        }),
{
    if monitor < state.monitors.len() && state.monitors[monitor].layers.len() > 0 && layer
        < state.monitors[monitor].layers.len() - 1 {
        exchange(state, monitor, layer);
        true
    } else {
        false
    }
}

/// Moving a layer down and up again leaves the layers as they were.
pub proof fn law_moving_back_undoes(layers: Seq<controller::LayerText>, upper: int)
    requires
        0 <= upper,
        upper + 1 < layers.len(),
    ensures
        exchanged(exchanged(layers, upper), upper) == layers,
{
    assert(exchanged(exchanged(layers, upper), upper) =~= layers);
}

// ---------------------------------------------------------------------------
// Monitors
// ---------------------------------------------------------------------------

/// Gives a monitor another name.
pub fn rename_monitor(state: &mut AppState, monitor: usize, name: &str) -> (changed: bool)
    ensures
        changed == (monitor < old(state).monitors@.len()),
        !changed ==> *final(state) == *old(state),
        changed ==> same_but_monitors(*final(state), *old(state)) && controller::monitor_texts(
            final(state).monitors@,
        ) == ({
            let ms = controller::monitor_texts(old(state).monitors@);
            ms.update(monitor as int, controller::MonitorText { name: name@, ..ms[monitor as int] })
        }),
{
    if monitor >= state.monitors.len() {
        return false;
    }
    let ghost before = controller::monitor_texts(state.monitors@);
    state.monitors[monitor].name = name.to_owned();
    assert(controller::monitor_texts(state.monitors@) =~= before.update(
        monitor as int,
        controller::MonitorText { name: name@, ..before[monitor as int] },
    ));
    true
}

/// Gives a monitor another colour.
pub fn recolor_monitor(state: &mut AppState, monitor: usize, color: &str) -> (changed: bool)
    ensures
        changed == (monitor < old(state).monitors@.len()),
        !changed ==> *final(state) == *old(state),
        changed ==> same_but_monitors(*final(state), *old(state)) && controller::monitor_texts(
            final(state).monitors@,
        ) == ({
            let ms = controller::monitor_texts(old(state).monitors@);
            ms.update(monitor as int, controller::MonitorText { color: color@, ..ms[monitor as int] })
        }),
{
    if monitor >= state.monitors.len() {
        return false;
    }
    let ghost before = controller::monitor_texts(state.monitors@);
    state.monitors[monitor].color = color.to_owned();
    assert(controller::monitor_texts(state.monitors@) =~= before.update(
        monitor as int,
        controller::MonitorText { color: color@, ..before[monitor as int] },
    ));
    true
}

/// The layers of a list whose wallpapers are there.
pub open spec fn layers_there(layers: Seq<controller::LayerText>, there: Seq<Seq<Seq<char>>>) -> Seq<
    controller::LayerText,
>
    decreases layers.len(),
{
    if layers.len() == 0 {
        Seq::empty()
    } else if there.contains(layers.last().path) {
        layers_there(layers.drop_last(), there).push(layers.last())
    } else {
        layers_there(layers.drop_last(), there)
    }
}

fn place_known(there: &Vec<Location>, path: &Location) -> (r: bool)
    ensures
        r == paths::views(there@).contains(path@),
{
    let mut i: usize = 0;
    while i < there.len()
        invariant
            i <= there.len(),
            forall|j: int| 0 <= j < i ==> (#[trigger] paths::views(there@)[j]) != path@,
        decreases there.len() - i,
    {
        assert(paths::views(there@)[i as int] == there@[i as int]@);
        if there[i].same(path) {
            assert(paths::views(there@)[i as int] == path@);
            return true;
        }
        i = i + 1;
    }
    false
}

fn present_layers(layers: &Vec<LayerInfo>, there: &Vec<Location>) -> (r: Vec<LayerInfo>)
    ensures
        controller::layer_texts(r@) == layers_there(
            controller::layer_texts(layers@),
            paths::views(there@),
        ),
{
    let ghost ls = controller::layer_texts(layers@);
    let mut r: Vec<LayerInfo> = Vec::new();
    let mut i: usize = 0;
    assert(ls.subrange(0, 0) =~= Seq::empty());
    assert(controller::layer_texts(r@) =~= Seq::empty());
    while i < layers.len()
        invariant
            i <= layers.len(),
            ls == controller::layer_texts(layers@),
            controller::layer_texts(r@) == layers_there(ls.subrange(0, i as int), paths::views(there@)),
        decreases layers.len() - i,
    {
        assert(ls.subrange(0, i + 1).drop_last() =~= ls.subrange(0, i as int));
        assert(ls.subrange(0, i + 1).last() == layers@[i as int]@);
        if place_known(there, &layers[i].wallpaper_path) {
            push_layer(&mut r, layers[i].copy());
        }
        i = i + 1;
    }
    assert(ls.subrange(0, i as int) =~= ls);
    r
}

/// A text, or another one where it is empty.
pub open spec fn text_or(s: Seq<char>, other: Seq<char>) -> Seq<char> {
    if s.len() == 0 {
        other
    } else {
        s
    }
}

/// A monitor with what was kept for it: the layers whose wallpapers are still there,
/// its name and its colour. A monitor without a colour gets one.
pub open spec fn restored(
    m: controller::MonitorText,
    kept: Seq<config::KeptMonitor>,
    there: Seq<Seq<Seq<char>>>,
) -> controller::MonitorText {
    let found = match lists::first_where(kept, |k: config::KeptMonitor| k.id == m.id) {
        Some(i) => controller::MonitorText {
            layers: layers_there(kept[i].layers, there),
            name: text_or(kept[i].name, m.name),
            color: text_or(kept[i].color, m.color),
            ..m
        },
        None => m,
    };
    controller::MonitorText {
        color: text_or(found.color, settings::color_of(settings::id_number(m.id))),
        ..found
    }
}

fn find_kept(kept: &Vec<MonitorConfig>, id: &str) -> (r: Option<usize>)
    ensures
        match r {
            Some(i) => lists::first_where(
                config::kept_texts(kept@),
                |k: config::KeptMonitor| k.id == id@,
            ) == Some(i as int) && i < kept@.len(),
            None => lists::first_where(
                config::kept_texts(kept@),
                |k: config::KeptMonitor| k.id == id@,
            ) is None,
        },
{
    let ghost ks = config::kept_texts(kept@);
    let ghost p = |k: config::KeptMonitor| k.id == id@;
    let mut i: usize = 0;
    while i < kept.len()
        invariant
            i <= kept.len(),
            ks == config::kept_texts(kept@),
            p == (|k: config::KeptMonitor| k.id == id@),
            forall|j: int| 0 <= j < i ==> !p(#[trigger] ks[j]),
        decreases kept.len() - i,
    {
        if str_eq(kept[i].id.as_str(), id) {
            proof {
                lists::lemma_first(ks, p, i as int);
            }
            return Some(i);
        }
        assert(!p(ks[i as int]));
        i = i + 1;
    }
    proof {
        lists::lemma_no_first(ks, p);
    }
    None
}

fn string_or(s: &str, other: &str) -> (r: String)
    ensures
        r@ == text_or(s@, other@),
{
    if chars_of(s).len() == 0 {
        other.to_owned()
    } else {
        s.to_owned()
    }
}

fn restore_one(m: &MonitorInfo, kept: &Vec<MonitorConfig>, there: &Vec<Location>) -> (r: MonitorInfo)
    ensures
        r@ == restored(m@, config::kept_texts(kept@), paths::views(there@)),
{
    let mut name = m.name.clone();
    let mut color = m.color.clone();
    let mut layers = copy_layers(&m.layers);
    if let Some(i) = find_kept(kept, m.id.as_str()) {
        assert(config::kept_texts(kept@)[i as int] == kept@[i as int]@);
        layers = present_layers(&kept[i].layers, there);
        name = string_or(kept[i].name.as_str(), m.name.as_str());
        color = string_or(kept[i].color.as_str(), m.color.as_str());
    }
    let own = default_monitor_color(m.id.as_str());
    let r = MonitorInfo {
        id: m.id.clone(),
        name,
        color: string_or(color.as_str(), own.as_str()),
        resolution: m.resolution,
        position: m.position,
        is_primary: m.is_primary,
        layers,
    };
    assert(r@ =~= restored(m@, config::kept_texts(kept@), paths::views(there@)));
    r
}

/// The monitors that were found, each with what was kept for it; `there` lists the
/// wallpapers that are still there.
pub fn restore_monitors(found: &Vec<MonitorInfo>, kept: &Vec<MonitorConfig>, there: &Vec<Location>) -> (r: Vec<
    MonitorInfo,
>)
    ensures
        controller::monitor_texts(r@) == Seq::new(
            found@.len(),
            |i: int| restored(found@[i]@, config::kept_texts(kept@), paths::views(there@)),
        ),
{
    let mut r: Vec<MonitorInfo> = Vec::new();
    let mut i: usize = 0;
    while i < found.len()
        invariant
            i <= found.len(),
            r@.len() == i,
            forall|j: int|
                0 <= j < i ==> (#[trigger] r@[j])@ == restored(
                    found@[j]@,
                    config::kept_texts(kept@),
                    paths::views(there@),
                ),
        decreases found.len() - i,
    {
        r.push(restore_one(&found[i], kept, there));
        i = i + 1;
    }
    assert(controller::monitor_texts(r@) =~= Seq::new(
        found@.len(),
        |i: int| restored(found@[i]@, config::kept_texts(kept@), paths::views(there@)),
    ));
    r
}

proof fn lemma_layers_there(layers: Seq<controller::LayerText>, there: Seq<Seq<Seq<char>>>)
    requires
        forall|i: int| 0 <= i < layers.len() ==> there.contains((#[trigger] layers[i]).path),
    ensures
        layers_there(layers, there) == layers,
    decreases layers.len(),
{
    if layers.len() > 0 {
        let rest = layers.drop_last();
        assert forall|i: int| 0 <= i < rest.len() implies there.contains((#[trigger] rest[i]).path) by {
            assert(rest[i] == layers[i]);
        }
        lemma_layers_there(rest, there);
        assert(there.contains(layers[layers.len() - 1].path));
        assert(rest.push(layers.last()) =~= layers);
    }
}

/// What is kept of a monitor comes back: where all its wallpapers are still there, the
/// monitor has the same layers, name and colour at the next start. The name and the
/// colour are not empty, and no monitor that was kept before it has the same id.
pub proof fn law_assignments_come_back(
    m: controller::MonitorText,
    found: controller::MonitorText,
    kept: Seq<config::KeptMonitor>,
    k: int,
    there: Seq<Seq<Seq<char>>>,
)
    requires
        found.id == m.id,
        0 <= k < kept.len(),
        kept[k] == config::kept_of(m),
        forall|j: int| 0 <= j < k ==> (#[trigger] kept[j]).id != m.id,
        m.name.len() > 0,
        m.color.len() > 0,
        forall|i: int| 0 <= i < m.layers.len() ==> there.contains((#[trigger] m.layers[i]).path),
    ensures
        restored(found, kept, there).layers == m.layers,
        restored(found, kept, there).name == m.name,
        restored(found, kept, there).color == m.color,
{
    let p = |x: config::KeptMonitor| x.id == found.id;
    assert(lists::is_first(kept, p, k));
    lists::lemma_first(kept, p, k);
    lemma_layers_there(m.layers, there);
}

// ---------------------------------------------------------------------------
// Deleting a wallpaper
// ---------------------------------------------------------------------------

/// The layers of a list that are not the given wallpaper.
pub open spec fn layers_without(layers: Seq<controller::LayerText>, path: Seq<Seq<char>>) -> Seq<
    controller::LayerText,
>
    decreases layers.len(),
{
    if layers.len() == 0 {
        Seq::empty()
    } else if layers.last().path == path {
        layers_without(layers.drop_last(), path)
    } else {
        layers_without(layers.drop_last(), path).push(layers.last())
    }
}

fn drop_path(layers: &Vec<LayerInfo>, path: &Location) -> (r: Vec<LayerInfo>)
    ensures
        controller::layer_texts(r@) == layers_without(controller::layer_texts(layers@), path@),
{
    let ghost ls = controller::layer_texts(layers@);
    let mut r: Vec<LayerInfo> = Vec::new();
    let mut i: usize = 0;
    assert(ls.subrange(0, 0) =~= Seq::empty());
    assert(controller::layer_texts(r@) =~= Seq::empty());
    while i < layers.len()
        invariant
            i <= layers.len(),
            ls == controller::layer_texts(layers@),
            controller::layer_texts(r@) == layers_without(ls.subrange(0, i as int), path@),
        decreases layers.len() - i,
    {
        assert(ls.subrange(0, i + 1).drop_last() =~= ls.subrange(0, i as int));
        assert(ls.subrange(0, i + 1).last() == layers@[i as int]@);
        if !layers[i].wallpaper_path.same(path) {
            push_layer(&mut r, layers[i].copy());
        }
        i = i + 1;
    }
    assert(ls.subrange(0, i as int) =~= ls);
    r
}

/// Whether some monitor shows a wallpaper.
pub open spec fn shown_somewhere(ms: Seq<controller::MonitorText>, path: Seq<Seq<char>>) -> bool {
    exists|i: int| 0 <= i < ms.len() && shows((#[trigger] ms[i]).layers, path)
}

proof fn lemma_without(layers: Seq<controller::LayerText>, path: Seq<Seq<char>>)
    ensures
        !shows(layers_without(layers, path), path),
        !shows(layers, path) ==> layers_without(layers, path) == layers,
    decreases layers.len(),
{
    if layers.len() > 0 {
        let rest = layers.drop_last();
        lemma_without(rest, path);
        let out = layers_without(layers, path);
        let inner = layers_without(rest, path);
        assert forall|i: int| 0 <= i < out.len() implies (#[trigger] out[i]).path != path by {
            if i < inner.len() {
                assert(inner[i] == out[i]);
            }
        }
        if !shows(layers, path) {
            assert forall|i: int| 0 <= i < rest.len() implies (#[trigger] rest[i]).path != path by {
                assert(rest[i] == layers[i]);
            }
            assert(!shows(rest, path));
            assert(layers[layers.len() - 1].path != path);
            assert(rest.push(layers.last()) =~= layers);
        }
    }
}

/// Takes a wallpaper off all monitors, before it is deleted. Tells whether it was on
/// any.
pub fn remove_wallpaper(state: &mut AppState, path: &Location) -> (removed: bool)
    ensures
        same_but_monitors(*final(state), *old(state)),
        removed == shown_somewhere(controller::monitor_texts(old(state).monitors@), path@),
        controller::monitor_texts(final(state).monitors@) == Seq::new(
            old(state).monitors@.len(),
            |i: int|
                with_layers(
                    old(state).monitors@[i]@,
                    layers_without(controller::layer_texts(old(state).monitors@[i].layers@), path@),
                ),
        ),
{
    let ghost ms = controller::monitor_texts(state.monitors@);
    let mut removed = false;
    let mut i: usize = 0;
    while i < state.monitors.len()
        invariant
            i <= state.monitors@.len(),
            state.monitors@.len() == ms.len(),
            same_but_monitors(*state, *old(state)),
            ms == controller::monitor_texts(old(state).monitors@),
            forall|j: int| i <= j < ms.len() ==> (#[trigger] state.monitors@[j])@ == ms[j],
            forall|j: int|
                0 <= j < i ==> (#[trigger] state.monitors@[j])@ == with_layers(
                    ms[j],
                    layers_without(ms[j].layers, path@),
                ),
            removed == exists|j: int| 0 <= j < i && shows((#[trigger] ms[j]).layers, path@),
        decreases state.monitors.len() - i,
    {
        let ghost before = controller::monitor_texts(state.monitors@);
        assert(before[i as int] == ms[i as int]);
        if find_layer(&state.monitors[i].layers, path).is_some() {
            removed = true;
            assert(shows(ms[i as int].layers, path@));
        }
        let layers = drop_path(&state.monitors[i].layers, path);
        put_layers(state, i, layers);
        let ghost after = controller::monitor_texts(state.monitors@);
        assert(state.monitors@.len() == after.len());
        assert forall|j: int| 0 <= j < ms.len() implies (#[trigger] state.monitors@[j])@ == after[j] by {
        }
        i = i + 1;
    }
    assert(controller::monitor_texts(state.monitors@) =~= Seq::new(
        old(state).monitors@.len(),
        |i: int|
            with_layers(
                old(state).monitors@[i]@,
                layers_without(controller::layer_texts(old(state).monitors@[i].layers@), path@),
            ),
    ));
    removed
}

/// A wallpaper that was deleted is on no monitor, and no other layer is touched.
pub proof fn law_deleted_wallpapers_are_gone(layers: Seq<controller::LayerText>, path: Seq<Seq<char>>)
    ensures
        !shows(layers_without(layers, path), path),
        !shows(layers, path) ==> layers_without(layers, path) == layers,
{
    lemma_without(layers, path);
}

// ---------------------------------------------------------------------------
// What can be relied on
// ---------------------------------------------------------------------------

/// A wallpaper is a movie where a movie is listed for its folder.
pub proof fn law_movies_are_listed(movies: Seq<Movie>, path: Seq<Seq<char>>)
    ensures
        is_movie(movies, path) <==> exists|k: int| 0 <= k < movies.len() && (#[trigger] movies[k]).pack@ == path,
{
    if exists|k: int| 0 <= k < movies.len() && (#[trigger] movies[k]).pack@ == path {
        let k = choose|k: int| 0 <= k < movies.len() && (#[trigger] movies[k]).pack@ == path;
        let p = |m: Movie| m.pack@ == path;
        assert(p(movies[k]));
        lists::lemma_some_first(movies, p, k);
        let f = lists::first_where(movies, p)->0;
        assert(p(movies[f]));
        assert forall|j: int| 0 <= j < f implies (#[trigger] movies[j]).pack@ != path by {
            assert(!p(movies[j]));
        }
        law_videos_are_those_listed_first(movies, path, f);
    } else {
        lemma_unlisted_is_no_movie(movies, path);
    }
}

/// The video of a movie is the one that is listed first for its folder.
pub proof fn law_videos_are_those_listed_first(movies: Seq<Movie>, path: Seq<Seq<char>>, k: int)
    requires
        0 <= k < movies.len(),
        movies[k].pack@ == path,
        forall|j: int| 0 <= j < k ==> (#[trigger] movies[j]).pack@ != path,
    ensures
        movie_file(movies, path) == Some(movies[k].file@),
    decreases movies.len(),
{
    if k > 0 {
        let rest = movies.subrange(1, movies.len() as int);
        assert(movies[0].pack@ != path);
        assert(rest[k - 1] == movies[k]);
        assert forall|j: int| 0 <= j < k - 1 implies (#[trigger] rest[j]).pack@ != path by {
            assert(rest[j] == movies[j + 1]);
        }
        law_videos_are_those_listed_first(rest, path, k - 1);
    }
}

proof fn lemma_unlisted_is_no_movie(movies: Seq<Movie>, path: Seq<Seq<char>>)
    requires
        forall|j: int| 0 <= j < movies.len() ==> (#[trigger] movies[j]).pack@ != path,
    ensures
        movie_file(movies, path) is None,
    decreases movies.len(),
{
    if movies.len() > 0 {
        let rest = movies.subrange(1, movies.len() as int);
        assert(movies[0].pack@ != path);
        assert forall|j: int| 0 <= j < rest.len() implies (#[trigger] rest[j]).pack@ != path by {
            assert(rest[j] == movies[j + 1]);
        }
        lemma_unlisted_is_no_movie(rest, path);
    }
}

/// The shaders of a list are its layers that are no movies, in their order.
pub proof fn law_shaders_are_the_other_layers(movies: Seq<Movie>, layers: Seq<controller::LayerText>)
    ensures
        shaders_of(movies, layers) == layers.filter(
            |l: controller::LayerText| !is_movie(movies, l.path),
        ),
        some_shader(movies, layers) <==> shaders_of(movies, layers).len() > 0,
        some_movie(movies, layers) <==> shaders_of(movies, layers).len() < layers.len(),
    decreases layers.len(),
{
    reveal(Seq::filter);
    let p = |l: controller::LayerText| !is_movie(movies, l.path);
    layers.lemma_filter_len(p);
    if layers.len() > 0 {
        let d = layers.drop_last();
        law_shaders_are_the_other_layers(movies, d);
        d.lemma_filter_len(p);
        assert(forall|i: int| 0 <= i < d.len() ==> #[trigger] d[i] == layers[i]);
        assert(layers[layers.len() - 1] == layers.last());
        if some_shader(movies, d) {
            let i = choose|i: int| 0 <= i < d.len() && !is_movie(movies, (#[trigger] d[i]).path);
            assert(!is_movie(movies, layers[i].path));
        }
        if some_movie(movies, d) {
            let i = choose|i: int| 0 <= i < d.len() && is_movie(movies, (#[trigger] d[i]).path);
            assert(is_movie(movies, layers[i].path));
        }
        if some_shader(movies, layers) {
            let i = choose|i: int| 0 <= i < layers.len() && !is_movie(movies, (#[trigger] layers[i]).path);
            if i < d.len() {
                assert(!is_movie(movies, d[i].path));
            }
        }
        if some_movie(movies, layers) {
            let i = choose|i: int| 0 <= i < layers.len() && is_movie(movies, (#[trigger] layers[i]).path);
            if i < d.len() {
                assert(is_movie(movies, d[i].path));
            }
        }
    }
}

/// A wallpaper that a monitor does not show comes on top of its layers, opaque, over the
/// whole monitor and visible; a movie stands alone, and below a shader stand the
/// shaders that were there.
pub proof fn law_new_wallpapers_come_on_top(
    movies: Seq<Movie>,
    layers: Seq<controller::LayerText>,
    path: Seq<Seq<char>>,
    name: Seq<char>,
)
    requires
        forall|k: int| 0 <= k < layers.len() ==> (#[trigger] layers[k]).path != path,
    ensures
        ({
            let after = applied_layers(movies, layers, path, name);
            let one = Bits32(0x3f80_0000);
            let zero = Bits32(0);
            &&& after.len() > 0
            &&& after[0].path == path
            &&& after[0].name == name
            &&& after[0].opacity == one
            &&& after[0].scale == one
            &&& after[0].positioning == "Fill"@
            &&& after[0].transform == (Rect32 { x: zero, y: zero, w: one, h: one })
            &&& after[0].visible
            &&& after[0].blend == "normal"@
            &&& (exists|k: int| 0 <= k < movies.len() && (#[trigger] movies[k]).pack@ == path) ==> after.len() == 1
            &&& (forall|k: int| 0 <= k < movies.len() ==> (#[trigger] movies[k]).pack@ != path)
                ==> after.subrange(1, after.len() as int) == layers.filter(
                |l: controller::LayerText| !is_movie(movies, l.path),
            )
        }),
{
    lists::lemma_no_first(layers, |l: controller::LayerText| l.path == path);
    law_movies_are_listed(movies, path);
    law_shaders_are_the_other_layers(movies, layers);
    let after = applied_layers(movies, layers, path, name);
    if !is_movie(movies, path) {
        assert(after.subrange(1, after.len() as int) =~= shaders_of(movies, layers));
    }
}

/// A wallpaper that a monitor shows is taken off when it is applied again, and nothing
/// else is.
pub proof fn law_shown_wallpapers_are_taken_off(
    movies: Seq<Movie>,
    layers: Seq<controller::LayerText>,
    path: Seq<Seq<char>>,
    name: Seq<char>,
    k: int,
)
    requires
        0 <= k < layers.len(),
        layers[k].path == path,
        forall|j: int| 0 <= j < k ==> (#[trigger] layers[j]).path != path,
    ensures
        applied_layers(movies, layers, path, name) == layers.subrange(0, k) + layers.subrange(
            k + 1,
            layers.len() as int,
        ),
{
    let p = |l: controller::LayerText| l.path == path;
    assert(forall|j: int| 0 <= j < k ==> !p(#[trigger] layers[j]));
    lists::lemma_first(layers, p, k);
}

/// Whether a monitor is the one whose layers span the others: the first that is marked
/// as primary, or the first of all where none is.
pub open spec fn spans_others(ms: Seq<controller::MonitorText>, j: int) -> bool {
    if exists|k: int| 0 <= k < ms.len() && (#[trigger] ms[k]).is_primary {
        ms[j].is_primary && forall|k: int| 0 <= k < j ==> !(#[trigger] ms[k]).is_primary
    } else {
        j == 0
    }
}

/// Applying a wallpaper to a monitor changes the layers of that monitor and of no other,
/// unless a movie comes while the monitors are spanned: then those layers are gone too.
pub proof fn law_other_monitors_stay(
    movies: Seq<Movie>,
    span: bool,
    ms: Seq<controller::MonitorText>,
    i: int,
    path: Seq<Seq<char>>,
    name: Seq<char>,
    j: int,
)
    requires
        0 <= i < ms.len(),
        0 <= j < ms.len(),
    ensures
        ({
            let after = applied(movies, span, ms, i, path, name);
            let ends = span && (exists|k: int| 0 <= k < movies.len() && (#[trigger] movies[k]).pack@ == path)
                && forall|k: int| 0 <= k < ms[i].layers.len() ==> (#[trigger] ms[i].layers[k]).path != path;
            &&& after.len() == ms.len()
            &&& ms[j] == (controller::MonitorText { layers: ms[j].layers, ..after[j] })
            &&& j == i ==> after[j].layers == applied_layers(movies, ms[i].layers, path, name)
            &&& j != i && ends && spans_others(ms, j) ==> after[j].layers.len() == 0
            &&& j != i && !(ends && spans_others(ms, j)) ==> after[j].layers == ms[j].layers
            &&& ends == ends_span(movies, span, ms, i, path)
        }),
{
    law_movies_are_listed(movies, path);
    let p = |m: controller::MonitorText| m.is_primary;
    if exists|k: int| 0 <= k < ms.len() && (#[trigger] ms[k]).is_primary {
        let k = choose|k: int| 0 <= k < ms.len() && (#[trigger] ms[k]).is_primary;
        assert(p(ms[k]));
        lists::lemma_some_first(ms, p, k);
        let f = spanning_index(ms);
        assert(p(ms[f]));
        assert(forall|k: int| 0 <= k < f ==> !p(#[trigger] ms[k]));
        if spans_others(ms, j) {
            assert(p(ms[j]));
            assert(j == f);
        }
    } else {
        assert forall|k: int| 0 <= k < ms.len() implies !p(#[trigger] ms[k]) by {}
        lists::lemma_no_first(ms, p);
    }
    assert(spans_others(ms, j) <==> j == spanning_index(ms));
    let q = |l: controller::LayerText| l.path == path;
    if ends_span(movies, span, ms, i, path) {
        lists::lemma_no_first(ms[i].layers, q);
        lists::lemma_no_first(Seq::<controller::LayerText>::empty(), q);
    }
}

/// What is asked before a wallpaper is applied: a question comes exactly where the
/// monitor does not show the wallpaper and one of the other kind would go, on that
/// monitor or, for a movie, on all of them; it names the monitor it is about.
pub proof fn law_questions_are_asked_where_needed(
    movies: Seq<Movie>,
    span: bool,
    ms: Seq<controller::MonitorText>,
    i: int,
    p: int,
    path: Seq<Seq<char>>,
)
    requires
        0 <= i < ms.len(),
        controller::primary_index(ms) == Some(p),
    ensures
        ({
            let movie = exists|k: int| 0 <= k < movies.len() && (#[trigger] movies[k]).pack@ == path;
            let shown = exists|k: int| 0 <= k < ms[i].layers.len() && (#[trigger] ms[i].layers[k]).path == path;
            let spanned = span && shaders_of(movies, ms[p].layers).len() > 0;
            let shaders = shaders_of(movies, ms[i].layers).len();
            let asked = conflict(movies, span, ms, i, path);
            &&& shown ==> asked is None
            &&& !shown && movie ==> (asked is Some <==> spanned || shaders > 0)
            &&& !shown && !movie ==> (asked is Some <==> shaders < ms[i].layers.len())
            &&& !shown && movie && spanned ==> asked
                == Some("Compositing shaders with movie-based wallpapers is not supported. Applying this movie wallpaper will remove the shader layers spanning your displays."@)
            &&& !shown && movie && !spanned && shaders > 0 ==> asked
                == Some("Compositing shaders with movie-based wallpapers is not supported. Applying this movie wallpaper will remove the current shader layers on "@
                + ms[i].name + "."@)
            &&& !movie && asked is Some ==> asked
                == Some("Compositing shaders with movie-based wallpapers is not supported. Applying this shader will remove the current movie wallpaper on "@
                + ms[i].name + "."@)
        }),
{
    law_movies_are_listed(movies, path);
    law_shaders_are_the_other_layers(movies, ms[i].layers);
    law_shaders_are_the_other_layers(movies, ms[p].layers);
}

/// The note about a change tells the wallpaper and the monitor, or that all monitors
/// show the wallpaper.
pub proof fn law_notes_tell_what_changed(span: bool, wallpaper: Seq<char>, monitor: Seq<char>)
    ensures
        apply_note(true, false, wallpaper, monitor) == (
            "Engine Synchronizing"@,
            wallpaper + " applied to "@ + monitor + "."@,
        ),
        apply_note(true, true, wallpaper, monitor) == (
            "Engine Synchronizing"@,
            "Shader deployed to all monitors (Spanned mode)."@,
        ),
        apply_note(false, span, wallpaper, monitor) == (
            "Shader Removed"@,
            wallpaper + " removed from "@ + monitor + "."@,
        ),
{
}

/// A wallpaper is found by its name, the first where several have it.
pub proof fn law_wallpapers_are_found_by_name(ws: Seq<controller::EntryText>, name: Seq<char>, k: int)
    requires
        0 <= k < ws.len(),
        ws[k].name == name,
        forall|j: int| 0 <= j < k ==> (#[trigger] ws[j]).name != name,
    ensures
        wallpaper_place(ws, name) == Some(k),
{
    let p = |w: controller::EntryText| w.name == name;
    assert(forall|j: int| 0 <= j < k ==> !p(#[trigger] ws[j]));
    lists::lemma_first(ws, p, k);
}

/// An edit of a layer changes that layer of that monitor, and nothing else of the state.
pub proof fn law_edits_change_one_layer(
    before: AppState,
    after: AppState,
    monitor: int,
    layer: int,
    l: controller::LayerText,
    changed: bool,
)
    requires
        edited(before, after, monitor, layer, l, changed),
    ensures
        changed <==> 0 <= monitor < before.monitors@.len() && 0 <= layer < before.monitors@[monitor].layers@.len(),
        !changed ==> after == before,
        after.wallpapers == before.wallpapers,
        after.theme_mode == before.theme_mode,
        after.span_monitors == before.span_monitors,
        after.autostart == before.autostart,
        after.monitors@.len() == before.monitors@.len(),
        forall|i: int|
            0 <= i < before.monitors@.len() && !(changed && i == monitor) ==> (#[trigger] after.monitors@[i])@
                == before.monitors@[i]@,
        changed ==> ({
            let was = before.monitors@[monitor]@;
            let is = after.monitors@[monitor]@;
            &&& was == (controller::MonitorText { layers: was.layers, ..is })
            &&& is.layers.len() == was.layers.len()
            &&& is.layers[layer] == l
            &&& forall|k: int| 0 <= k < was.layers.len() && k != layer ==> #[trigger] is.layers[k] == was.layers[k]
        }),
{
    let was = controller::monitor_texts(before.monitors@);
    let is = controller::monitor_texts(after.monitors@);
    assert(forall|i: int| 0 <= i < was.len() ==> #[trigger] was[i] == before.monitors@[i]@);
    assert(is.len() == after.monitors@.len());
    assert forall|i: int|
        0 <= i < before.monitors@.len() && !(changed && i == monitor) implies (#[trigger] after.monitors@[i])@
        == before.monitors@[i]@ by {
        assert(is[i] == after.monitors@[i]@);
        assert(is[i] == was[i]);
    }
    if changed {
        assert(is[monitor] == after.monitors@[monitor]@);
        assert(was[monitor] == before.monitors@[monitor]@);
    }
}

/// The engine draws the visible layers, the last of the list first, and a live change
/// goes to the monitor and the place at which the engine draws the layer.
pub proof fn law_live_changes_reach_their_layer(
    c: LiveChange,
    ms: Seq<controller::MonitorText>,
    monitor: int,
    layer: int,
)
    requires
        has_layer(ms, monitor, layer),
        ms[monitor].layers[layer].visible,
        is_live_change(c, ms, monitor, layer),
    ensures
        ({
            let shown = ms[monitor].layers.filter(|l: controller::LayerText| l.visible).reverse();
            &&& drawn(ms[monitor].layers) == shown
            &&& c.monitor_id@ == ms[monitor].id
            &&& c.pipeline_index < shown.len()
            &&& shown[c.pipeline_index as int] == ms[monitor].layers[layer]
        }),
{
    lemma_visible_layers_are_drawn(ms[monitor].layers);
    law_pipeline_index_finds_the_layer(ms[monitor].layers, layer);
}

/// The engine draws the visible layers, the last of the list first.
proof fn lemma_visible_layers_are_drawn(layers: Seq<controller::LayerText>)
    ensures
        drawn(layers) == layers.filter(|l: controller::LayerText| l.visible).reverse(),
    decreases layers.len(),
{
    reveal(Seq::filter);
    let p = |l: controller::LayerText| l.visible;
    if layers.len() > 0 {
        let d = layers.drop_last();
        lemma_visible_layers_are_drawn(d);
        if layers.last().visible {
            assert(d.filter(p).push(layers.last()).reverse() =~= seq![layers.last()] + d.filter(p).reverse());
        }
    }
    assert(drawn(layers) =~= layers.filter(p).reverse());
}

/// A lower layer is drawn before a higher one.
pub proof fn law_lower_layers_are_drawn_first(layers: Seq<controller::LayerText>, upper: int, lower: int)
    requires
        0 <= upper < lower < layers.len(),
        layers[lower].visible,
    ensures
        pipeline_index(layers, lower) < pipeline_index(layers, upper),
{
    let n = layers.len() as int;
    let above = layers.subrange(upper + 1, n);
    assert(above.subrange(lower - upper - 1, above.len() as int) =~= layers.subrange(lower, n));
    lemma_count_of_parts(above, lower - upper - 1);
    let s = layers.subrange(lower, n);
    lemma_count_of_parts(s, 1);
    assert(s.subrange(1, s.len() as int) =~= layers.subrange(lower + 1, n));
    let one = s.subrange(0, 1);
    assert(one.len() == 1 && one.last() == layers[lower]);
    assert(one.drop_last().len() == 0);
    assert(visible_count(one.drop_last()) == 0);
    assert(visible_count(one) == 1);
}

proof fn lemma_count_of_parts(layers: Seq<controller::LayerText>, k: int)
    requires
        0 <= k <= layers.len(),
    ensures
        visible_count(layers) == visible_count(layers.subrange(0, k)) + visible_count(
            layers.subrange(k, layers.len() as int),
        ),
    decreases layers.len(),
{
    let n = layers.len() as int;
    if k == n {
        assert(layers.subrange(0, k) =~= layers);
        assert(layers.subrange(k, n).len() == 0);
    } else {
        let d = layers.drop_last();
        lemma_count_of_parts(d, k);
        let tail = layers.subrange(k, n);
        assert(tail.drop_last() =~= d.subrange(k, n - 1));
        assert(tail.last() == layers.last());
        assert(d.subrange(0, k) =~= layers.subrange(0, k));
    }
}

/// A movie is fitted as its positioning says: whole within the monitor, stretched, in
/// its own size, or, for every other positioning, over the whole monitor.
pub proof fn law_movies_are_fitted(positioning: Seq<char>)
    ensures
        object_fit("Fit"@) == "contain"@,
        object_fit("Stretch"@) == "fill"@,
        object_fit("Center"@) == "none"@,
        object_fit("Custom"@) == "none"@,
        positioning != "Fit"@ && positioning != "Stretch"@ && positioning != "Center"@ && positioning != "Custom"@
            ==> object_fit(positioning) == "cover"@,
{
    reveal_strlit("Fit");
    reveal_strlit("Stretch");
    reveal_strlit("Center");
    reveal_strlit("Custom");
    assert("Fit"@.len() == 3);
    assert("Stretch"@.len() == 7);
    assert("Center"@.len() == 6);
    assert("Custom"@.len() == 6);
}

/// Moving a layer changes the places of two neighbours, and of no other layer.
pub proof fn law_neighbours_change_places(layers: Seq<controller::LayerText>, upper: int)
    requires
        0 <= upper,
        upper + 1 < layers.len(),
    ensures
        exchanged(layers, upper).len() == layers.len(),
        exchanged(layers, upper)[upper] == layers[upper + 1],
        exchanged(layers, upper)[upper + 1] == layers[upper],
        forall|k: int|
            0 <= k < layers.len() && k != upper && k != upper + 1 ==> #[trigger] exchanged(layers, upper)[k]
                == layers[k],
{
}

/// The layers whose wallpapers are there are those, in their order; so are the layers
/// without a wallpaper.
pub proof fn law_missing_wallpapers_are_left_out(
    layers: Seq<controller::LayerText>,
    there: Seq<Seq<Seq<char>>>,
    path: Seq<Seq<char>>,
)
    ensures
        layers_there(layers, there) == layers.filter(|l: controller::LayerText| there.contains(l.path)),
        layers_without(layers, path) == layers.filter(|l: controller::LayerText| l.path != path),
    decreases layers.len(),
{
    reveal(Seq::filter);
    if layers.len() > 0 {
        law_missing_wallpapers_are_left_out(layers.drop_last(), there, path);
    }
}

/// What was kept for a monitor is what was kept first under its id: its layers whose
/// wallpapers are there, and its name and colour where they are not empty. What the
/// system tells of the monitor stays.
pub proof fn law_kept_monitors_come_back(
    m: controller::MonitorText,
    kept: Seq<config::KeptMonitor>,
    there: Seq<Seq<Seq<char>>>,
    k: int,
)
    requires
        0 <= k < kept.len(),
        kept[k].id == m.id,
        forall|j: int| 0 <= j < k ==> (#[trigger] kept[j]).id != m.id,
    ensures
        ({
            let r = restored(m, kept, there);
            &&& r.layers == kept[k].layers.filter(|l: controller::LayerText| there.contains(l.path))
            &&& kept[k].name.len() > 0 ==> r.name == kept[k].name
            &&& kept[k].name.len() == 0 ==> r.name == m.name
            &&& kept[k].color.len() > 0 ==> r.color == kept[k].color
            &&& kept[k].color.len() == 0 && m.color.len() > 0 ==> r.color == m.color
            &&& kept[k].color.len() == 0 && m.color.len() == 0 ==> r.color == settings::color_of(
                settings::id_number(m.id),
            )
            &&& m == (controller::MonitorText { layers: m.layers, name: m.name, color: m.color, ..r })
        }),
{
    let p = |x: config::KeptMonitor| x.id == m.id;
    assert(forall|j: int| 0 <= j < k ==> !p(#[trigger] kept[j]));
    lists::lemma_first(kept, p, k);
    law_missing_wallpapers_are_left_out(kept[k].layers, there, Seq::empty());
}

/// A monitor for which nothing was kept stays as it was found; it gets a colour where it
/// has none.
pub proof fn law_new_monitors_stay(
    m: controller::MonitorText,
    kept: Seq<config::KeptMonitor>,
    there: Seq<Seq<Seq<char>>>,
)
    requires
        forall|j: int| 0 <= j < kept.len() ==> (#[trigger] kept[j]).id != m.id,
    ensures
        m.color.len() > 0 ==> restored(m, kept, there) == m,
        m.color.len() == 0 ==> restored(m, kept, there) == (controller::MonitorText {
            color: settings::color_of(settings::id_number(m.id)),
            ..m
        }),
{
    let p = |x: config::KeptMonitor| x.id == m.id;
    assert(forall|j: int| 0 <= j < kept.len() ==> !p(#[trigger] kept[j]));
    lists::lemma_no_first(kept, p);
}

/// A wallpaper is shown somewhere where a layer of a monitor is that wallpaper.
pub proof fn law_shown_wallpapers_are_on_a_monitor(ms: Seq<controller::MonitorText>, path: Seq<Seq<char>>)
    ensures
        shown_somewhere(ms, path) <==> exists|i: int, k: int|
            0 <= i < ms.len() && 0 <= k < ms[i].layers.len() && (#[trigger] ms[i].layers[k]).path == path,
{
    if shown_somewhere(ms, path) {
        let i = choose|i: int| 0 <= i < ms.len() && shows((#[trigger] ms[i]).layers, path);
        let k = choose|k: int| 0 <= k < ms[i].layers.len() && (#[trigger] ms[i].layers[k]).path == path;
        assert(ms[i].layers[k].path == path);
    }
    if exists|i: int, k: int|
        0 <= i < ms.len() && 0 <= k < ms[i].layers.len() && (#[trigger] ms[i].layers[k]).path == path {
        let (i, k) = choose|i: int, k: int|
            0 <= i < ms.len() && 0 <= k < ms[i].layers.len() && (#[trigger] ms[i].layers[k]).path == path;
        assert(shows(ms[i].layers, path));
    }
}

/// Where there is no such monitor nothing is put anywhere, and without monitors nothing
/// changes.
pub proof fn law_missing_monitors_get_nothing(
    movies: Seq<Movie>,
    span: bool,
    ms: Seq<controller::MonitorText>,
    i: int,
    path: Seq<Seq<char>>,
    name: Seq<char>,
    j: int,
)
    requires
        i < 0 || i >= ms.len(),
        0 <= j < ms.len(),
    ensures
        !span || !is_movie(movies, path) ==> applied(movies, span, ms, i, path, name) == ms,
        span && is_movie(movies, path) && spans_others(ms, j) ==> applied(movies, span, ms, i, path, name)
            == ms.update(j, controller::MonitorText { layers: Seq::empty(), ..ms[j] }),
        applied(movies, span, Seq::empty(), i, path, name) == Seq::<controller::MonitorText>::empty(),
        !primary_shader(movies, Seq::empty()),
{
    let p = |m: controller::MonitorText| m.is_primary;
    let none = Seq::<controller::MonitorText>::empty();
    lists::lemma_no_first(none, p);
    controller::law_primary_monitor_is_found(ms, j);
    if exists|k: int| 0 <= k < ms.len() && (#[trigger] ms[k]).is_primary {
        let k = choose|k: int| 0 <= k < ms.len() && (#[trigger] ms[k]).is_primary;
        assert(p(ms[k]));
        lists::lemma_some_first(ms, p, k);
        let f = spanning_index(ms);
        assert(p(ms[f]));
        assert(forall|k: int| 0 <= k < f ==> !p(#[trigger] ms[k]));
        if spans_others(ms, j) {
            assert(p(ms[j]));
            assert(j == f);
        }
    } else {
        assert forall|k: int| 0 <= k < ms.len() implies !p(#[trigger] ms[k]) by {}
        lists::lemma_no_first(ms, p);
    }
}

} // verus!
