//! What the labels of the settings stand for.
use vstd::prelude::*;
use crate::manifest::Bits32;
use crate::text;
use crate::text::{chars_of, decimal_of, parse_number, split_chars, str_eq, str_starts_with};

verus! {

broadcast use vstd::string::group_string_axioms;

/// The number of a mouse mode: off, all wallpapers, only shaders, only those of the
/// Parallax Studio.
pub open spec fn mouse_number(label: Seq<char>) -> u8 {
    if label == "Off"@ {
        0
    } else if label == "On (Everything)"@ {
        1
    } else if label == "On (Only Shaders)"@ {
        2
    } else {
        3
    }
}

/// The number of a mouse mode.
pub fn mouse_mode_to_u8(label: &str) -> (r: u8)
    ensures
        r == mouse_number(label@),
{
    if str_eq(label, "Off") {
        0
    } else if str_eq(label, "On (Everything)") {
        1
    } else if str_eq(label, "On (Only Shaders)") {
        2
    } else {
        3
    }
}

/// The label of a mouse mode.
pub open spec fn mouse_label(mode: u8) -> Seq<char> {
    if mode == 0 {
        "Off"@
    } else if mode == 1 {
        "On (Everything)"@
    } else if mode == 2 {
        "On (Only Shaders)"@
    } else {
        "On (Only Parallax Studio)"@
    }
}

/// The label of a mouse mode.
pub fn u8_to_mouse_mode(mode: u8) -> (r: &'static str)
    ensures
        r@ == mouse_label(mode),
{
    if mode == 0 {
        "Off"
    } else if mode == 1 {
        "On (Everything)"
    } else if mode == 2 {
        "On (Only Shaders)"
    } else {
        "On (Only Parallax Studio)"
    }
}

/// Whether the cursor reaches a layer in a mouse mode; `parallax` says whether the layer
/// is one of the Parallax Studio.
pub fn mouse_reaches(mode: u8, parallax: bool) -> (r: bool)
    ensures
        r == (mode == 1 || mode == 2 && !parallax || mode == 3 && parallax),
{
    mode == 1 || mode == 2 && !parallax || mode == 3 && parallax
}

/// A mouse mode is the same after it was kept by its label.
pub proof fn law_mouse_modes_are_kept(mode: u8)
    requires
        mode <= 3,
    ensures
        mouse_number(mouse_label(mode)) == mode,
{
    reveal_strlit("Off");
    reveal_strlit("On (Everything)");
    reveal_strlit("On (Only Shaders)");
    reveal_strlit("On (Only Parallax Studio)");
    assert("Off"@.len() == 3);
    assert("On (Everything)"@.len() == 15);
    assert("On (Only Shaders)"@.len() == 17);
    assert("On (Only Parallax Studio)"@.len() == 25);
}

/// A half, by its bits.
pub const HALF_BITS: u32 = 0x3f00_0000;

/// Three quarters, by its bits.
pub const THREE_QUARTERS_BITS: u32 = 0x3f40_0000;

/// One, by its bits.
pub const FULL_BITS: u32 = 0x3f80_0000;

/// Five eighths, by its bits: below it a scale counts as low.
pub const LOW_BELOW_BITS: u32 = 0x3f20_0000;

/// Seven eighths, by its bits: below it a scale counts as medium.
pub const MEDIUM_BELOW_BITS: u32 = 0x3f60_0000;

/// The scale of a quality.
pub open spec fn quality_scale(label: Seq<char>) -> Bits32 {
    if text::begins_with(label, "Low"@) {
        Bits32(HALF_BITS)
    } else if text::begins_with(label, "Medium"@) {
        Bits32(THREE_QUARTERS_BITS)
    } else {
        Bits32(FULL_BITS)
    }
}

/// The scale at which shaders are rendered for a quality.
pub fn shader_quality_to_scale(label: &str) -> (r: Bits32)
    ensures
        r == quality_scale(label@),
{
    if str_starts_with(label, "Low") {
        Bits32(HALF_BITS)
    } else if str_starts_with(label, "Medium") {
        Bits32(THREE_QUARTERS_BITS)
    } else {
        Bits32(FULL_BITS)
    }
}

/// Whether a float is less than a positive one, by their bits: a negative number is,
/// and what is no number is not.
pub open spec fn float_below(b: Bits32, positive: u32) -> bool {
    if b.0 >= 0x8000_0000 {
        b.0 <= 0xff80_0000
    } else {
        b.0 < positive
    }
}

/// The label of a scale.
pub open spec fn quality_label(scale: Bits32) -> Seq<char> {
    if float_below(scale, LOW_BELOW_BITS) {
        "Low (Performance Mode)"@
    } else if float_below(scale, MEDIUM_BELOW_BITS) {
        "Medium (Balanced)"@
    } else {
        "High (Maximum Fidelity)"@
    }
}

fn is_float_below(b: Bits32, positive: u32) -> (r: bool)
    ensures
        r == float_below(b, positive),
{
    if b.0 >= 0x8000_0000 {
        b.0 <= 0xff80_0000
    } else {
        b.0 < positive
    }
}

/// The label of the quality with the given scale.
pub fn scale_to_shader_quality(scale: Bits32) -> (r: &'static str)
    ensures
        r@ == quality_label(scale),
{
    if is_float_below(scale, LOW_BELOW_BITS) {
        "Low (Performance Mode)"
    } else if is_float_below(scale, MEDIUM_BELOW_BITS) {
        "Medium (Balanced)"
    } else {
        "High (Maximum Fidelity)"
    }
}

/// A quality is the same after it was kept by its label.
pub proof fn law_qualities_are_kept(scale: Bits32)
    requires
        scale == Bits32(HALF_BITS) || scale == Bits32(THREE_QUARTERS_BITS) || scale == Bits32(FULL_BITS),
    ensures
        quality_scale(quality_label(scale)) == scale,
{
    reveal_strlit("Low");
    reveal_strlit("Medium");
    reveal_strlit("Low (Performance Mode)");
    reveal_strlit("Medium (Balanced)");
    reveal_strlit("High (Maximum Fidelity)");
    let low = "Low (Performance Mode)"@;
    let medium = "Medium (Balanced)"@;
    let high = "High (Maximum Fidelity)"@;
    assert(low.subrange(0, 3) =~= "Low"@);
    assert(medium.subrange(0, 6) =~= "Medium"@);
    assert(medium.subrange(0, 3)[0] != "Low"@[0]);
    assert(high.subrange(0, 3)[0] != "Low"@[0]);
    assert(high.subrange(0, 6)[0] != "Medium"@[0]);
}

/// The limit of the frame rate: between one and 240 frames per second.
pub fn fps_cap(fps: i32) -> (r: u32)
    ensures
        r as int == (if fps < 1 {
            1
        } else if fps > 240 {
            240
        } else {
            fps as int
        }),
{
    if fps < 1 {
        1
    } else if fps > 240 {
        240
    } else {
        fps as u32
    }
}

/// Whether the interface is dark: as the user says, else as the system is.
pub fn is_dark(theme_mode: &str, system_dark: bool) -> (r: bool)
    ensures
        r == (if theme_mode@ == "dark"@ {
            true
        } else if theme_mode@ == "light"@ {
            false
        } else {
            system_dark
        }),
{
    if str_eq(theme_mode, "dark") {
        true
    } else if str_eq(theme_mode, "light") {
        false
    } else {
        system_dark
    }
}

/// The number behind the last dash of an id, zero where there is none.
pub open spec fn id_number(id: Seq<char>) -> nat {
    let parts = text::split(id, seq!['-']);
    match text::number(parts.last(), usize::MAX as nat) {
        Some(n) => n,
        None => 0,
    }
}

/// The colour of a monitor that has none: they take turns.
pub open spec fn color_of(n: nat) -> Seq<char> {
    if n % 5 == 0 {
        "orange"@
    } else if n % 5 == 1 {
        "blue"@
    } else if n % 5 == 2 {
        "purple"@
    } else if n % 5 == 3 {
        "emerald"@
    } else {
        "rose"@
    }
}

/// The colour of a monitor that has none, by its id.
pub fn default_monitor_color(id: &str) -> (r: String)
    ensures
        r@ == color_of(id_number(id@)),
{
    let mut dash: Vec<char> = Vec::new();
    dash.push('-');
    assert(dash@ =~= seq!['-']);
    let parts = split_chars(&chars_of(id), &dash);
    let last: usize = parts.len() - 1;
    assert(text::buffers(parts@)[last as int] == parts@[last as int]@);
    assert(text::buffers(parts@).last() == parts@[last as int]@);
    let n: u64 = match parse_number(&parts[last], usize::MAX as u64) {
        Some(n) => n,
        None => 0,
    };
    if n % 5 == 0 {
        "orange".to_owned()
    } else if n % 5 == 1 {
        "blue".to_owned()
    } else if n % 5 == 2 {
        "purple".to_owned()
    } else if n % 5 == 3 {
        "emerald".to_owned()
    } else {
        "rose".to_owned()
    }
}

/// A number in two digits.
pub open spec fn two_digits(n: nat) -> Seq<char> {
    if n < 10 {
        "0"@ + text::decimal(n)
    } else {
        text::decimal(n)
    }
}

fn write_two_digits(n: u64) -> (r: String)
    ensures
        r@ == two_digits(n as nat),
{
    if n < 10 {
        let mut s = "0".to_owned();
        s.append(decimal_of(n).as_str());
        s
    } else {
        decimal_of(n)
    }
}

/// The time of day, as hours, minutes and seconds.
pub open spec fn clock_text(secs: nat) -> Seq<char> {
    let s = secs % 86_400;
    two_digits(s / 3600) + ":"@ + two_digits(s % 3600 / 60) + ":"@ + two_digits(s % 60)
}

/// The time of day of a time in seconds since 1970.
pub fn hms(secs: u64) -> (r: String)
    ensures
        r@ == clock_text(secs as nat),
{
    let s: u64 = secs % 86_400;
    let mut t = write_two_digits(s / 3600);
    t.append(":");
    t.append(write_two_digits(s % 3600 / 60).as_str());
    t.append(":");
    t.append(write_two_digits(s % 60).as_str());
    t
}

/// The mouse modes have their numbers and labels: zero is off, one is for all
/// wallpapers, two for shaders, and three, which is also taken for every other label, for
/// the wallpapers of the Parallax Studio.
pub proof fn law_mouse_modes_have_labels(label: Seq<char>, mode: u8)
    ensures
        mouse_number("Off"@) == 0,
        mouse_number("On (Everything)"@) == 1,
        mouse_number("On (Only Shaders)"@) == 2,
        label != "Off"@ && label != "On (Everything)"@ && label != "On (Only Shaders)"@ ==> mouse_number(label) == 3,
        mouse_label(0) == "Off"@,
        mouse_label(1) == "On (Everything)"@,
        mouse_label(2) == "On (Only Shaders)"@,
        mode >= 3 ==> mouse_label(mode) == "On (Only Parallax Studio)"@,
{
    reveal_strlit("Off");
    reveal_strlit("On (Everything)");
    reveal_strlit("On (Only Shaders)");
    assert("Off"@.len() == 3);
    assert("On (Everything)"@.len() == 15);
    assert("On (Only Shaders)"@.len() == 17);
}

/// A quality whose label starts with low is rendered at a half, one that starts with
/// medium at three quarters, and any other in full.
pub proof fn law_qualities_have_scales(label: Seq<char>, rest: Seq<char>)
    ensures
        quality_scale("Low"@ + rest) == Bits32(0x3f00_0000),
        quality_scale("Medium"@ + rest) == Bits32(0x3f40_0000),
        !text::begins_with(label, "Low"@) && !text::begins_with(label, "Medium"@) ==> quality_scale(label) == Bits32(
            0x3f80_0000,
        ),
{
    reveal_strlit("Low");
    reveal_strlit("Medium");
    let low = "Low"@ + rest;
    let medium = "Medium"@ + rest;
    assert(low.subrange(0, 3) =~= "Low"@);
    assert(medium.subrange(0, 6) =~= "Medium"@);
    assert(medium.subrange(0, 3)[0] == 'M');
    assert("Low"@[0] == 'L');
}

/// A scale has the label of low below five eighths, of medium from there to below seven
/// eighths, and of high from there on; a negative scale is low, and what is no number
/// is high.
pub proof fn law_scales_have_labels(bits: u32)
    ensures
        bits < 0x3f20_0000 ==> quality_label(Bits32(bits)) == "Low (Performance Mode)"@,
        0x3f20_0000 <= bits < 0x3f60_0000 ==> quality_label(Bits32(bits)) == "Medium (Balanced)"@,
        0x3f60_0000 <= bits < 0x8000_0000 ==> quality_label(Bits32(bits)) == "High (Maximum Fidelity)"@,
        0x8000_0000 <= bits <= 0xff80_0000 ==> quality_label(Bits32(bits)) == "Low (Performance Mode)"@,
        0xff80_0000 < bits ==> quality_label(Bits32(bits)) == "High (Maximum Fidelity)"@,
{
}

/// The number of an id is what stands behind its last dash, and zero where that is no
/// number.
pub proof fn law_ids_end_with_their_number(front: Seq<char>, n: nat, word: Seq<char>)
    requires
        !word.contains('-'),
    ensures
        n <= usize::MAX ==> id_number(front + "-"@ + text::decimal(n)) == n,
        text::number(word, usize::MAX as nat) is None ==> id_number(front + "-"@ + word) == 0,
{
    reveal_strlit("-");
    text::law_numbers_are_read_back(n, usize::MAX as nat);
    text::law_numbers_are_read_back(n, n);
    let d = text::decimal(n);
    if d.contains('-') {
        let i = choose|i: int| 0 <= i < d.len() && d[i] == '-';
        text::law_other_texts_are_no_numbers(d, i, n);
    }
    assert(front + "-"@ + d =~= front.push('-') + d);
    assert(front + "-"@ + word =~= front.push('-') + word);
    lemma_last_part(front, d);
    lemma_last_part(front, word);
}

proof fn lemma_last_part(front: Seq<char>, word: Seq<char>)
    requires
        !word.contains('-'),
    ensures
        text::split(front.push('-') + word, seq!['-']).last() == word,
    decreases word.len(),
{
    let seps = seq!['-'];
    let all = front.push('-') + word;
    if word.len() == 0 {
        assert(all =~= front.push('-'));
        assert(all.last() == '-');
        assert(seps[0] == '-');
        assert(seps.contains(all.last()));
        assert(text::split(all, seps).last() =~= word);
    } else {
        let d = word.drop_last();
        assert(word[word.len() - 1] == word.last());
        assert(!seps.contains(word.last()));
        if d.contains('-') {
            let i = choose|i: int| 0 <= i < d.len() && d[i] == '-';
            assert(word[i] == '-');
        }
        lemma_last_part(front, d);
        assert(all.drop_last() =~= front.push('-') + d);
        assert(all.last() == word.last());
        assert(d.push(word.last()) =~= word);
    }
}

/// Five colours take turns.
pub proof fn law_colors_take_turns(n: nat)
    ensures
        color_of(5 * n) == "orange"@,
        color_of(5 * n + 1) == "blue"@,
        color_of(5 * n + 2) == "purple"@,
        color_of(5 * n + 3) == "emerald"@,
        color_of(5 * n + 4) == "rose"@,
{
}

/// A number below a hundred has two digits, the tens before the ones.
pub proof fn law_two_digits_tell_the_number(tens: nat, ones: nat)
    requires
        tens < 10,
        ones < 10,
    ensures
        two_digits(10 * tens + ones) == seq![(48 + tens) as char, (48 + ones) as char],
{
    reveal_strlit("0");
    let n = 10 * tens + ones;
    reveal_with_fuel(text::decimal, 2);
    assert(n / 10 == tens);
    assert(n % 10 == ones);
    assert("0"@ =~= seq!['0']);
    assert(two_digits(n) =~= seq![(48 + tens) as char, (48 + ones) as char]);
}

/// The time of day is told in hours, minutes and seconds, whatever the day.
pub proof fn law_clock_tells_the_time(days: nat, hours: nat, minutes: nat, seconds: nat)
    requires
        hours < 24,
        minutes < 60,
        seconds < 60,
    ensures
        clock_text(86_400 * days + 3600 * hours + 60 * minutes + seconds) == two_digits(hours) + ":"@ + two_digits(
            minutes,
        ) + ":"@ + two_digits(seconds),
{
    let t = 86_400 * days + 3600 * hours + 60 * minutes + seconds;
    let s = 3600 * hours + 60 * minutes + seconds;
    assert(s < 86_400);
    assert(t % 86_400 == s);
    assert(s / 3600 == hours);
    assert(s % 3600 == 60 * minutes + seconds);
    assert((60 * minutes + seconds) / 60 == minutes);
    assert(s % 60 == seconds);
}

} // verus!
