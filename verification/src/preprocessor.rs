//! The GLSL that is handed to the shader compiler: the user's source between the
//! engine's uniform header and the entry point of the pass.
use vstd::prelude::*;
use crate::text;
use crate::text::{chars_of, decimal_of, is_text_at, lines_of, push_chars, string_of, trim_chars};

verus! {

broadcast use vstd::string::group_string_axioms;

/// The stage that a shader runs in.
#[derive(Clone, Copy, PartialEq, Eq, Structural)]
pub enum ShaderStage {
    Vertex,
    Fragment,
    Compute,
}

/// Maps a line of the preprocessed shader back to where it came from.
pub struct SourceMap {
    /// Line ends in the engine's header.
    pub header_newlines: usize,
    /// Line ends before the user's shader: the header and the common source.
    pub prelude_newlines: usize,
    /// Lines of the user's shader.
    pub body_lines: usize,
    /// Whether a common source stands between the header and the shader.
    pub has_common: bool,
}

// ---------------------------------------------------------------------------
// Texts
// ---------------------------------------------------------------------------

/// The version directive and the block of global uniforms.
pub const UNIFORM_BLOCK: &'static str = "#version 450\n\
    \n\
    layout(std140, set = 0, binding = 0) uniform GlobalUniforms {\n\
    \x20   vec3 iResolution;\n\
    \x20   float iTime;\n\
    \x20   float iTimeDelta;\n\
    \x20   float iFrameRate;\n\
    \x20   int iFrame;\n\
    \x20   float iSampleRate;\n\
    \x20   vec4 iMouse;\n\
    \x20   vec4 iDate;\n\
    \x20   vec4 iChannelTime;\n\
    \x20   vec4 iChannelResolution[4];\n\
    \x20   vec3 iGlobalResolution;\n\
    \x20   float _pad0;\n\
    \x20   vec2 iMonitorOffset;\n\
    \x20   float iOpacity;\n\
    \x20   int iBlendMode;\n\
    };\n\
    \n\
    ";

/// Overloads for the matrix constructors with one argument.
pub const MATRIX_OVERLOADS: &'static str = "\nmat2 _stm2(float s) { return mat2(s, 0.0, 0.0, s); }\n\
    mat2 _stm2(vec4 v) { return mat2(v.x, v.y, v.z, v.w); }";

/// The line before an injected common source.
pub const COMMON_BEGIN: &'static str = "// --- COMMON GLSL INJECTION ---";

/// The line behind an injected common source.
pub const COMMON_END: &'static str = "// --- END COMMON GLSL INJECTION ---";

/// The entry point of a pass that renders into a buffer: the texture's own
/// coordinates, no flip and no compositing.
pub const BUFFER_ENTRY: &'static str = "\n\
    layout(location = 0) out vec4 outColor;\n\
    void main() {\n\
    \x20   vec2 fragCoord = gl_FragCoord.xy;\n\
    \x20   vec4 color = vec4(0.0, 0.0, 0.0, 1.0);\n\
    \x20   mainImage(color, fragCoord);\n\
    \x20   outColor = color;\n\
    }\n\
    ";

/// The entry point of the pass that is shown: coordinates in the global canvas,
/// flipped to a bottom-left origin, and the layer's opacity and blend mode.
pub const IMAGE_ENTRY: &'static str = "\n\
    layout(location = 0) out vec4 outColor;\n\
    void main() {\n\
    \x20   // Map this monitor's pixel into the global canvas.  In the normal\n\
    \x20   // independent case iMonitorOffset is (0,0) and iResolution equals the\n\
    \x20   // monitor's own size, so this reduces to the usual full-screen mapping.\n\
    \x20   // In \"Span Monitors\" mode iMonitorOffset is this monitor's top-left within\n\
    \x20   // the unified desktop canvas and iResolution is the whole canvas, so each\n\
    \x20   // screen renders just its slice of one continuous shader.\n\
    \x20   vec2 globalFrag = gl_FragCoord.xy + iMonitorOffset;\n\
    \x20   // Flip Y to match Shadertoy's bottom-left origin (within the canvas space).\n\
    \x20   vec2 fragCoord = vec2(globalFrag.x, iResolution.y - globalFrag.y);\n\
    \x20   vec4 color = vec4(0.0, 0.0, 0.0, 1.0);\n\
    \x20   mainImage(color, fragCoord);\n\
    \n\
    \x20   // Per-layer compositing for the screen 'image' pass.  Offscreen passes keep\n\
    \x20   // iOpacity = 1 / iBlendMode = 0 (engine default), so this is a no-op there.\n\
    \x20   if (iBlendMode == 2) {\n\
    \x20       // Multiply: fade toward the identity (white) as opacity drops, so the\n\
    \x20       // hardware multiply blend (src*dst) leaves the backdrop untouched at 0.\n\
    \x20       outColor = vec4(mix(vec3(1.0), color.rgb, iOpacity), 1.0);\n\
    \x20   } else {\n\
    \x20       // Normal / additive: premultiplied output (rgb*a). Shadertoy's image pass\n\
    \x20       // treats fragColor as OPAQUE (its alpha is ignored), so we use the user's\n\
    \x20       // layer opacity as alpha — NOT color.a. Many shaders leave a garbage or\n\
    \x20       // <1 alpha (e.g. a final tanh()) which would otherwise dim the wallpaper.\n\
    \x20       float a = iOpacity;\n\
    \x20       outColor = vec4(color.rgb * a, a);\n\
    \x20   }\n\
    }\n\
    ";

// ---------------------------------------------------------------------------
// Meaning
// ---------------------------------------------------------------------------

/// The number of line feeds in a text.
pub open spec fn newlines(s: Seq<char>) -> nat
    decreases s.len(),
{
    if s.len() == 0 {
        0
    } else {
        newlines(s.drop_last()) + (if s.last() == '\n' {
            1nat
        } else {
            0nat
        })
    }
}

/// What is kept of a line: nothing of a version directive.
pub open spec fn kept(line: Seq<char>) -> Seq<char> {
    if text::begins_with(text::trim(line), "#version"@) {
        Seq::<char>::empty()
    } else {
        line
    }
}

/// The kept lines, each with a line feed behind it.
pub open spec fn kept_lines(ls: Seq<Seq<char>>) -> Seq<char>
    decreases ls.len(),
{
    if ls.len() == 0 {
        Seq::<char>::empty()
    } else {
        (kept_lines(ls.drop_last()) + kept(ls.last())).push('\n')
    }
}

/// A source without its version directives, line by line.
pub open spec fn stripped(source: Seq<char>) -> Seq<char> {
    kept_lines(text::lines(source))
}

/// The texture and sampler of one channel.
pub open spec fn channel_decl(ch: nat, cube: bool) -> Seq<char> {
    "layout(set = 1, binding = "@ + text::decimal(ch * 2) + ") uniform "@ + (if cube {
        "textureCube"@
    } else {
        "texture2D"@
    }) + " iChannel"@ + text::decimal(ch) + "_tex;\nlayout(set = 1, binding = "@ + text::decimal(ch * 2 + 1)
        + ") uniform sampler iChannel"@ + text::decimal(ch) + "_sampler;\n"@
}

/// The name under which a shader samples one channel.
pub open spec fn channel_define(ch: nat, cube: bool) -> Seq<char> {
    "#define iChannel"@ + text::decimal(ch) + " "@ + (if cube {
        "samplerCube"@
    } else {
        "sampler2D"@
    }) + "(iChannel"@ + text::decimal(ch) + "_tex, iChannel"@ + text::decimal(ch) + "_sampler)\n"@
}

/// The declarations of the first `n` channels.
pub open spec fn channel_decls(cube: Seq<bool>, n: nat) -> Seq<char>
    decreases n,
{
    if n == 0 {
        Seq::<char>::empty()
    } else {
        channel_decls(cube, (n - 1) as nat) + channel_decl((n - 1) as nat, cube[n - 1])
    }
}

/// The names of the first `n` channels.
pub open spec fn channel_defines(cube: Seq<bool>, n: nat) -> Seq<char>
    decreases n,
{
    if n == 0 {
        Seq::<char>::empty()
    } else {
        channel_defines(cube, (n - 1) as nat) + channel_define((n - 1) as nat, cube[n - 1])
    }
}

/// The engine's header for a pass whose channels are cubemaps as `cube` says.
pub open spec fn header(cube: Seq<bool>) -> Seq<char> {
    ((UNIFORM_BLOCK@ + channel_decls(cube, 4)).push('\n') + channel_defines(cube, 4) + MATRIX_OVERLOADS@).push('\n')
}

/// What stands before the user's shader.
pub open spec fn prelude(common: Option<Seq<char>>, cube: Seq<bool>) -> Seq<char> {
    match common {
        Some(c) if stripped(c).len() > 0 => ((header(cube) + COMMON_BEGIN@).push('\n') + stripped(c)
            + COMMON_END@).push('\n'),
        _ => header(cube),
    }
}

/// What stands behind the user's shader.
pub open spec fn entry(stage: ShaderStage, final_pass: bool) -> Seq<char> {
    if stage != ShaderStage::Fragment {
        Seq::<char>::empty()
    } else if final_pass {
        IMAGE_ENTRY@
    } else {
        BUFFER_ENTRY@
    }
}

/// The text of a source that may be missing.
pub open spec fn option_text(s: Option<&str>) -> Option<Seq<char>> {
    match s {
        Some(c) => Some(c@),
        None => None,
    }
}

/// The origin of line `line` (the first is 1) of a preprocessed shader.
pub open spec fn origin(map: SourceMap, line: int) -> Seq<char> {
    if map.prelude_newlines < line <= map.prelude_newlines + map.body_lines {
        "line "@ + text::decimal((line - map.prelude_newlines) as nat)
    } else if map.has_common && map.header_newlines < line <= map.prelude_newlines {
        "common.glsl line "@ + text::decimal((line - map.header_newlines - 1) as nat)
    } else {
        "engine-generated code"@
    }
}

// ---------------------------------------------------------------------------
// Functions
// ---------------------------------------------------------------------------

impl SourceMap {
    /// The origin of a line (the first is 1) of the preprocessed shader, for the
    /// user to read.
    pub fn describe(&self, line: usize) -> (r: String)
        requires
            self.prelude_newlines + self.body_lines <= usize::MAX,
        ensures
            r@ == origin(*self, line as int),
    {
        if line > self.prelude_newlines && line <= self.prelude_newlines + self.body_lines {
            let mut r = "line ".to_owned();
            r.append(decimal_of((line - self.prelude_newlines) as u64).as_str());
            r
        } else if self.has_common && line > self.header_newlines && line <= self.prelude_newlines {
            let mut r = "common.glsl line ".to_owned();
            r.append(decimal_of((line - self.header_newlines - 1) as u64).as_str());
            r
        } else {
            "engine-generated code".to_owned()
        }
    }
}

fn push_text(v: &mut Vec<char>, tail: &str)
    ensures
        final(v)@ == old(v)@ + tail@,
{
    push_chars(v, &chars_of(tail));
}

/// A source without its version directives. A blank line stays in the place of
/// each, so that the lines keep their numbers.
fn strip_versions(source: &str) -> (r: Vec<char>)
    ensures
        r@ == stripped(source@),
{
    let ls = lines_of(&chars_of(source));
    let directive = chars_of("#version");
    let mut out: Vec<char> = Vec::new();
    let mut i: usize = 0;
    let ghost all = text::buffers(ls@);
    assert(all.subrange(0, 0) =~= Seq::<Seq<char>>::empty());
    while i < ls.len()
        invariant
            i <= ls.len(),
            all == text::buffers(ls@),
            directive@ == "#version"@,
            out@ == kept_lines(all.subrange(0, i as int)),
        decreases ls.len() - i,
    {
        assert(all.subrange(0, i + 1).drop_last() =~= all.subrange(0, i as int));
        let t = trim_chars(&ls[i]);
        let ghost before = out@;
        if !is_text_at(&t, &directive, 0) {
            push_chars(&mut out, &ls[i]);
        } else {
            assert(before + Seq::<char>::empty() =~= before);
        }
        out.push('\n');
        i = i + 1;
    }
    assert(all.subrange(0, ls@.len() as int) =~= all);
    out
}

fn count_newlines(s: &Vec<char>) -> (r: usize)
    ensures
        r == newlines(s@),
        r <= s@.len(),
{
    let mut n: usize = 0;
    let mut i: usize = 0;
    assert(s@.subrange(0, 0) =~= Seq::<char>::empty());
    while i < s.len()
        invariant
            i <= s.len(),
            n <= i,
            n == newlines(s@.subrange(0, i as int)),
        decreases s.len() - i,
    {
        assert(s@.subrange(0, i + 1).drop_last() =~= s@.subrange(0, i as int));
        if s[i] == '\n' {
            n = n + 1;
        }
        i = i + 1;
    }
    assert(s@.subrange(0, s@.len() as int) =~= s@);
    n
}

fn push_channel_decl(out: &mut Vec<char>, ch: u64, cube: bool)
    requires
        ch < 4,
    ensures
        final(out)@ == old(out)@ + channel_decl(ch as nat, cube),
{
    let n = decimal_of(ch);
    let mut t = "layout(set = 1, binding = ".to_owned();
    t.append(decimal_of(ch * 2).as_str());
    t.append(") uniform ");
    t.append(if cube { "textureCube" } else { "texture2D" });
    t.append(" iChannel");
    t.append(n.as_str());
    t.append("_tex;\nlayout(set = 1, binding = ");
    t.append(decimal_of(ch * 2 + 1).as_str());
    t.append(") uniform sampler iChannel");
    t.append(n.as_str());
    t.append("_sampler;\n");
    push_text(out, t.as_str());
}

fn push_channel_define(out: &mut Vec<char>, ch: u64, cube: bool)
    requires
        ch < 4,
    ensures
        final(out)@ == old(out)@ + channel_define(ch as nat, cube),
{
    let n = decimal_of(ch);
    let mut t = "#define iChannel".to_owned();
    t.append(n.as_str());
    t.append(" ");
    t.append(if cube { "samplerCube" } else { "sampler2D" });
    t.append("(iChannel");
    t.append(n.as_str());
    t.append("_tex, iChannel");
    t.append(n.as_str());
    t.append("_sampler)\n");
    push_text(out, t.as_str());
}

/// The engine's header for a pass.
fn build_header(cube: &[bool; 4]) -> (r: Vec<char>)
    ensures
        r@ == header(cube@),
{
    let mut out = chars_of(UNIFORM_BLOCK);
    let ghost start = out@;
    let mut ch: usize = 0;
    assert(start + Seq::<char>::empty() =~= start);
    while ch < 4
        invariant
            ch <= 4,
            out@ == start + channel_decls(cube@, ch as nat),
        decreases 4 - ch,
    {
        push_channel_decl(&mut out, ch as u64, cube[ch]);
        ch = ch + 1;
        assert(out@ =~= start + channel_decls(cube@, ch as nat));
    }
    out.push('\n');
    let ghost middle = out@;
    ch = 0;
    assert(middle + Seq::<char>::empty() =~= middle);
    while ch < 4
        invariant
            ch <= 4,
            out@ == middle + channel_defines(cube@, ch as nat),
        decreases 4 - ch,
    {
        push_channel_define(&mut out, ch as u64, cube[ch]);
        ch = ch + 1;
        assert(out@ =~= middle + channel_defines(cube@, ch as nat));
    }
    push_text(&mut out, MATRIX_OVERLOADS);
    out.push('\n');
    out
}

/// The source that is compiled for a pass, and the map from its lines to the
/// user's. `final_pass` is set for the pass that is shown, whose coordinates are
/// flipped; `cube_channels` says which channels sample a cubemap.
pub fn preprocess_shader(
    shader_body: &str,
    common_glsl: Option<&str>,
    stage: ShaderStage,
    final_pass: bool,
    cube_channels: [bool; 4],
) -> (r: (String, SourceMap))
    ensures
        r.0@ == prelude(option_text(common_glsl), cube_channels@) + stripped(shader_body@) + entry(stage, final_pass),
        r.1.header_newlines == newlines(header(cube_channels@)),
        r.1.prelude_newlines == newlines(prelude(option_text(common_glsl), cube_channels@)),
        r.1.body_lines == newlines(stripped(shader_body@)),
        r.1.has_common == (common_glsl is Some && stripped(common_glsl->0@).len() > 0),
        r.1.prelude_newlines + r.1.body_lines <= usize::MAX,
{
    let body = strip_versions(shader_body);
    let common = match common_glsl {
        Some(c) => strip_versions(c),
        None => Vec::new(),
    };
    let mut out = build_header(&cube_channels);
    let header_newlines = count_newlines(&out);
    let has_common = common.len() > 0;
    if has_common {
        push_text(&mut out, COMMON_BEGIN);
        out.push('\n');
        push_chars(&mut out, &common);
        push_text(&mut out, COMMON_END);
        out.push('\n');
    }
    let prelude_newlines = count_newlines(&out);
    let body_lines = count_newlines(&body);
    push_chars(&mut out, &body);
    if stage == ShaderStage::Fragment {
        if final_pass {
            push_text(&mut out, IMAGE_ENTRY);
        } else {
            push_text(&mut out, BUFFER_ENTRY);
        }
    } else {
        assert(out@ + Seq::<char>::empty() =~= out@);
    }
    assert(prelude_newlines + body_lines <= out.len());
    let map = SourceMap { header_newlines, prelude_newlines, body_lines, has_common };
    (string_of(&out), map)
}

// ---------------------------------------------------------------------------
// What the compiler reported
// ---------------------------------------------------------------------------

/// One error of the GLSL front end: the line it points at and its description.
pub struct ShaderFault {
    pub line: usize,
    pub kind: String,
}

/// What came of compiling a preprocessed shader.
pub enum CompileOutcome {
    /// The source was parsed and the module is valid.
    Valid,
    /// The source was not parsed.
    ParseErrors(Vec<ShaderFault>),
    /// The front end gave up on the source without an error.
    ParserPanicked,
    /// The module is not valid; the line is there where the error has one.
    Invalid(Option<usize>, String),
    /// The validator gave up on the module without an error.
    ValidatorPanicked,
}

/// The place of a line, by the map where there is one.
pub open spec fn place(map: Option<SourceMap>, line: int) -> Seq<char> {
    match map {
        Some(m) => origin(m, line),
        None => "line "@ + text::decimal(line as nat),
    }
}

/// The faults of a source, one on each line.
pub open spec fn fault_list(map: Option<SourceMap>, faults: Seq<ShaderFault>) -> Seq<char>
    decreases faults.len(),
{
    if faults.len() == 0 {
        "GLSL compile error(s):\n"@
    } else {
        fault_list(map, faults.drop_last()) + "  - "@ + place(map, faults.last().line as int) + ": "@
            + faults.last().kind@ + "\n"@
    }
}

/// The message for an outcome; none where the shader compiled.
pub open spec fn compile_message(outcome: CompileOutcome, map: Option<SourceMap>) -> Option<Seq<char>> {
    match outcome {
        CompileOutcome::Valid => None,
        CompileOutcome::ParseErrors(faults) => Some(fault_list(map, faults@)),
        CompileOutcome::ParserPanicked => Some("GLSL frontend panicked (unsupported construct)"@),
        CompileOutcome::Invalid(Some(line), e) => Some(
            "Shader validation error at "@ + place(map, line as int) + ": "@ + e@,
        ),
        CompileOutcome::Invalid(None, e) => Some("Shader validation error: "@ + e@),
        CompileOutcome::ValidatorPanicked => Some("Shader validator panicked"@),
    }
}

/// A map whose line numbers do not overflow.
pub open spec fn usable(map: Option<SourceMap>) -> bool {
    map matches Some(m) ==> m.prelude_newlines + m.body_lines <= usize::MAX
}

/// The map behind a reference.
pub open spec fn option_map(map: Option<&SourceMap>) -> Option<SourceMap> {
    match map {
        Some(m) => Some(*m),
        None => None,
    }
}

fn place_of(map: Option<&SourceMap>, line: usize) -> (r: String)
    requires
        usable(option_map(map)),
    ensures
        r@ == place(option_map(map), line as int),
{
    match map {
        Some(m) => m.describe(line),
        None => {
            let mut r = "line ".to_owned();
            r.append(decimal_of(line as u64).as_str());
            r
        },
    }
}

/// The result of compiling a shader: an error that names the user's own lines
/// where the shader did not compile.
pub fn compile_shader_mapped(outcome: &CompileOutcome, map: Option<&SourceMap>) -> (r: Result<(), String>)
    requires
        usable(option_map(map)),
    ensures
        match r {
            Ok(_) => compile_message(*outcome, option_map(map)) is None,
            Err(e) => compile_message(*outcome, option_map(map)) == Some(e@),
        },
{
    match outcome {
        CompileOutcome::Valid => Ok(()),
        CompileOutcome::ParseErrors(faults) => {
            let mut out = "GLSL compile error(s):\n".to_owned();
            let mut i: usize = 0;
            assert(faults@.subrange(0, 0) =~= Seq::<ShaderFault>::empty());
            while i < faults.len()
                invariant
                    i <= faults.len(),
                    usable(option_map(map)),
                    out@ == fault_list(option_map(map), faults@.subrange(0, i as int)),
                decreases faults.len() - i,
            {
                assert(faults@.subrange(0, i + 1).drop_last() =~= faults@.subrange(0, i as int));
                out.append("  - ");
                out.append(place_of(map, faults[i].line).as_str());
                out.append(": ");
                out.append(faults[i].kind.as_str());
                out.append("\n");
                i = i + 1;
            }
            assert(faults@.subrange(0, faults@.len() as int) =~= faults@);
            Err(out)
        },
        CompileOutcome::ParserPanicked => Err("GLSL frontend panicked (unsupported construct)".to_owned()),
        CompileOutcome::Invalid(Some(line), e) => {
            let mut out = "Shader validation error at ".to_owned();
            out.append(place_of(map, *line).as_str());
            out.append(": ");
            out.append(e.as_str());
            Err(out)
        },
        CompileOutcome::Invalid(None, e) => {
            let mut out = "Shader validation error: ".to_owned();
            out.append(e.as_str());
            Err(out)
        },
        CompileOutcome::ValidatorPanicked => Err("Shader validator panicked".to_owned()),
    }
}

/// The result of compiling a shader, with the lines of the compiled source.
pub fn compile_shader(outcome: &CompileOutcome) -> (r: Result<(), String>)
    ensures
        match r {
            Ok(_) => compile_message(*outcome, None) is None,
            Err(e) => compile_message(*outcome, None) == Some(e@),
        },
{
    compile_shader_mapped(outcome, None)
}

// ---------------------------------------------------------------------------
// Lines keep their numbers
// ---------------------------------------------------------------------------

/// The lines of a text, line feeds taken as separators.
pub open spec fn rows(s: Seq<char>) -> Seq<Seq<char>> {
    text::split(s, seq!['\n'])
}

proof fn lemma_newline_set(c: char)
    ensures
        seq!['\n'].contains(c) == (c == '\n'),
{
    assert(seq!['\n'][0] == '\n');
}

proof fn lemma_rows_len(s: Seq<char>)
    ensures
        rows(s).len() == newlines(s) + 1,
    decreases s.len(),
{
    if s.len() > 0 {
        lemma_rows_len(s.drop_last());
        lemma_newline_set(s.last());
    }
}

proof fn lemma_rows_append(a: Seq<char>, b: Seq<char>)
    requires
        a.len() == 0 || a.last() == '\n',
    ensures
        rows(a + b) == rows(a).drop_last() + rows(b),
        newlines(a + b) == newlines(a) + newlines(b),
    decreases b.len(),
{
    if b.len() == 0 {
        assert(a + b =~= a);
        if a.len() > 0 {
            lemma_newline_set(a.last());
        }
        assert(rows(a).last() =~= Seq::<char>::empty());
        lemma_rows_len(a);
        assert(rows(a) =~= rows(a).drop_last() + rows(b));
    } else {
        assert((a + b).drop_last() =~= a + b.drop_last());
        assert((a + b).last() == b.last());
        lemma_rows_append(a, b.drop_last());
        lemma_rows_len(b.drop_last());
        lemma_rows_len(a);
        lemma_newline_set(b.last());
        let left = rows(a).drop_last();
        let right = rows(b.drop_last());
        if b.last() == '\n' {
            assert(rows(a + b) =~= left + rows(b));
        } else {
            assert((left + right).last() == right.last());
            assert((left + right).drop_last() =~= left + right.drop_last());
            assert(rows(a + b) =~= left + rows(b));
        }
    }
}

proof fn lemma_one_row(s: Seq<char>)
    requires
        !s.contains('\n'),
    ensures
        rows(s) == seq![s],
        newlines(s) == 0,
    decreases s.len(),
{
    if s.len() > 0 {
        assert(!s.drop_last().contains('\n')) by {
            if s.drop_last().contains('\n') {
                let k = choose|k: int| 0 <= k < s.drop_last().len() && s.drop_last()[k] == '\n';
                assert(s[k] == '\n');
            }
        }
        lemma_one_row(s.drop_last());
        assert(s[s.len() - 1] != '\n');
        lemma_newline_set(s.last());
        assert(rows(s) =~= seq![s]) by {
            assert(s.drop_last().push(s.last()) =~= s);
        }
    } else {
        assert(s =~= Seq::<char>::empty());
    }
}

proof fn lemma_lines_have_no_newline(s: Seq<char>, k: int)
    requires
        0 <= k < text::lines(s).len(),
    ensures
        !text::lines(s)[k].contains('\n'),
    decreases s.len(),
{
    if s.contains('\n') {
        let w = choose|w: int| 0 <= w < s.len() && s[w] == '\n';
        lemma_first_char_exists(s, '\n', w);
        let i = choose|i: int| text::first_char(s, '\n', i);
        let head = text::chomp(s.subrange(0, i));
        if k == 0 {
            assert(text::lines(s)[0] == head);
            if head.contains('\n') {
                let j = choose|j: int| 0 <= j < head.len() && head[j] == '\n';
                assert(s[j] == '\n');
            }
        } else {
            let rest = s.subrange(i + 1, s.len() as int);
            assert(text::lines(s)[k] == text::lines(rest)[k - 1]);
            lemma_lines_have_no_newline(rest, k - 1);
        }
    }
}

proof fn lemma_first_char_exists(s: Seq<char>, c: char, w: int)
    requires
        0 <= w < s.len(),
        s[w] == c,
    ensures
        exists|i: int| text::first_char(s, c, i),
    decreases w,
{
    if forall|j: int| 0 <= j < w ==> s[j] != c {
        assert(text::first_char(s, c, w));
    } else {
        let j = choose|j: int| 0 <= j < w && s[j] == c;
        lemma_first_char_exists(s, c, j);
    }
}

proof fn lemma_kept_lines_split(ls: Seq<Seq<char>>, k: int)
    requires
        0 <= k <= ls.len(),
    ensures
        kept_lines(ls) == kept_lines(ls.subrange(0, k)) + kept_lines(ls.subrange(k, ls.len() as int)),
    decreases ls.len(),
{
    if k == ls.len() {
        assert(ls.subrange(0, k) =~= ls);
        assert(kept_lines(ls.subrange(k, k)) =~= Seq::<char>::empty());
        assert(kept_lines(ls) =~= kept_lines(ls.subrange(0, k)) + kept_lines(ls.subrange(k, ls.len() as int)));
    } else {
        let d = ls.drop_last();
        lemma_kept_lines_split(d, k);
        let tail = ls.subrange(k, ls.len() as int);
        assert(d.subrange(0, k) =~= ls.subrange(0, k));
        assert(tail.drop_last() =~= d.subrange(k, d.len() as int));
        assert(kept_lines(ls) =~= kept_lines(ls.subrange(0, k)) + kept_lines(tail));
    }
}

/// Every kept line is one row: what precedes row `k` has `k` line feeds.
proof fn lemma_kept_rows(ls: Seq<Seq<char>>)
    requires
        forall|k: int| 0 <= k < ls.len() ==> !(#[trigger] ls[k]).contains('\n'),
    ensures
        newlines(kept_lines(ls)) == ls.len(),
        kept_lines(ls).len() == 0 || kept_lines(ls).last() == '\n',
    decreases ls.len(),
{
    if ls.len() > 0 {
        let d = ls.drop_last();
        assert forall|k: int| 0 <= k < d.len() implies !(#[trigger] d[k]).contains('\n') by {
            assert(d[k] == ls[k]);
        }
        lemma_kept_rows(d);
        let line = kept(ls.last());
        assert(!line.contains('\n')) by {
            assert(!ls[ls.len() - 1].contains('\n'));
        }
        lemma_one_row(line);
        lemma_rows_append(kept_lines(d), line);
        assert((kept_lines(d) + line).push('\n').drop_last() =~= kept_lines(d) + line);
    } else {
        assert(kept_lines(ls) =~= Seq::<char>::empty());
    }
}

/// Row `k` behind `before` is the kept line `k`, whatever follows the lines.
proof fn lemma_row_of_line(before: Seq<char>, ls: Seq<Seq<char>>, tail: Seq<char>, k: int)
    requires
        0 <= k < ls.len(),
        before.len() > 0,
        before.last() == '\n',
        forall|j: int| 0 <= j < ls.len() ==> !(#[trigger] ls[j]).contains('\n'),
    ensures
        rows(before + kept_lines(ls) + tail).len() > newlines(before) + k,
        rows(before + kept_lines(ls) + tail)[newlines(before) + k] == kept(ls[k]),
{
    let first = ls.subrange(0, k);
    let rest = ls.subrange(k, ls.len() as int);
    lemma_kept_lines_split(ls, k);
    assert forall|j: int| 0 <= j < first.len() implies !(#[trigger] first[j]).contains('\n') by {
        assert(first[j] == ls[j]);
    }
    lemma_kept_rows(first);
    let one = rest.subrange(0, 1);
    let others = rest.subrange(1, rest.len() as int);
    lemma_kept_lines_split(rest, 1);
    let line = kept(ls[k]);
    assert(kept_lines(one) =~= line.push('\n')) by {
        assert(one.drop_last() =~= Seq::<Seq<char>>::empty());
        assert(kept_lines(one.drop_last()) =~= Seq::<char>::empty());
        assert(one.last() == ls[k]);
    }
    let a = before + kept_lines(first);
    let row = line.push('\n');
    let b = kept_lines(others) + tail;
    assert(before + kept_lines(ls) + tail =~= a + (row + b));
    assert(a.last() == '\n') by {
        if kept_lines(first).len() == 0 {
            assert(a =~= before);
        } else {
            assert(a.last() == kept_lines(first).last());
        }
    }
    lemma_rows_append(a, row + b);
    lemma_rows_len(a);
    lemma_rows_append(before, kept_lines(first));
    assert(!line.contains('\n')) by {
        assert(!ls[k].contains('\n'));
    }
    lemma_one_row(line);
    lemma_rows_append(row, b);
    assert(row.drop_last() =~= line);
    lemma_newline_set('\n');
    assert(rows(row) =~= seq![line].push(Seq::<char>::empty()));
    lemma_rows_len(b);
    assert(rows(row + b)[0] == line);
}

/// The lines of a shader keep their numbers: line `k` of the user's source
/// (counted from 0) is row `prelude_newlines + k` of the source that is compiled,
/// blank where it was a version directive, and the map describes that row as the
/// user's line.
pub proof fn law_lines_keep_their_numbers(
    body: Seq<char>,
    common: Option<Seq<char>>,
    stage: ShaderStage,
    final_pass: bool,
    cube: Seq<bool>,
    map: SourceMap,
    k: int,
)
    requires
        0 <= k < text::lines(body).len(),
        map.prelude_newlines == newlines(prelude(common, cube)),
        map.body_lines == newlines(stripped(body)),
    ensures
        rows(prelude(common, cube) + stripped(body) + entry(stage, final_pass))[map.prelude_newlines + k] == kept(
            text::lines(body)[k],
        ),
        origin(map, map.prelude_newlines + k + 1) == "line "@ + text::decimal((k + 1) as nat),
        map.body_lines == text::lines(body).len(),
{
    let ls = text::lines(body);
    let before = prelude(common, cube);
    assert forall|j: int| 0 <= j < ls.len() implies !(#[trigger] ls[j]).contains('\n') by {
        lemma_lines_have_no_newline(body, j);
    }
    lemma_kept_rows(ls);
    assert(before.len() > 0 && before.last() == '\n');
    lemma_row_of_line(before, ls, entry(stage, final_pass), k);
}

/// The lines of the common source keep their numbers too: its line `k` (counted
/// from 0) stands behind the header and one marker row, and the map describes that
/// row as line `k + 1` of the common source.
pub proof fn law_common_lines_keep_their_numbers(
    body: Seq<char>,
    common: Seq<char>,
    stage: ShaderStage,
    final_pass: bool,
    cube: Seq<bool>,
    map: SourceMap,
    k: int,
)
    requires
        0 <= k < text::lines(common).len(),
        map.header_newlines == newlines(header(cube)),
        map.prelude_newlines == newlines(prelude(Some(common), cube)),
        map.has_common,
    ensures
        rows(prelude(Some(common), cube) + stripped(body) + entry(stage, final_pass))[map.header_newlines + 1 + k]
            == kept(text::lines(common)[k]),
        origin(map, map.header_newlines + 1 + k + 1) == "common.glsl line "@ + text::decimal((k + 1) as nat),
{
    let ls = text::lines(common);
    assert forall|j: int| 0 <= j < ls.len() implies !(#[trigger] ls[j]).contains('\n') by {
        lemma_lines_have_no_newline(common, j);
    }
    lemma_kept_rows(ls);
    lemma_kept_lines_split(ls, ls.len() as int);
    assert(stripped(common).len() > 0) by {
        if stripped(common).len() == 0 {
            assert(newlines(stripped(common)) == 0);
        }
    }
    let marker = COMMON_BEGIN@;
    assert(!marker.contains('\n')) by {
        reveal_strlit("// --- COMMON GLSL INJECTION ---");
    }
    lemma_one_row(marker);
    let head = header(cube);
    let before = (head + marker).push('\n');
    lemma_rows_append(head, marker);
    assert(before.drop_last() =~= head + marker);
    assert(newlines(before) == newlines(head) + 1);
    let end = COMMON_END@.push('\n');
    let tail = end + (stripped(body) + entry(stage, final_pass));
    assert(prelude(Some(common), cube) =~= before + kept_lines(ls) + end);
    assert(prelude(Some(common), cube) + stripped(body) + entry(stage, final_pass) =~= before + kept_lines(ls)
        + tail);
    lemma_row_of_line(before, ls, tail, k);
    let upto = before + kept_lines(ls);
    lemma_rows_append(before, kept_lines(ls));
    assert(upto.last() == '\n') by {
        assert(upto.last() == kept_lines(ls).last());
    }
    lemma_rows_append(upto, end);
    assert(end.last() == '\n');
    assert(newlines(end) >= 1);
}

/// What the entry point of the shown pass does: it shifts the pixel by the offset of the
/// monitor, turns the height over, calls the shader, and applies the opacity of the layer,
/// for multiplied layers towards white.
pub proof fn law_shown_pass_is_composited()
    ensures
        text::has_text(IMAGE_ENTRY@, "vec2 globalFrag = gl_FragCoord.xy + iMonitorOffset;"@),
        text::has_text(IMAGE_ENTRY@, "vec2 fragCoord = vec2(globalFrag.x, iResolution.y - globalFrag.y);"@),
        text::has_text(IMAGE_ENTRY@, "mainImage(color, fragCoord);"@),
        text::has_text(IMAGE_ENTRY@, "if (iBlendMode == 2) {"@),
        text::has_text(IMAGE_ENTRY@, "outColor = vec4(mix(vec3(1.0), color.rgb, iOpacity), 1.0);"@),
        text::has_text(IMAGE_ENTRY@, "float a = iOpacity;"@),
        text::has_text(IMAGE_ENTRY@, "outColor = vec4(color.rgb * a, a);"@),
{
    reveal_strlit(
        "\n\
    layout(location = 0) out vec4 outColor;\n\
    void main() {\n\
    \x20   // Map this monitor's pixel into the global canvas.  In the normal\n\
    \x20   // independent case iMonitorOffset is (0,0) and iResolution equals the\n\
    \x20   // monitor's own size, so this reduces to the usual full-screen mapping.\n\
    \x20   // In \"Span Monitors\" mode iMonitorOffset is this monitor's top-left within\n\
    \x20   // the unified desktop canvas and iResolution is the whole canvas, so each\n\
    \x20   // screen renders just its slice of one continuous shader.\n\
    \x20   vec2 globalFrag = gl_FragCoord.xy + iMonitorOffset;\n\
    \x20   // Flip Y to match Shadertoy's bottom-left origin (within the canvas space).\n\
    \x20   vec2 fragCoord = vec2(globalFrag.x, iResolution.y - globalFrag.y);\n\
    \x20   vec4 color = vec4(0.0, 0.0, 0.0, 1.0);\n\
    \x20   mainImage(color, fragCoord);\n\
    \n\
    \x20   // Per-layer compositing for the screen 'image' pass.  Offscreen passes keep\n\
    \x20   // iOpacity = 1 / iBlendMode = 0 (engine default), so this is a no-op there.\n\
    \x20   if (iBlendMode == 2) {\n\
    \x20       // Multiply: fade toward the identity (white) as opacity drops, so the\n\
    \x20       // hardware multiply blend (src*dst) leaves the backdrop untouched at 0.\n\
    \x20       outColor = vec4(mix(vec3(1.0), color.rgb, iOpacity), 1.0);\n\
    \x20   } else {\n\
    \x20       // Normal / additive: premultiplied output (rgb*a). Shadertoy's image pass\n\
    \x20       // treats fragColor as OPAQUE (its alpha is ignored), so we use the user's\n\
    \x20       // layer opacity as alpha — NOT color.a. Many shaders leave a garbage or\n\
    \x20       // <1 alpha (e.g. a final tanh()) which would otherwise dim the wallpaper.\n\
    \x20       float a = iOpacity;\n\
    \x20       outColor = vec4(color.rgb * a, a);\n\
    \x20   }\n\
    }\n\
    ",
    );
    reveal_strlit("vec2 globalFrag = gl_FragCoord.xy + iMonitorOffset;");
    assert(IMAGE_ENTRY@.subrange(504, 555) =~= "vec2 globalFrag = gl_FragCoord.xy + iMonitorOffset;"@);
    assert(text::text_at(IMAGE_ENTRY@, "vec2 globalFrag = gl_FragCoord.xy + iMonitorOffset;"@, 504));
    reveal_strlit("vec2 fragCoord = vec2(globalFrag.x, iResolution.y - globalFrag.y);");
    assert(IMAGE_ENTRY@.subrange(641, 707) =~= "vec2 fragCoord = vec2(globalFrag.x, iResolution.y - globalFrag.y);"@);
    assert(text::text_at(IMAGE_ENTRY@, "vec2 fragCoord = vec2(globalFrag.x, iResolution.y - globalFrag.y);"@, 641));
    reveal_strlit("mainImage(color, fragCoord);");
    assert(IMAGE_ENTRY@.subrange(755, 783) =~= "mainImage(color, fragCoord);"@);
    assert(text::text_at(IMAGE_ENTRY@, "mainImage(color, fragCoord);"@, 755));
    reveal_strlit("if (iBlendMode == 2) {");
    assert(IMAGE_ENTRY@.subrange(951, 973) =~= "if (iBlendMode == 2) {"@);
    assert(text::text_at(IMAGE_ENTRY@, "if (iBlendMode == 2) {"@, 951));
    reveal_strlit("outColor = vec4(mix(vec3(1.0), color.rgb, iOpacity), 1.0);");
    assert(IMAGE_ENTRY@.subrange(1142, 1200) =~= "outColor = vec4(mix(vec3(1.0), color.rgb, iOpacity), 1.0);"@);
    assert(text::text_at(IMAGE_ENTRY@, "outColor = vec4(mix(vec3(1.0), color.rgb, iOpacity), 1.0);"@, 1142));
    reveal_strlit("float a = iOpacity;");
    assert(IMAGE_ENTRY@.subrange(1552, 1571) =~= "float a = iOpacity;"@);
    assert(text::text_at(IMAGE_ENTRY@, "float a = iOpacity;"@, 1552));
    reveal_strlit("outColor = vec4(color.rgb * a, a);");
    assert(IMAGE_ENTRY@.subrange(1580, 1614) =~= "outColor = vec4(color.rgb * a, a);"@);
    assert(text::text_at(IMAGE_ENTRY@, "outColor = vec4(color.rgb * a, a);"@, 1580));
}

/// What the entry point of a buffer does: it hands the shader the pixel as it is and keeps
/// the color as it is.
pub proof fn law_buffer_pass_is_plain()
    ensures
        text::has_text(BUFFER_ENTRY@, "void main() {\n    vec2 fragCoord = gl_FragCoord.xy;\n"@),
        text::has_text(BUFFER_ENTRY@, "mainImage(color, fragCoord);\n    outColor = color;\n}\n"@),
{
    reveal_strlit(
        "\n\
    layout(location = 0) out vec4 outColor;\n\
    void main() {\n\
    \x20   vec2 fragCoord = gl_FragCoord.xy;\n\
    \x20   vec4 color = vec4(0.0, 0.0, 0.0, 1.0);\n\
    \x20   mainImage(color, fragCoord);\n\
    \x20   outColor = color;\n\
    }\n\
    ",
    );
    reveal_strlit("void main() {\n    vec2 fragCoord = gl_FragCoord.xy;\n");
    assert(BUFFER_ENTRY@.subrange(41, 93) =~= "void main() {\n    vec2 fragCoord = gl_FragCoord.xy;\n"@);
    assert(text::text_at(BUFFER_ENTRY@, "void main() {\n    vec2 fragCoord = gl_FragCoord.xy;\n"@, 41));
    reveal_strlit("mainImage(color, fragCoord);\n    outColor = color;\n}\n");
    assert(BUFFER_ENTRY@.subrange(140, 193) =~= "mainImage(color, fragCoord);\n    outColor = color;\n}\n"@);
    assert(text::text_at(BUFFER_ENTRY@, "mainImage(color, fragCoord);\n    outColor = color;\n}\n"@, 140));
}

/// The overloads for the matrix constructor put a number on the diagonal, and the four
/// parts of a vector into the columns.
pub proof fn law_matrices_are_spelled_out()
    ensures
        text::has_text(MATRIX_OVERLOADS@, "mat2 _stm2(float s) { return mat2(s, 0.0, 0.0, s); }"@),
        text::has_text(MATRIX_OVERLOADS@, "mat2 _stm2(vec4 v) { return mat2(v.x, v.y, v.z, v.w); }"@),
{
    reveal_strlit(
        "\nmat2 _stm2(float s) { return mat2(s, 0.0, 0.0, s); }\n\
    mat2 _stm2(vec4 v) { return mat2(v.x, v.y, v.z, v.w); }",
    );
    reveal_strlit("mat2 _stm2(float s) { return mat2(s, 0.0, 0.0, s); }");
    assert(MATRIX_OVERLOADS@.subrange(1, 53) =~= "mat2 _stm2(float s) { return mat2(s, 0.0, 0.0, s); }"@);
    assert(text::text_at(MATRIX_OVERLOADS@, "mat2 _stm2(float s) { return mat2(s, 0.0, 0.0, s); }"@, 1));
    reveal_strlit("mat2 _stm2(vec4 v) { return mat2(v.x, v.y, v.z, v.w); }");
    assert(MATRIX_OVERLOADS@.subrange(54, 109) =~= "mat2 _stm2(vec4 v) { return mat2(v.x, v.y, v.z, v.w); }"@);
    assert(text::text_at(MATRIX_OVERLOADS@, "mat2 _stm2(vec4 v) { return mat2(v.x, v.y, v.z, v.w); }"@, 54));
}

/// The shader reads the uniforms in the order in which the engine writes them, from the
/// first block of the first set, in a source of the version that has them.
pub proof fn law_uniforms_stand_in_their_order()
    ensures
        text::has_text(UNIFORM_BLOCK@, "#version 450\n"@),
        text::has_text(UNIFORM_BLOCK@, "layout(std140, set = 0, binding = 0) uniform GlobalUniforms {\n    vec3 iResolution;\n    float iTime;\n    float iTimeDelta;\n    float iFrameRate;\n    int iFrame;\n    float iSampleRate;\n    vec4 iMouse;\n    vec4 iDate;\n    vec4 iChannelTime;\n    vec4 iChannelResolution[4];\n    vec3 iGlobalResolution;\n    float _pad0;\n    vec2 iMonitorOffset;\n    float iOpacity;\n    int iBlendMode;\n};"@),
{
    reveal_strlit(
        "#version 450\n\
    \n\
    layout(std140, set = 0, binding = 0) uniform GlobalUniforms {\n\
    \x20   vec3 iResolution;\n\
    \x20   float iTime;\n\
    \x20   float iTimeDelta;\n\
    \x20   float iFrameRate;\n\
    \x20   int iFrame;\n\
    \x20   float iSampleRate;\n\
    \x20   vec4 iMouse;\n\
    \x20   vec4 iDate;\n\
    \x20   vec4 iChannelTime;\n\
    \x20   vec4 iChannelResolution[4];\n\
    \x20   vec3 iGlobalResolution;\n\
    \x20   float _pad0;\n\
    \x20   vec2 iMonitorOffset;\n\
    \x20   float iOpacity;\n\
    \x20   int iBlendMode;\n\
    };\n\
    \n\
    ",
    );
    reveal_strlit("#version 450\n");
    assert(UNIFORM_BLOCK@.subrange(0, 13) =~= "#version 450\n"@);
    assert(text::text_at(UNIFORM_BLOCK@, "#version 450\n"@, 0));
    reveal_strlit("layout(std140, set = 0, binding = 0) uniform GlobalUniforms {\n    vec3 iResolution;\n    float iTime;\n    float iTimeDelta;\n    float iFrameRate;\n    int iFrame;\n    float iSampleRate;\n    vec4 iMouse;\n    vec4 iDate;\n    vec4 iChannelTime;\n    vec4 iChannelResolution[4];\n    vec3 iGlobalResolution;\n    float _pad0;\n    vec2 iMonitorOffset;\n    float iOpacity;\n    int iBlendMode;\n};");
    assert(UNIFORM_BLOCK@.subrange(14, 398) =~= "layout(std140, set = 0, binding = 0) uniform GlobalUniforms {\n    vec3 iResolution;\n    float iTime;\n    float iTimeDelta;\n    float iFrameRate;\n    int iFrame;\n    float iSampleRate;\n    vec4 iMouse;\n    vec4 iDate;\n    vec4 iChannelTime;\n    vec4 iChannelResolution[4];\n    vec3 iGlobalResolution;\n    float _pad0;\n    vec2 iMonitorOffset;\n    float iOpacity;\n    int iBlendMode;\n};"@);
    assert(text::text_at(UNIFORM_BLOCK@, "layout(std140, set = 0, binding = 0) uniform GlobalUniforms {\n    vec3 iResolution;\n    float iTime;\n    float iTimeDelta;\n    float iFrameRate;\n    int iFrame;\n    float iSampleRate;\n    vec4 iMouse;\n    vec4 iDate;\n    vec4 iChannelTime;\n    vec4 iChannelResolution[4];\n    vec3 iGlobalResolution;\n    float _pad0;\n    vec2 iMonitorOffset;\n    float iOpacity;\n    int iBlendMode;\n};"@, 14));
}

/// What the graphics card is given ends with the entry point of the pass: that of the shown
/// pass where the pass is shown, that of a buffer where it is not; a source that is no
/// fragment shader gets none. Before it stands the shader of the author, and at the very
/// start the header.
pub proof fn law_sources_end_with_their_entry(
    body: Seq<char>,
    common: Option<Seq<char>>,
    stage: ShaderStage,
    final_pass: bool,
    cube: Seq<bool>,
)
    ensures
        ({
            let s = prelude(common, cube) + stripped(body) + entry(stage, final_pass);
            &&& stage == ShaderStage::Fragment && final_pass ==> text::ends_with(s, IMAGE_ENTRY@) && s.len()
                == prelude(common, cube).len() + stripped(body).len() + IMAGE_ENTRY@.len()
            &&& stage == ShaderStage::Fragment && !final_pass ==> text::ends_with(s, BUFFER_ENTRY@) && s.len()
                == prelude(common, cube).len() + stripped(body).len() + BUFFER_ENTRY@.len()
            &&& stage != ShaderStage::Fragment ==> text::ends_with(s, stripped(body))
            &&& text::text_at(s, stripped(body), prelude(common, cube).len() as int)
            &&& text::begins_with(s, header(cube))
            &&& common matches Some(c) ==> stripped(c).len() > 0 ==> text::text_at(
                s,
                COMMON_BEGIN@ + seq!['\n'] + stripped(c) + COMMON_END@ + seq!['\n'],
                header(cube).len() as int,
            )
        }),
{
    let p = prelude(common, cube);
    let b = stripped(body);
    let e = entry(stage, final_pass);
    let s = p + b + e;
    let h = header(cube);
    assert(s.subrange(p.len() as int, (p.len() + b.len()) as int) =~= b);
    assert(s.subrange(s.len() - e.len(), s.len() as int) =~= e);
    assert(p.subrange(0, h.len() as int) =~= h);
    assert(s.subrange(0, h.len() as int) =~= h);
    if stage != ShaderStage::Fragment {
        assert(s.subrange(s.len() - b.len(), s.len() as int) =~= b);
    }
    if let Some(c) = common {
        if stripped(c).len() > 0 {
            let t = COMMON_BEGIN@ + seq!['\n'] + stripped(c) + COMMON_END@ + seq!['\n'];
            assert(p =~= h + t);
            assert(s.subrange(h.len() as int, (h.len() + t.len()) as int) =~= t);
        }
    }
}

/// A channel is declared as what it samples: a cubemap or a flat texture, with a sampler
/// beside it, at bindings of its own, and the shader knows it by its name.
pub proof fn law_channels_are_declared(cube: Seq<bool>, ch: nat)
    requires
        cube.len() == 4,
        ch < 4,
    ensures
        ({
            let n = text::decimal(ch);
            let kind = if cube[ch as int] {
                "Cube"@
            } else {
                "2D"@
            };
            &&& text::has_text(
                header(cube),
                "layout(set = 1, binding = "@ + text::decimal(2 * ch) + ") uniform texture"@ + kind + " iChannel"@ + n
                    + "_tex;\n"@,
            )
            &&& text::has_text(
                header(cube),
                "layout(set = 1, binding = "@ + text::decimal(2 * ch + 1) + ") uniform sampler iChannel"@ + n
                    + "_sampler;\n"@,
            )
            &&& text::has_text(
                header(cube),
                "#define iChannel"@ + n + " sampler"@ + kind + "(iChannel"@ + n + "_tex, iChannel"@ + n + "_sampler)\n"@,
            )
        }),
{
    reveal_strlit("textureCube");
    reveal_strlit("texture2D");
    reveal_strlit("samplerCube");
    reveal_strlit("sampler2D");
    reveal_strlit("Cube");
    reveal_strlit("2D");
    reveal_strlit(") uniform ");
    reveal_strlit(") uniform texture");
    reveal_strlit(" ");
    reveal_strlit(" sampler");
    reveal_strlit("_tex;\n");
    reveal_strlit("_tex;\nlayout(set = 1, binding = ");
    reveal_strlit("layout(set = 1, binding = ");
    let n = text::decimal(ch);
    let c = cube[ch as int];
    let kind = if c {
        "Cube"@
    } else {
        "2D"@
    };
    let h = header(cube);
    assert(ch * 2 == 2 * ch);
    let tex = "layout(set = 1, binding = "@ + text::decimal(2 * ch) + ") uniform texture"@ + kind + " iChannel"@ + n
        + "_tex;\n"@;
    let smp = "layout(set = 1, binding = "@ + text::decimal(2 * ch + 1) + ") uniform sampler iChannel"@ + n
        + "_sampler;\n"@;
    let def = "#define iChannel"@ + n + " sampler"@ + kind + "(iChannel"@ + n + "_tex, iChannel"@ + n + "_sampler)\n"@;
    assert(") uniform texture"@ + "Cube"@ =~= ") uniform "@ + "textureCube"@);
    assert(") uniform texture"@ + "2D"@ =~= ") uniform "@ + "texture2D"@);
    assert(" sampler"@ + "Cube"@ =~= " "@ + "samplerCube"@);
    assert(" sampler"@ + "2D"@ =~= " "@ + "sampler2D"@);
    assert("_tex;\nlayout(set = 1, binding = "@ =~= "_tex;\n"@ + "layout(set = 1, binding = "@);
    let typed = ") uniform texture"@ + kind;
    assert(tex =~= "layout(set = 1, binding = "@ + text::decimal(2 * ch) + typed + " iChannel"@ + n + "_tex;\n"@);
    assert(channel_decl(ch, c) =~= tex + smp);
    let sampled = " sampler"@ + kind;
    assert(def =~= "#define iChannel"@ + n + sampled + "(iChannel"@ + n + "_tex, iChannel"@ + n + "_sampler)\n"@);
    assert(channel_define(ch, c) =~= def);
    lemma_declared(cube, 4, ch);
    lemma_defined(cube, 4, ch);
    let decls = channel_decls(cube, 4);
    let defs = channel_defines(cube, 4);
    assert(h =~= UNIFORM_BLOCK@ + decls + (seq!['\n'] + defs + MATRIX_OVERLOADS@ + seq!['\n']));
    assert(h =~= (UNIFORM_BLOCK@ + decls + seq!['\n']) + defs + (MATRIX_OVERLOADS@ + seq!['\n']));
    lemma_inside(UNIFORM_BLOCK@, decls, seq!['\n'] + defs + MATRIX_OVERLOADS@ + seq!['\n'], channel_decl(ch, c));
    lemma_inside(UNIFORM_BLOCK@ + decls + seq!['\n'], defs, MATRIX_OVERLOADS@ + seq!['\n'], channel_define(ch, c));
    lemma_part(h, tex, smp);
}

/// A text that stands in the middle part of another stands in it.
proof fn lemma_inside(a: Seq<char>, b: Seq<char>, c: Seq<char>, p: Seq<char>)
    requires
        text::has_text(b, p),
    ensures
        text::has_text(a + b + c, p),
{
    let i = choose|i: int| text::text_at(b, p, i);
    assert((a + b + c).subrange(a.len() + i, a.len() + i + p.len()) =~= b.subrange(i, i + p.len()));
    assert(text::text_at(a + b + c, p, a.len() + i));
}

/// Where two texts stand together, each of them stands.
proof fn lemma_part(s: Seq<char>, p: Seq<char>, q: Seq<char>)
    requires
        text::has_text(s, p + q),
    ensures
        text::has_text(s, p),
        text::has_text(s, q),
{
    let i = choose|i: int| text::text_at(s, p + q, i);
    let both = s.subrange(i, i + (p + q).len());
    assert(s.subrange(i, i + p.len()) =~= both.subrange(0, p.len() as int));
    assert((p + q).subrange(0, p.len() as int) =~= p);
    assert(text::text_at(s, p, i));
    assert(s.subrange(i + p.len(), i + p.len() + q.len()) =~= both.subrange(p.len() as int, both.len() as int));
    assert((p + q).subrange(p.len() as int, (p + q).len() as int) =~= q);
    assert(text::text_at(s, q, i + p.len()));
}

proof fn lemma_declared(cube: Seq<bool>, n: nat, ch: nat)
    requires
        ch < n <= cube.len(),
    ensures
        text::has_text(channel_decls(cube, n), channel_decl(ch, cube[ch as int])),
    decreases n,
{
    let before = channel_decls(cube, (n - 1) as nat);
    let last = channel_decl((n - 1) as nat, cube[n - 1]);
    let none = Seq::<char>::empty();
    assert(before + last =~= none + before + last);
    assert(before + last =~= before + last + none);
    if ch < n - 1 {
        lemma_declared(cube, (n - 1) as nat, ch);
        lemma_inside(none, before, last, channel_decl(ch, cube[ch as int]));
    } else {
        assert(last.subrange(0, last.len() as int) =~= last);
        assert(text::text_at(last, last, 0));
        lemma_inside(before, last, none, last);
    }
}

proof fn lemma_defined(cube: Seq<bool>, n: nat, ch: nat)
    requires
        ch < n <= cube.len(),
    ensures
        text::has_text(channel_defines(cube, n), channel_define(ch, cube[ch as int])),
    decreases n,
{
    let before = channel_defines(cube, (n - 1) as nat);
    let last = channel_define((n - 1) as nat, cube[n - 1]);
    let none = Seq::<char>::empty();
    assert(before + last =~= none + before + last);
    assert(before + last =~= before + last + none);
    if ch < n - 1 {
        lemma_defined(cube, (n - 1) as nat, ch);
        lemma_inside(none, before, last, channel_define(ch, cube[ch as int]));
    } else {
        assert(last.subrange(0, last.len() as int) =~= last);
        assert(text::text_at(last, last, 0));
        lemma_inside(before, last, none, last);
    }
}

/// A version directive is taken out, whatever white space is around it, and every other
/// line stays as it is.
pub proof fn law_only_versions_are_taken_out(line: Seq<char>)
    ensures
        text::begins_with(text::trim(line), "#version"@) ==> kept(line) == Seq::<char>::empty(),
        !text::begins_with(text::trim(line), "#version"@) ==> kept(line) == line,
{
}

/// A fault outside the sources of the author is told as one of the engine: in the header,
/// or behind the last line of the shader.
pub proof fn law_other_lines_are_the_engines(map: SourceMap, line: int)
    requires
        map.header_newlines <= map.prelude_newlines,
        line <= map.header_newlines || line > map.prelude_newlines + map.body_lines || (!map.has_common && line
            <= map.prelude_newlines),
    ensures
        origin(map, line) == "engine-generated code"@,
        place(Some(map), line) == "engine-generated code"@,
{
}

/// A shader that compiled gives no message, and any other gives one: each fault with its
/// place and its description, at the line of the author where there is a map.
pub proof fn law_faults_are_told(map: Option<SourceMap>, faults: Seq<ShaderFault>, k: int)
    requires
        0 <= k < faults.len(),
    ensures
        text::has_text(
            fault_list(map, faults),
            "  - "@ + place(map, faults[k].line as int) + ": "@ + faults[k].kind@ + "\n"@,
        ),
        text::begins_with(fault_list(map, faults), "GLSL compile error(s):\n"@),
        map matches Some(m) ==> place(map, faults[k].line as int) == origin(m, faults[k].line as int),
        map is None ==> place(map, faults[k].line as int) == "line "@ + text::decimal(faults[k].line as nat),
    decreases faults.len(),
{
    let d = faults.drop_last();
    let before = fault_list(map, d);
    let last = "  - "@ + place(map, faults.last().line as int) + ": "@ + faults.last().kind@ + "\n"@;
    let none = Seq::<char>::empty();
    let all = fault_list(map, faults);
    assert(all =~= before + last);
    assert(all =~= none + before + last);
    assert(all =~= before + last + none);
    let title = "GLSL compile error(s):\n"@;
    if d.len() > 0 {
        law_faults_are_told(map, d, 0);
    } else {
        assert(title.subrange(0, title.len() as int) =~= title);
    }
    assert(all.subrange(0, title.len() as int) =~= before.subrange(0, title.len() as int));
    if k < d.len() {
        law_faults_are_told(map, d, k);
        assert(d[k] == faults[k]);
        lemma_inside(
            none,
            before,
            last,
            "  - "@ + place(map, faults[k].line as int) + ": "@ + faults[k].kind@ + "\n"@,
        );
    } else {
        assert(last.subrange(0, last.len() as int) =~= last);
        assert(text::text_at(last, last, 0));
        lemma_inside(before, last, none, last);
    }
}

/// Only a shader that compiled is free of errors, and the message of an invalid one ends
/// with what is wrong and names its line.
pub proof fn law_only_valid_shaders_pass(outcome: CompileOutcome, map: Option<SourceMap>)
    ensures
        compile_message(outcome, map) is None <==> outcome is Valid,
        outcome matches CompileOutcome::ParseErrors(f) ==> compile_message(outcome, map) == Some(fault_list(map, f@)),
        outcome matches CompileOutcome::Invalid(Some(line), e) ==> (compile_message(outcome, map) matches Some(m)
            && text::ends_with(m, e@) && text::has_text(m, place(map, line as int))),
        outcome matches CompileOutcome::Invalid(None, e) ==> (compile_message(outcome, map) matches Some(m)
            && text::ends_with(m, e@)),
{
    if let CompileOutcome::Invalid(at, e) = outcome {
        let m = compile_message(outcome, map)->0;
        assert(m.subrange(m.len() - e@.len(), m.len() as int) =~= e@);
        if let Some(line) = at {
            let p = place(map, line as int);
            let a = "Shader validation error at "@;
            assert(m.subrange(a.len() as int, (a.len() + p.len()) as int) =~= p);
            assert(text::text_at(m, p, a.len() as int));
        }
    }
}

} // verus!
