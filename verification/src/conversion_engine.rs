//! Output formats, the formats offered for an input extension, and the
//! naming of output files.

use vstd::prelude::*;
use crate::chars::{
    ascii_lowered, chars_eq_str, chars_to_string, extend_chars, is_ascii_text, is_ws, lowercase_of, lowercase_str, push_str,
    trim_end, trim_start,
    str_chars, trim, trim_chars,
};

verus! {

/// Raster formats an image can be written in.
#[derive(PartialEq, Eq, Structural, Clone, Copy, Debug)]
pub enum OutputFormat {
    Png,
    Jpeg,
    Webp,
    Bmp,
    Gif,
    Tiff,
    Ico,
    Tga,
}

/// The format a lowercased name denotes (`jpg`/`jpeg` and `tiff`/`tif`
/// being synonyms).
pub open spec fn format_for_name(l: Seq<char>) -> Option<OutputFormat> {
    if l == "png"@ {
        Some(OutputFormat::Png)
    } else if l == "jpg"@ || l == "jpeg"@ {
        Some(OutputFormat::Jpeg)
    } else if l == "webp"@ {
        Some(OutputFormat::Webp)
    } else if l == "bmp"@ {
        Some(OutputFormat::Bmp)
    } else if l == "gif"@ {
        Some(OutputFormat::Gif)
    } else if l == "tiff"@ || l == "tif"@ {
        Some(OutputFormat::Tiff)
    } else if l == "ico"@ {
        Some(OutputFormat::Ico)
    } else if l == "tga"@ {
        Some(OutputFormat::Tga)
    } else {
        None
    }
}

/// The file extension written for a format.
pub open spec fn extension_of(f: OutputFormat) -> Seq<char> {
    match f {
        OutputFormat::Png => "png"@,
        OutputFormat::Jpeg => "jpg"@,
        OutputFormat::Webp => "webp"@,
        OutputFormat::Bmp => "bmp"@,
        OutputFormat::Gif => "gif"@,
        OutputFormat::Tiff => "tiff"@,
        OutputFormat::Ico => "ico"@,
        OutputFormat::Tga => "tga"@,
    }
}

/// A format name that names no supported image format.
pub struct FormatError {
    pub name: String,
}

/// The user-facing message of a format error.
pub open spec fn format_error_message(name: Seq<char>) -> Seq<char> {
    "Format image non supporté: "@ + name
}

impl FormatError {
    /// The user-facing message.
    pub fn message(&self) -> (r: String)
        ensures
            r@ == format_error_message(self.name@),
    {
        let mut out: Vec<char> = Vec::new();
        push_str(&mut out, "Format image non supporté: ");
        push_str(&mut out, self.name.as_str());
        chars_to_string(&out)
    }
}

fn format_for_lower(l: &Vec<char>) -> (r: Option<OutputFormat>)
    ensures
        r == format_for_name(l@),
{
    if chars_eq_str(l, "png") {
        Some(OutputFormat::Png)
    } else if chars_eq_str(l, "jpg") || chars_eq_str(l, "jpeg") {
        Some(OutputFormat::Jpeg)
    } else if chars_eq_str(l, "webp") {
        Some(OutputFormat::Webp)
    } else if chars_eq_str(l, "bmp") {
        Some(OutputFormat::Bmp)
    } else if chars_eq_str(l, "gif") {
        Some(OutputFormat::Gif)
    } else if chars_eq_str(l, "tiff") || chars_eq_str(l, "tif") {
        Some(OutputFormat::Tiff)
    } else if chars_eq_str(l, "ico") {
        Some(OutputFormat::Ico)
    } else if chars_eq_str(l, "tga") {
        Some(OutputFormat::Tga)
    } else {
        None
    }
}

impl OutputFormat {
    /// The format named by `s`, compared case-insensitively (after
    /// `str::to_lowercase`); an error naming `s` otherwise.
    pub fn from_str(s: &str) -> (r: Result<OutputFormat, FormatError>)
        ensures
            match r {
                Ok(f) => format_for_name(lowercase_of(s@)) == Some(f),
                Err(e) => format_for_name(lowercase_of(s@)) is None && e.name@ == s@,
            },
            is_ascii_text(s@) ==> lowercase_of(s@) == ascii_lowered(s@),
    {
        let l = lowercase_str(s);
        match format_for_lower(&l) {
            Some(f) => Ok(f),
            None => {
                let cs = str_chars(s);
                Err(FormatError { name: chars_to_string(&cs) })
            },
        }
    }

    /// The extension files of this format are given.
    pub fn extension(&self) -> (r: &'static str)
        ensures
            r@ == extension_of(*self),
    {
        match self {
            OutputFormat::Png => "png",
            OutputFormat::Jpeg => "jpg",
            OutputFormat::Webp => "webp",
            OutputFormat::Bmp => "bmp",
            OutputFormat::Gif => "gif",
            OutputFormat::Tiff => "tiff",
            OutputFormat::Ico => "ico",
            OutputFormat::Tga => "tga",
        }
    }
}

/// A format's own extension names it again: the extension is lowercase
/// ASCII, so lowercasing leaves it as it is (see `from_str`), and the name
/// it gives is the format's own.
pub proof fn law_extension_names_format(f: OutputFormat)
    ensures
        is_ascii_text(extension_of(f)),
        ascii_lowered(extension_of(f)) == extension_of(f),
        format_for_name(extension_of(f)) == Some(f),
{
    reveal_strlit("png");
    reveal_strlit("jpg");
    reveal_strlit("jpeg");
    reveal_strlit("webp");
    reveal_strlit("bmp");
    reveal_strlit("gif");
    reveal_strlit("tiff");
    reveal_strlit("tif");
    reveal_strlit("ico");
    reveal_strlit("tga");
    assert("png"@ =~= seq!['p', 'n', 'g']);
    assert("jpg"@ =~= seq!['j', 'p', 'g']);
    assert("jpeg"@ =~= seq!['j', 'p', 'e', 'g']);
    assert("webp"@ =~= seq!['w', 'e', 'b', 'p']);
    assert("bmp"@ =~= seq!['b', 'm', 'p']);
    assert("gif"@ =~= seq!['g', 'i', 'f']);
    assert("tiff"@ =~= seq!['t', 'i', 'f', 'f']);
    assert("tif"@ =~= seq!['t', 'i', 'f']);
    assert("ico"@ =~= seq!['i', 'c', 'o']);
    assert("tga"@ =~= seq!['t', 'g', 'a']);
}

// ── Formats offered per input extension ──────────────────────────────────────

/// Whether a lowercased extension is one of the raster image inputs.
pub open spec fn is_raster_input(l: Seq<char>) -> bool {
    l == "png"@ || l == "jpg"@ || l == "jpeg"@ || l == "webp"@ || l == "bmp"@ || l == "gif"@ || l
        == "tiff"@ || l == "tif"@ || l == "tga"@ || l == "pnm"@ || l == "hdr"@ || l == "ico"@
}

/// The output formats offered for a lowercased input extension.
pub open spec fn formats_for(l: Seq<char>) -> Seq<Seq<char>> {
    if is_raster_input(l) {
        seq!["png"@, "jpg"@, "webp"@, "bmp"@, "gif"@, "tiff"@, "tga"@, "ico"@, "pdf"@]
    } else if l == "svg"@ {
        seq!["png"@, "jpg"@, "webp"@, "bmp"@, "pdf"@]
    } else if l == "pdf"@ {
        seq!["txt"@, "html"@]
    } else if l == "txt"@ {
        seq!["pdf"@]
    } else if l == "md"@ || l == "markdown"@ {
        seq!["html"@, "txt"@, "pdf"@]
    } else if l == "html"@ || l == "htm"@ {
        seq!["txt"@, "pdf"@]
    } else if l == "docx"@ || l == "doc"@ {
        seq!["txt"@, "html"@, "pdf"@]
    } else if l == "pptx"@ || l == "ppt"@ {
        seq!["txt"@, "pdf"@]
    } else if l == "xlsx"@ || l == "xls"@ || l == "ods"@ {
        seq!["csv"@, "json"@, "txt"@, "pdf"@]
    } else if l == "csv"@ {
        seq!["json"@, "xlsx"@, "txt"@, "pdf"@]
    } else if l == "json"@ {
        seq!["csv"@, "txt"@]
    } else {
        seq![]
    }
}

/// The views of a sequence of string slices.
pub open spec fn strs_of(v: Seq<&str>) -> Seq<Seq<char>> {
    v.map_values(|x: &str| x@)
}

fn is_raster_input_exec(l: &Vec<char>) -> (r: bool)
    ensures
        r == is_raster_input(l@),
{
    chars_eq_str(l, "png") || chars_eq_str(l, "jpg") || chars_eq_str(l, "jpeg") || chars_eq_str(
        l,
        "webp",
    ) || chars_eq_str(l, "bmp") || chars_eq_str(l, "gif") || chars_eq_str(l, "tiff")
        || chars_eq_str(l, "tif") || chars_eq_str(l, "tga") || chars_eq_str(l, "pnm")
        || chars_eq_str(l, "hdr") || chars_eq_str(l, "ico")
}

/// The conversions offered for a file of extension `input_ext` (compared
/// case-insensitively, after `str::to_lowercase`).
pub fn get_available_formats(input_ext: &str) -> (r: Vec<&'static str>)
    ensures
        strs_of(r@) == formats_for(lowercase_of(input_ext@)),
        is_ascii_text(input_ext@) ==> lowercase_of(input_ext@) == ascii_lowered(input_ext@),
{
    let l = lowercase_str(input_ext);
    let r: Vec<&'static str> = if is_raster_input_exec(&l) {
        vec!["png", "jpg", "webp", "bmp", "gif", "tiff", "tga", "ico", "pdf"]
    } else if chars_eq_str(&l, "svg") {
        vec!["png", "jpg", "webp", "bmp", "pdf"]
    } else if chars_eq_str(&l, "pdf") {
        vec!["txt", "html"]
    } else if chars_eq_str(&l, "txt") {
        vec!["pdf"]
    } else if chars_eq_str(&l, "md") || chars_eq_str(&l, "markdown") {
        vec!["html", "txt", "pdf"]
    } else if chars_eq_str(&l, "html") || chars_eq_str(&l, "htm") {
        vec!["txt", "pdf"]
    } else if chars_eq_str(&l, "docx") || chars_eq_str(&l, "doc") {
        vec!["txt", "html", "pdf"]
    } else if chars_eq_str(&l, "pptx") || chars_eq_str(&l, "ppt") {
        vec!["txt", "pdf"]
    } else if chars_eq_str(&l, "xlsx") || chars_eq_str(&l, "xls") || chars_eq_str(&l, "ods") {
        vec!["csv", "json", "txt", "pdf"]
    } else if chars_eq_str(&l, "csv") {
        vec!["json", "xlsx", "txt", "pdf"]
    } else if chars_eq_str(&l, "json") {
        vec!["csv", "txt"]
    } else {
        Vec::new()
    };
    assert(strs_of(r@) =~= formats_for(l@));
    r
}

// ── Image options ────────────────────────────────────────────────────────────

/// Transformations applied when an image is converted.
#[derive(Debug, Default)]
pub struct ImageOptions {
    /// JPEG quality, 1 to 100.
    pub quality: Option<u8>,
    pub resize_width: Option<u32>,
    pub resize_height: Option<u32>,
    /// Rotation in degrees: 0, 90, 180 or 270.
    pub rotation: Option<u32>,
}

/// The JPEG quality used: the requested one (90 by default) brought into
/// 1..=100.
pub open spec fn jpeg_quality_of(q: Option<u8>) -> u8 {
    let v = match q {
        Some(x) => x,
        None => 90u8,
    };
    if v < 1 {
        1
    } else if v > 100 {
        100
    } else {
        v
    }
}

/// The JPEG quality of `opts` (see `jpeg_quality_of`).
pub fn jpeg_quality(opts: &ImageOptions) -> (q: u8)
    ensures
        q == jpeg_quality_of(opts.quality),
        1 <= q <= 100,
{
    let v = match opts.quality {
        Some(x) => x,
        None => 90,
    };
    if v < 1 {
        1
    } else if v > 100 {
        100
    } else {
        v
    }
}

// ── Output paths ─────────────────────────────────────────────────────────────

/// Name for what `Path::file_stem` gives for a path (as a string), with the
/// path rules of the platform the crate is built for.
pub uninterp spec fn file_stem_of(path: Seq<char>) -> Option<Seq<char>>;

/// Name for what `Path::parent` gives for a path (as a string), with the
/// path rules of the platform the crate is built for.
pub uninterp spec fn parent_of(path: Seq<char>) -> Option<Seq<char>>;

/// Name for what `Path::join` gives for a base and a name (as a string),
/// with the path rules of the platform the crate is built for.
pub uninterp spec fn joined_path_of(base: Seq<char>, name: Seq<char>) -> Seq<char>;

/// Name for what `Path::file_name` gives for a path, when it is valid UTF-8,
/// with the path rules of the platform the crate is built for.
pub uninterp spec fn file_name_of(path: Seq<char>) -> Option<Seq<char>>;

/// Name for what `Path::extension` gives for a path, when it is valid UTF-8,
/// with the path rules of the platform the crate is built for.
pub uninterp spec fn extension_name_of(path: Seq<char>) -> Option<Seq<char>>;

/// Calls `Path::file_stem`; claims only that the result is a function of
/// the path.
#[verifier::external_body]
fn path_file_stem(path: &str) -> (r: Option<String>)
    ensures
        match r {
            Some(s) => file_stem_of(path@) == Some(s@),
            None => file_stem_of(path@) is None,
        },
{
    std::path::Path::new(path).file_stem().map(|s| s.to_string_lossy().to_string())
}

/// Calls `Path::parent`; claims only that the result is a function of the
/// path.
#[verifier::external_body]
fn path_parent(path: &str) -> (r: Option<String>)
    ensures
        match r {
            Some(s) => parent_of(path@) == Some(s@),
            None => parent_of(path@) is None,
        },
{
    std::path::Path::new(path).parent().map(|p| p.to_string_lossy().to_string())
}

/// Calls `Path::join`; claims only that the result is a function of its
/// two arguments.
#[verifier::external_body]
fn path_join(base: &str, name: &str) -> (r: String)
    ensures
        r@ == joined_path_of(base@, name@),
{
    std::path::Path::new(base).join(name).to_string_lossy().to_string()
}

/// Calls `Path::file_name` and `OsStr::to_str`; claims only that the result
/// is a function of the path.
#[verifier::external_body]
pub(crate) fn path_file_name(path: &str) -> (r: Option<String>)
    ensures
        match r {
            Some(s) => file_name_of(path@) == Some(s@),
            None => file_name_of(path@) is None,
        },
{
    std::path::Path::new(path).file_name().and_then(|n| n.to_str()).map(|n| n.to_string())
}

/// Calls `Path::extension` and `OsStr::to_str`; claims only that the result
/// is a function of the path.
#[verifier::external_body]
pub(crate) fn path_extension(path: &str) -> (r: Option<String>)
    ensures
        match r {
            Some(s) => extension_name_of(path@) == Some(s@),
            None => extension_name_of(path@) is None,
        },
{
    std::path::Path::new(path).extension().and_then(|e| e.to_str()).map(|e| e.to_string())
}

/// `s` with each `..` (read left to right, without overlap) removed.
pub open spec fn remove_dot_pairs(s: Seq<char>) -> Seq<char>
    decreases s.len(),
{
    if s.len() == 0 {
        seq![]
    } else if s.len() >= 2 && s[0] == '.' && s[1] == '.' {
        remove_dot_pairs(s.skip(2))
    } else {
        seq![s[0]] + remove_dot_pairs(s.drop_first())
    }
}

/// `s` without its NUL characters.
pub open spec fn remove_nul(s: Seq<char>) -> Seq<char>
    decreases s.len(),
{
    if s.len() == 0 {
        seq![]
    } else if s.last() == '\0' {
        remove_nul(s.drop_last())
    } else {
        remove_nul(s.drop_last()).push(s.last())
    }
}

/// What a character becomes in a sanitized name: separators become `_`.
pub open spec fn sep_free(c: char) -> char {
    if c == '/' || c == '\\' {
        '_'
    } else {
        c
    }
}

/// A user-given name made safe for a path component: NUL removed, then
/// `..` removed, `/` and `\` turned into `_`, and the result trimmed.
pub open spec fn sanitized(name: Seq<char>) -> Seq<char> {
    trim(remove_dot_pairs(remove_nul(name)).map_values(|c: char| sep_free(c)))
}

/// Makes a user-given name safe as a path component (see `sanitized`): no
/// `..`, `/`, `\` or NUL remains, and it is trimmed.
pub fn sanitize_name(name: &str) -> (r: String)
    ensures
        r@ == sanitized(name@),
{
    let s0 = str_chars(name);
    let mut s: Vec<char> = Vec::new();
    let mut k: usize = 0;
    while k < s0.len()
        invariant
            k <= s0.len(),
            s@ == remove_nul(s0@.take(k as int)),
        decreases s0.len() - k,
    {
        assert(s0@.take(k + 1).drop_last() =~= s0@.take(k as int));
        if s0[k] != '\0' {
            s.push(s0[k]);
        }
        k = k + 1;
    }
    assert(s0@.take(s0.len() as int) =~= s0@);
    let mut a: Vec<char> = Vec::new();
    let mut i: usize = 0;
    assert(s@.skip(0) =~= s@);
    assert(a@ + remove_dot_pairs(s@.skip(0)) =~= remove_dot_pairs(s@));
    while i < s.len()
        invariant
            i <= s.len(),
            a@ + remove_dot_pairs(s@.skip(i as int)) == remove_dot_pairs(s@),
        decreases s.len() - i,
    {
        let ghost rest = s@.skip(i as int);
        if i + 1 < s.len() && s[i] == '.' && s[i + 1] == '.' {
            assert(rest.skip(2) =~= s@.skip(i + 2));
            i = i + 2;
        } else {
            assert(rest.drop_first() =~= s@.skip(i + 1));
            a.push(s[i]);
            assert(a@ + remove_dot_pairs(s@.skip(i + 1)) =~= a@.drop_last() + (seq![rest[0]]
                + remove_dot_pairs(rest.drop_first())));
            i = i + 1;
        }
    }
    assert(s@.skip(i as int) =~= Seq::<char>::empty());
    assert(a@ + Seq::<char>::empty() =~= a@);
    let mut b: Vec<char> = Vec::new();
    let mut j: usize = 0;
    while j < a.len()
        invariant
            j <= a.len(),
            b@ == a@.take(j as int).map_values(|c: char| sep_free(c)),
        decreases a.len() - j,
    {
        let c = a[j];
        if c == '/' || c == '\\' {
            b.push('_');
        } else {
            b.push(c);
        }
        j = j + 1;
        assert(b@ =~= a@.take(j as int).map_values(|c: char| sep_free(c)));
    }
    assert(a@.take(a.len() as int) =~= a@);
    let t = trim_chars(&b);
    chars_to_string(&t)
}

/// Whether a name is blank (empty or white space only).
pub open spec fn is_blank(s: Seq<char>) -> bool {
    trim(s).len() == 0
}

/// A stem, or nothing.
pub open spec fn stem_or_empty(o: Option<Seq<char>>) -> Seq<char> {
    match o {
        Some(s) => s,
        None => seq![],
    }
}

/// The stem of the output file: the sanitized name when one is given and
/// not blank, else the input's file stem (empty when it has none) followed
/// by `_converted`.
pub open spec fn output_stem(input_path: Seq<char>, output_name: Option<Seq<char>>) -> Seq<char> {
    match output_name {
        Some(n) if !is_blank(n) => sanitized(n),
        _ => stem_or_empty(file_stem_of(input_path)) + "_converted"@,
    }
}

/// The directory of the output file: the one given, else the input's
/// parent directory, else `.`.
pub open spec fn output_dir_of(input_path: Seq<char>, output_dir: Option<Seq<char>>) -> Seq<char> {
    match output_dir {
        Some(d) => d,
        None => match parent_of(input_path) {
            Some(p) => p,
            None => "."@,
        },
    }
}

/// The output path: `{dir}` joined with `{stem}.{new_ext}`.
pub open spec fn output_path(
    input_path: Seq<char>,
    new_ext: Seq<char>,
    output_dir: Option<Seq<char>>,
    output_name: Option<Seq<char>>,
) -> Seq<char> {
    joined_path_of(
        output_dir_of(input_path, output_dir),
        output_stem(input_path, output_name) + "."@ + new_ext,
    )
}

/// The view of an optional string slice.
pub open spec fn opt_str(o: Option<&str>) -> Option<Seq<char>> {
    match o {
        Some(s) => Some(s@),
        None => None,
    }
}

/// Builds the output path for a conversion, with an optional output
/// directory and an optional output name (see `output_path`).
pub fn build_output_path_custom(
    input_path: &str,
    new_ext: &str,
    output_dir: Option<&str>,
    output_name: Option<&str>,
) -> (r: String)
    ensures
        r@ == output_path(input_path@, new_ext@, opt_str(output_dir), opt_str(output_name)),
{
    let mut stem: Vec<char> = Vec::new();
    let mut named = false;
    match output_name {
        Some(n) => {
            let cs = str_chars(n);
            let t = trim_chars(&cs);
            if t.len() > 0 {
                let s = sanitize_name(n);
                push_str(&mut stem, s.as_str());
                named = true;
            }
        },
        None => {},
    }
    if !named {
        match path_file_stem(input_path) {
            Some(s) => push_str(&mut stem, s.as_str()),
            None => {},
        }
        push_str(&mut stem, "_converted");
    }
    assert(stem@ =~= output_stem(input_path@, opt_str(output_name)));
    push_str(&mut stem, ".");
    push_str(&mut stem, new_ext);
    let file = chars_to_string(&stem);
    let dir: String = match output_dir {
        Some(d) => {
            let cs = str_chars(d);
            chars_to_string(&cs)
        },
        None => match path_parent(input_path) {
            Some(p) => p,
            None => {
                let cs = str_chars(".");
                chars_to_string(&cs)
            },
        },
    };
    assert(dir@ == output_dir_of(input_path@, opt_str(output_dir)));
    path_join(dir.as_str(), file.as_str())
}

/// The output path next to the input, named `{stem}_converted.{new_ext}`.
pub fn build_output_path(input_path: &str, new_ext: &str) -> (r: String)
    ensures
        r@ == output_path(input_path@, new_ext@, None, None),
{
    build_output_path_custom(input_path, new_ext, None, None)
}

/// Whether `s` holds no `..`.
pub open spec fn no_dot_pair(s: Seq<char>) -> bool {
    forall|i: int| 0 <= i < s.len() - 1 ==> !(#[trigger] s[i] == '.' && s[i + 1] == '.')
}

proof fn lemma_remove_nul_clean(s: Seq<char>)
    ensures
        forall|i: int| 0 <= i < remove_nul(s).len() ==> #[trigger] remove_nul(s)[i] != '\0',
    decreases s.len(),
{
    if s.len() > 0 {
        lemma_remove_nul_clean(s.drop_last());
        let p = remove_nul(s.drop_last());
        assert forall|i: int| 0 <= i < remove_nul(s).len() implies #[trigger] remove_nul(s)[i]
            != '\0' by {
            if i < p.len() {
                assert(remove_nul(s)[i] == p[i]);
            }
        }
    }
}

proof fn lemma_remove_dot_pairs(s: Seq<char>, c: char)
    requires
        forall|i: int| 0 <= i < s.len() ==> #[trigger] s[i] != c,
    ensures
        no_dot_pair(remove_dot_pairs(s)),
        forall|i: int| 0 <= i < remove_dot_pairs(s).len() ==> #[trigger] remove_dot_pairs(s)[i] != c,
        s.len() > 0 && !(s.len() >= 2 && s[0] == '.' && s[1] == '.') ==> remove_dot_pairs(s).len()
            > 0 && remove_dot_pairs(s)[0] == s[0],
    decreases s.len(),
{
    if s.len() >= 2 && s[0] == '.' && s[1] == '.' {
        let t = s.skip(2);
        assert forall|i: int| 0 <= i < t.len() implies #[trigger] t[i] != c by {
            assert(t[i] == s[i + 2]);
        }
        lemma_remove_dot_pairs(t, c);
    } else if s.len() > 0 {
        let t = s.drop_first();
        assert forall|i: int| 0 <= i < t.len() implies #[trigger] t[i] != c by {
            assert(t[i] == s[i + 1]);
        }
        lemma_remove_dot_pairs(t, c);
        let q = remove_dot_pairs(t);
        let r = remove_dot_pairs(s);
        assert(r == seq![s[0]] + q);
        if s[0] == '.' && t.len() > 0 {
            assert(t[0] == s[1]);
            assert(q.len() > 0 && q[0] != '.');
        }
        assert forall|i: int| 0 <= i < r.len() - 1 implies !(#[trigger] r[i] == '.' && r[i + 1]
            == '.') by {
            if i > 0 {
                assert(r[i] == q[i - 1] && r[i + 1] == q[i]);
            }
        }
        assert forall|i: int| 0 <= i < r.len() implies #[trigger] r[i] != c by {
            if i > 0 {
                assert(r[i] == q[i - 1]);
            }
        }
    }
}

proof fn lemma_trim_start_shape(s: Seq<char>)
    ensures
        trim_start(s).len() == 0 || !is_ws(trim_start(s)[0]),
        no_dot_pair(s) ==> no_dot_pair(trim_start(s)),
    decreases s.len(),
{
    if s.len() > 0 && is_ws(s[0]) {
        let t = s.drop_first();
        if no_dot_pair(s) {
            assert forall|i: int| 0 <= i < t.len() - 1 implies !(#[trigger] t[i] == '.' && t[i
                + 1] == '.') by {
                assert(t[i] == s[i + 1] && t[i + 1] == s[i + 2]);
            }
        }
        lemma_trim_start_shape(t);
    }
}

proof fn lemma_trim_end_shape(s: Seq<char>)
    ensures
        trim_end(s) == s.take(trim_end(s).len() as int),
        trim_end(s).len() <= s.len(),
        trim_end(s).len() == 0 || !is_ws(trim_end(s).last()),
        no_dot_pair(s) ==> no_dot_pair(trim_end(s)),
    decreases s.len(),
{
    if s.len() > 0 && is_ws(s.last()) {
        let t = s.drop_last();
        if no_dot_pair(s) {
            assert forall|i: int| 0 <= i < t.len() - 1 implies !(#[trigger] t[i] == '.' && t[i
                + 1] == '.') by {
                assert(t[i] == s[i] && t[i + 1] == s[i + 1]);
            }
        }
        lemma_trim_end_shape(t);
        assert(t.take(trim_end(t).len() as int) =~= s.take(trim_end(t).len() as int));
    } else {
        assert(s.take(s.len() as int) =~= s);
    }
}

/// A sanitized name is safe as a path component: it holds no `..`, no path
/// separator and no NUL, and it is already trimmed.
pub proof fn law_sanitized_is_safe(name: Seq<char>)
    ensures
        !crate::chars::contains_char(sanitized(name), '/'),
        !crate::chars::contains_char(sanitized(name), '\\'),
        !crate::chars::contains_char(sanitized(name), '\0'),
        no_dot_pair(sanitized(name)),
        trim(sanitized(name)) == sanitized(name),
{
    let n = remove_nul(name);
    lemma_remove_nul_clean(name);
    lemma_remove_dot_pairs(n, '\0');
    let d = remove_dot_pairs(n);
    let m = d.map_values(|c: char| sep_free(c));
    assert forall|i: int| 0 <= i < m.len() implies #[trigger] m[i] != '/' && m[i] != '\\' && m[i]
        != '\0' by {
        assert(m[i] == sep_free(d[i]));
        assert(d[i] != '\0');
    }
    assert forall|i: int| 0 <= i < m.len() - 1 implies !(#[trigger] m[i] == '.' && m[i + 1]
        == '.') by {
        assert(m[i] == sep_free(d[i]) && m[i + 1] == sep_free(d[i + 1]));
        assert(!(d[i] == '.' && d[i + 1] == '.'));
    }
    lemma_trim_keeps_absent(m, '/');
    lemma_trim_keeps_absent(m, '\\');
    lemma_trim_keeps_absent(m, '\0');
    let u = trim_start(m);
    lemma_trim_start_shape(m);
    lemma_trim_end_shape(u);
    let t = trim_end(u);
    assert(t == trim(m));
    if t.len() > 0 {
        assert(t[0] == u[0]);
    }
    assert(trim_start(t) == t);
    assert(trim_end(t) == t);
}

/// Trimming adds no character: what `s` lacks, `trim(s)` lacks.
proof fn lemma_trim_keeps_absent(s: Seq<char>, c: char)
    requires
        forall|i: int| 0 <= i < s.len() ==> #[trigger] s[i] != c,
    ensures
        forall|i: int| 0 <= i < trim(s).len() ==> #[trigger] trim(s)[i] != c,
{
    lemma_trim_start_keeps_absent(s, c);
    lemma_trim_end_keeps_absent(crate::chars::trim_start(s), c);
}

proof fn lemma_trim_start_keeps_absent(s: Seq<char>, c: char)
    requires
        forall|i: int| 0 <= i < s.len() ==> #[trigger] s[i] != c,
    ensures
        forall|i: int|
            0 <= i < crate::chars::trim_start(s).len() ==> #[trigger] crate::chars::trim_start(s)[i]
                != c,
    decreases s.len(),
{
    if s.len() > 0 && is_ws(s[0]) {
        let t = s.drop_first();
        assert forall|i: int| 0 <= i < t.len() implies #[trigger] t[i] != c by {
            assert(t[i] == s[i + 1]);
        }
        lemma_trim_start_keeps_absent(t, c);
        assert(crate::chars::trim_start(s) == crate::chars::trim_start(t));
    } else {
        assert(crate::chars::trim_start(s) == s);
    }
}

proof fn lemma_trim_end_keeps_absent(s: Seq<char>, c: char)
    requires
        forall|i: int| 0 <= i < s.len() ==> #[trigger] s[i] != c,
    ensures
        forall|i: int|
            0 <= i < crate::chars::trim_end(s).len() ==> #[trigger] crate::chars::trim_end(s)[i]
                != c,
    decreases s.len(),
{
    if s.len() > 0 && is_ws(s.last()) {
        let t = s.drop_last();
        assert forall|i: int| 0 <= i < t.len() implies #[trigger] t[i] != c by {
            assert(t[i] == s[i]);
        }
        lemma_trim_end_keeps_absent(t, c);
        assert(crate::chars::trim_end(s) == crate::chars::trim_end(t));
    } else {
        assert(crate::chars::trim_end(s) == s);
    }
}

// ── Thumbnails ───────────────────────────────────────────────────────────────

/// The character of value `v` (below 64) in the Base64 alphabet of
/// RFC 4648: `A`–`Z`, `a`–`z`, `0`–`9`, `+`, `/`.
pub open spec fn b64_char(v: int) -> char {
    if v < 26 {
        ('A' as int + v) as char
    } else if v < 52 {
        ('a' as int + v - 26) as char
    } else if v < 62 {
        ('0' as int + v - 52) as char
    } else if v == 62 {
        '+'
    } else {
        '/'
    }
}

/// Standard Base64 with padding (RFC 4648, section 4): each group of three
/// bytes gives four characters of six bits each; a last group of one or two
/// bytes gives two or three characters and `=` padding.
pub open spec fn base64_spec(b: Seq<u8>) -> Seq<char>
    decreases b.len(),
{
    if b.len() == 0 {
        seq![]
    } else if b.len() == 1 {
        seq![b64_char((b[0] / 4) as int), b64_char((b[0] % 4) * 16), '=', '=']
    } else if b.len() == 2 {
        seq![b64_char((b[0] / 4) as int), b64_char((b[0] % 4) * 16 + b[1] / 16), b64_char((b[1] % 16) * 4), '=']
    } else {
        seq![
            b64_char((b[0] / 4) as int),
            b64_char((b[0] % 4) * 16 + b[1] / 16),
            b64_char((b[1] % 16) * 4 + b[2] / 64),
            b64_char((b[2] % 64) as int),
        ] + base64_spec(b.skip(3))
    }
}

/// Encodes `bytes` with `base64::engine::general_purpose::STANDARD`, the
/// standard alphabet with padding (see `base64_spec`).
#[verifier::external_body]
fn base64_standard(bytes: &[u8]) -> (r: String)
    ensures
        r@ == base64_spec(bytes@),
{
    base64::Engine::encode(&base64::engine::general_purpose::STANDARD, bytes)
}

/// The data URL of a PNG image: `data:image/png;base64,` and its Base64.
pub fn thumbnail_data_url(png: &[u8]) -> (r: String)
    ensures
        r@ == "data:image/png;base64,"@ + base64_spec(png@),
{
    let mut out: Vec<char> = Vec::new();
    push_str(&mut out, "data:image/png;base64,");
    let b = base64_standard(png);
    push_str(&mut out, b.as_str());
    chars_to_string(&out)
}

/// Whether a lowercased extension marks an SVG input.
pub fn is_svg_extension(path: &str) -> (r: bool)
    ensures
        r == (lowercase_of(
            match extension_name_of(path@) {
                Some(e) => e,
                None => seq![],
            },
        ) == "svg"@),
{
    let e = match path_extension(path) {
        Some(e) => e,
        None => String::new(),
    };
    let l = lowercase_str(e.as_str());
    chars_eq_str(&l, "svg")
}


/// What rendering an SVG document gave: its width and height in pixels
/// and its RGBA bytes row by row, the parser's message for a document it
/// refused, or a size that no pixmap can have.
pub enum SvgPixels {
    Image(u32, u32, Vec<u8>),
    Invalid(String),
    BadSize,
}

/// Parses `data` with `usvg::Tree::from_data` under default options and
/// renders the tree with `resvg::render` onto a transparent
/// `tiny_skia::Pixmap` of the tree's size in whole pixels. Claimed of an
/// image: its width and height are not zero (`Pixmap::new` refuses a zero
/// size) and it holds four bytes per pixel (`Pixmap::take` gives the RGBA
/// data). The pixels themselves are left unsaid: with default options usvg
/// may load files that the document links to.
#[verifier::external_body]
fn svg_render(data: &[u8]) -> (r: SvgPixels)
    ensures
        r matches SvgPixels::Image(w, h, px) ==> w > 0 && h > 0 && px@.len() == 4 * w * h,
{
    let tree = match resvg::usvg::Tree::from_data(data, &resvg::usvg::Options::default()) {
        Ok(t) => t,
        Err(e) => return SvgPixels::Invalid(e.to_string()),
    };
    let size = tree.size().to_int_size();
    let mut pixmap = match resvg::tiny_skia::Pixmap::new(size.width(), size.height()) {
        Some(p) => p,
        None => return SvgPixels::BadSize,
    };
    resvg::render(&tree, resvg::tiny_skia::Transform::default(), &mut pixmap.as_mut());
    SvgPixels::Image(size.width(), size.height(), pixmap.take())
}

/// The message for an SVG document that the parser refused with `e`.
pub open spec fn invalid_svg_message(e: Seq<char>) -> Seq<char> {
    "SVG invalide: "@ + e
}

/// The outcome of a rendering as the converter reports it: the image, or
/// the message for a refused document or an impossible size.
pub fn pixels_result(p: SvgPixels) -> (r: Result<(u32, u32, Vec<u8>), String>)
    ensures
        match p {
            SvgPixels::Image(w, h, px) => r matches Ok((a, b, c)) && a == w && b == h && c@ == px@,
            SvgPixels::Invalid(e) => r matches Err(m) && m@ == invalid_svg_message(e@),
            SvgPixels::BadSize => r matches Err(m) && m@ == "Dimensions SVG invalides"@,
        },
{
    match p {
        SvgPixels::Image(w, h, px) => Ok((w, h, px)),
        SvgPixels::Invalid(e) => {
            let mut out: Vec<char> = Vec::new();
            push_str(&mut out, "SVG invalide: ");
            push_str(&mut out, e.as_str());
            Err(chars_to_string(&out))
        },
        SvgPixels::BadSize => {
            let mut out: Vec<char> = Vec::new();
            push_str(&mut out, "Dimensions SVG invalides");
            Err(chars_to_string(&out))
        },
    }
}

/// Renders the SVG document `data` to RGBA pixels. An image has a width
/// and a height of at least one pixel and four bytes per pixel; a refused
/// document gives `SVG invalide: ` and the parser's message, a size that no
/// pixmap can have gives `Dimensions SVG invalides`.
pub fn svg_to_rgba(data: &[u8]) -> (r: Result<(u32, u32, Vec<u8>), String>)
    ensures
        match r {
            Ok((w, h, px)) => w > 0 && h > 0 && px@.len() == 4 * w * h,
            Err(m) => m@ == "Dimensions SVG invalides"@ || exists|e: Seq<char>|
                m@ == #[trigger] invalid_svg_message(e),
        },
{
    let p = svg_render(data);
    let ghost rendered = p;
    let r = pixels_result(p);
    proof {
        if let SvgPixels::Invalid(e) = rendered {
            assert(r matches Err(m) && m@ == invalid_svg_message(e@));
        }
    }
    r
}

} // verus!
