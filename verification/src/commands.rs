//! The decisions behind the application's commands: which conversion a
//! request asks for, CSV output of JSON records, the merge mode.

use vstd::prelude::*;
use crate::chars::{
    chars_eq_str, chars_to_string, decimal, extend_chars, join, lowercase_of, push_str, str_chars,
};
use crate::conversion_engine::{
    build_output_path_custom, extension_name_of, file_name_of, format_error_message, format_for_name,
    formats_for,
    opt_str, output_path, path_extension, OutputFormat,
};
use crate::office_engine::{csv_cell, csv_field, csv_safe, csv_safe_spec};

verus! {

/// Where a conversion wrote its output, and how large it is.
pub struct ConversionResult {
    pub path: String,
    pub output_size: u64,
}

/// Protects a CSV value against formula injection (same rule as
/// `office_engine::csv_safe`).
pub fn csv_safe_value(v: &str) -> (r: String)
    ensures
        r@ == csv_safe_spec(v@),
{
    csv_safe(v)
}

/// A value as a CSV field (same rule as `office_engine::csv_cell`).
pub fn csv_quote(v: &str) -> (r: String)
    ensures
        r@ == csv_field(v@),
{
    csv_cell(v)
}

// ── JSON records → CSV ───────────────────────────────────────────────────────

/// A parsed JSON document as CSV export reads it: `None` when it is not an
/// array; else, per element, `None` when it is not an object, or its
/// members in key order with the text of each value (a string's own text,
/// the compact JSON of any other value).
pub type JsonRecords = Option<Vec<Option<Vec<(String, String)>>>>;

pub type JsonRecordsView = Option<Seq<Option<Seq<(Seq<char>, Seq<char>)>>>>;

pub open spec fn pair_view(p: (String, String)) -> (Seq<char>, Seq<char>) {
    (p.0@, p.1@)
}

pub open spec fn record_view(r: Option<Vec<(String, String)>>) -> Option<Seq<(Seq<char>, Seq<char>)>> {
    match r {
        Some(v) => Some(v@.map_values(|p: (String, String)| pair_view(p))),
        None => None,
    }
}

pub open spec fn records_view(d: JsonRecords) -> JsonRecordsView {
    match d {
        Some(v) => Some(v@.map_values(|r: Option<Vec<(String, String)>>| record_view(r))),
        None => None,
    }
}

/// Name for what `serde_json::from_str::<serde_json::Value>` gives for a
/// text, reduced as `JsonRecords` says, or its error message.
pub uninterp spec fn json_records_of(json: Seq<char>) -> Result<JsonRecordsView, Seq<char>>;

/// Parses `json` with serde_json and reduces it to records; claims only that
/// the outcome is a function of `json`.
#[verifier::external_body]
fn parse_json_records(json: &str) -> (r: Result<JsonRecords, String>)
    ensures
        match r {
            Ok(d) => json_records_of(json@) == Ok::<JsonRecordsView, Seq<char>>(records_view(d)),
            Err(e) => json_records_of(json@) == Err::<JsonRecordsView, Seq<char>>(e@),
        },
{
    let v: serde_json::Value = serde_json::from_str(json).map_err(|e| e.to_string())?;
    Ok(match v {
        serde_json::Value::Array(items) => Some(items.into_iter().map(|item| match item {
            serde_json::Value::Object(m) => Some(m.into_iter().map(|(k, x)| match x {
                serde_json::Value::String(s) => (k, s),
                other => (k, other.to_string()),
            }).collect()),
            _ => None,
        }).collect()),
        _ => None,
    })
}

/// Name for what parsing a text with `serde_json::from_str::<serde_json::Value>`
/// and printing the value with `serde_json::to_string_pretty` gives, or
/// the message of the first error.
pub uninterp spec fn json_pretty_of(json: Seq<char>) -> Result<Seq<char>, Seq<char>>;

/// Parses `json` with serde_json and prints it indented; claims only that
/// the outcome is a function of `json`.
#[verifier::external_body]
fn json_pretty(json: &str) -> (r: Result<String, String>)
    ensures
        match r {
            Ok(s) => json_pretty_of(json@) == Ok::<Seq<char>, Seq<char>>(s@),
            Err(e) => json_pretty_of(json@) == Err::<Seq<char>, Seq<char>>(e@),
        },
{
    let v: serde_json::Value = serde_json::from_str(json).map_err(|e| e.to_string())?;
    serde_json::to_string_pretty(&v).map_err(|e| e.to_string())
}

/// The text form of a JSON document: the document indented by serde_json,
/// or the parser's or printer's message.
pub fn json_to_txt(json: &str) -> (r: Result<String, String>)
    ensures
        match r {
            Ok(s) => json_pretty_of(json@) == Ok::<Seq<char>, Seq<char>>(s@),
            Err(e) => json_pretty_of(json@) == Err::<Seq<char>, Seq<char>>(e@),
        },
{
    json_pretty(json)
}

/// Why JSON could not be turned into CSV.
pub enum JsonCsvError {
    /// Not valid JSON; the parser's message.
    Invalid(String),
    /// Valid JSON, but not an array.
    NotArray,
}

pub enum JsonCsvErrorView {
    Invalid(Seq<char>),
    NotArray,
}

impl View for JsonCsvError {
    type V = JsonCsvErrorView;

    open spec fn view(&self) -> JsonCsvErrorView {
        match self {
            JsonCsvError::Invalid(m) => JsonCsvErrorView::Invalid(m@),
            JsonCsvError::NotArray => JsonCsvErrorView::NotArray,
        }
    }
}

/// The user-facing message of a JSON-to-CSV error.
pub open spec fn json_csv_message(e: JsonCsvErrorView) -> Seq<char> {
    match e {
        JsonCsvErrorView::Invalid(m) => "JSON invalide: "@ + m,
        JsonCsvErrorView::NotArray => "JSON doit être un tableau d'objets"@,
    }
}

impl JsonCsvError {
    /// The user-facing message.
    pub fn message(&self) -> (r: String)
        ensures
            r@ == json_csv_message(self@),
    {
        let mut out: Vec<char> = Vec::new();
        match self {
            JsonCsvError::Invalid(m) => {
                push_str(&mut out, "JSON invalide: ");
                push_str(&mut out, m.as_str());
            },
            JsonCsvError::NotArray => {
                push_str(&mut out, "JSON doit être un tableau d'objets");
            },
        }
        assert(out@ =~= json_csv_message(self@));
        chars_to_string(&out)
    }
}

/// The keys of an object's members.
pub open spec fn keys_of(pairs: Seq<(Seq<char>, Seq<char>)>) -> Seq<Seq<char>> {
    pairs.map_values(|p: (Seq<char>, Seq<char>)| p.0)
}

/// The value text of the first member named `key`, or empty text.
pub open spec fn lookup(pairs: Seq<(Seq<char>, Seq<char>)>, key: Seq<char>) -> Seq<char>
    decreases pairs.len(),
{
    if pairs.len() == 0 {
        seq![]
    } else if pairs[0].0 == key {
        pairs[0].1
    } else {
        lookup(pairs.drop_first(), key)
    }
}

/// The CSV fields of `headers`, each written with `csv_field`, joined by
/// commas.
pub open spec fn header_line(headers: Seq<Seq<char>>) -> Seq<char> {
    join(headers.map_values(|h: Seq<char>| csv_field(h)), seq![','])
}

/// The CSV line of an object: for each header, its value (empty when
/// missing), as a field.
pub open spec fn record_line(pairs: Seq<(Seq<char>, Seq<char>)>, headers: Seq<Seq<char>>) -> Seq<
    char,
> {
    join(headers.map_values(|h: Seq<char>| csv_field(lookup(pairs, h))), seq![','])
}

/// The lines of the records that are objects, each ended by a newline.
pub open spec fn record_lines(
    recs: Seq<Option<Seq<(Seq<char>, Seq<char>)>>>,
    headers: Seq<Seq<char>>,
) -> Seq<char>
    decreases recs.len(),
{
    if recs.len() == 0 {
        seq![]
    } else {
        record_lines(recs.drop_last(), headers) + match recs.last() {
            Some(p) => record_line(p, headers).push('\n'),
            None => seq![],
        }
    }
}

/// The CSV text of a JSON array of objects: a header line made of the keys
/// of the first element (none when it is not an object), then one line per
/// object; empty for an empty array.
pub open spec fn json_csv(json: Seq<char>) -> Result<Seq<char>, JsonCsvErrorView> {
    match json_records_of(json) {
        Err(m) => Err(JsonCsvErrorView::Invalid(m)),
        Ok(None) => Err(JsonCsvErrorView::NotArray),
        Ok(Some(recs)) => Ok(records_csv(recs)),
    }
}

/// The CSV text of the elements of a JSON array (`None` for an element
/// that is not an object): a header line made of the keys of the first
/// element (none when it is not an object), then one line per object;
/// empty for no elements.
pub open spec fn records_csv(recs: Seq<Option<Seq<(Seq<char>, Seq<char>)>>>) -> Seq<char> {
    if recs.len() == 0 {
        seq![]
    } else {
        let headers = match recs[0] {
            Some(p) => keys_of(p),
            None => seq![],
        };
        header_line(headers).push('\n') + record_lines(recs, headers)
    }
}

fn lookup_exec(pairs: &Vec<(String, String)>, key: &String) -> (r: String)
    ensures
        r@ == lookup(pairs@.map_values(|p: (String, String)| pair_view(p)), key@),
{
    let ghost pv = pairs@.map_values(|p: (String, String)| pair_view(p));
    let mut i: usize = 0;
    assert(pv.skip(0) =~= pv);
    while i < pairs.len()
        invariant
            i <= pairs.len(),
            pv == pairs@.map_values(|p: (String, String)| pair_view(p)),
            lookup(pv, key@) == lookup(pv.skip(i as int), key@),
        decreases pairs.len() - i,
    {
        assert(pv.skip(i as int)[0] == pair_view(pairs@[i as int]));
        assert(pv.skip(i as int).drop_first() =~= pv.skip(i + 1));
        if chars_eq_str(&str_chars(pairs[i].0.as_str()), key.as_str()) {
            return pairs[i].1.clone();
        }
        i = i + 1;
    }
    assert(pv.skip(i as int) =~= Seq::<(Seq<char>, Seq<char>)>::empty());
    String::new()
}

/// Appends `fields` joined by commas.
fn push_fields(out: &mut Vec<char>, fields: &Vec<String>)
    ensures
        final(out)@ == old(out)@ + join(fields@.map_values(|f: String| f@), seq![',']),
{
    let ghost o = out@;
    let ghost fv = fields@.map_values(|f: String| f@);
    let mut i: usize = 0;
    while i < fields.len()
        invariant
            i <= fields.len(),
            fv == fields@.map_values(|f: String| f@),
            out@ == o + join(fv.take(i as int), seq![',']),
        decreases fields.len() - i,
    {
        assert(fv.take(i + 1).drop_last() =~= fv.take(i as int));
        if i > 0 {
            out.push(',');
        } else {
            assert(fv.take(1) =~= seq![fv[0]]);
        }
        push_str(out, fields[i].as_str());
        i = i + 1;
        assert(out@ =~= o + join(fv.take(i as int), seq![',']));
    }
    assert(fv.take(fields.len() as int) =~= fv);
}

/// Converts a JSON array of objects to CSV text (see `json_csv`).
pub fn json_to_csv_str(json_str: &str) -> (r: Result<String, JsonCsvError>)
    ensures
        match r {
            Ok(s) => json_csv(json_str@) == Ok::<Seq<char>, JsonCsvErrorView>(s@),
            Err(e) => json_csv(json_str@) == Err::<Seq<char>, JsonCsvErrorView>(e@),
        },
{
    let doc = match parse_json_records(json_str) {
        Ok(d) => d,
        Err(m) => {
            return Err(JsonCsvError::Invalid(m));
        },
    };
    match doc {
        Some(recs) => Ok(csv_of_records(&recs)),
        None => Err(JsonCsvError::NotArray),
    }
}

/// The CSV text of the elements of a parsed JSON array (see
/// `records_csv`).
pub fn csv_of_records(recs: &Vec<Option<Vec<(String, String)>>>) -> (r: String)
    ensures
        r@ == records_csv(recs@.map_values(|r: Option<Vec<(String, String)>>| record_view(r))),
{
    let ghost rv = recs@.map_values(|r: Option<Vec<(String, String)>>| record_view(r));
    if recs.len() == 0 {
        return String::new();
    }
    let mut headers: Vec<String> = Vec::new();
    match &recs[0] {
        Some(pairs) => {
            let mut k: usize = 0;
            while k < pairs.len()
                invariant
                    k <= pairs.len(),
                    headers@.map_values(|h: String| h@) == keys_of(
                        pairs@.map_values(|p: (String, String)| pair_view(p)),
                    ).take(k as int),
                decreases pairs.len() - k,
            {
                let ghost kv = keys_of(pairs@.map_values(|p: (String, String)| pair_view(p)));
                let ghost h0 = headers@;
                let key = pairs[k].0.clone();
                headers.push(key);
                assert(headers@.map_values(|h: String| h@) =~= h0.map_values(|h: String| h@).push(
                    key@,
                ));
                assert(kv.take(k + 1) =~= kv.take(k as int).push(kv[k as int]));
                k = k + 1;
                assert(headers@.map_values(|h: String| h@) =~= keys_of(
                    pairs@.map_values(|p: (String, String)| pair_view(p)),
                ).take(k as int));
            }
            assert(keys_of(pairs@.map_values(|p: (String, String)| pair_view(p))).take(
                pairs.len() as int,
            ) =~= keys_of(pairs@.map_values(|p: (String, String)| pair_view(p))));
        },
        None => {},
    }
    let ghost hv = headers@.map_values(|h: String| h@);
    assert(hv == match rv[0] {
        Some(p) => keys_of(p),
        None => seq![],
    });
    let mut out: Vec<char> = Vec::new();
    let mut fields: Vec<String> = Vec::new();
    let mut k: usize = 0;
    while k < headers.len()
        invariant
            k <= headers.len(),
            hv == headers@.map_values(|h: String| h@),
            fields@.map_values(|f: String| f@) == hv.map_values(|h: Seq<char>| csv_field(h)).take(
                k as int,
            ),
        decreases headers.len() - k,
    {
        let ghost f0 = fields@;
        let ghost cv = hv.map_values(|h: Seq<char>| csv_field(h));
        let q = csv_quote(headers[k].as_str());
        fields.push(q);
        assert(fields@.map_values(|f: String| f@) =~= f0.map_values(|f: String| f@).push(q@));
        assert(cv.take(k + 1) =~= cv.take(k as int).push(cv[k as int]));
        k = k + 1;
        assert(fields@.map_values(|f: String| f@) =~= hv.map_values(|h: Seq<char>| csv_field(h)).take(
            k as int,
        ));
    }
    assert(hv.map_values(|h: Seq<char>| csv_field(h)).take(headers.len() as int) =~= hv.map_values(
        |h: Seq<char>| csv_field(h),
    ));
    push_fields(&mut out, &fields);
    out.push('\n');
    let ghost head = out@;
    let mut i: usize = 0;
    while i < recs.len()
        invariant
            i <= recs.len(),
            rv == recs@.map_values(|r: Option<Vec<(String, String)>>| record_view(r)),
            hv == headers@.map_values(|h: String| h@),
            out@ == head + record_lines(rv.take(i as int), hv),
        decreases recs.len() - i,
    {
        assert(rv.take(i + 1).drop_last() =~= rv.take(i as int));
        assert(rv.take(i + 1).last() == record_view(recs@[i as int]));
        match &recs[i] {
            Some(pairs) => {
                let ghost pv = pairs@.map_values(|p: (String, String)| pair_view(p));
                let mut row: Vec<String> = Vec::new();
                let mut k: usize = 0;
                while k < headers.len()
                    invariant
                        k <= headers.len(),
                        hv == headers@.map_values(|h: String| h@),
                        pv == pairs@.map_values(|p: (String, String)| pair_view(p)),
                        row@.map_values(|f: String| f@) == hv.map_values(
                            |h: Seq<char>| csv_field(lookup(pv, h)),
                        ).take(k as int),
                    decreases headers.len() - k,
                {
                    let v = lookup_exec(pairs, &headers[k]);
                    let ghost r0 = row@;
                    let ghost cv = hv.map_values(|h: Seq<char>| csv_field(lookup(pv, h)));
                    let q = csv_quote(v.as_str());
                    row.push(q);
                    assert(row@.map_values(|f: String| f@) =~= r0.map_values(|f: String| f@).push(
                        q@,
                    ));
                    assert(cv.take(k + 1) =~= cv.take(k as int).push(cv[k as int]));
                    k = k + 1;
                    assert(row@.map_values(|f: String| f@) =~= hv.map_values(
                        |h: Seq<char>| csv_field(lookup(pv, h)),
                    ).take(k as int));
                }
                assert(hv.map_values(|h: Seq<char>| csv_field(lookup(pv, h))).take(
                    headers.len() as int,
                ) =~= hv.map_values(|h: Seq<char>| csv_field(lookup(pv, h))));
                push_fields(&mut out, &row);
                out.push('\n');
            },
            None => {},
        }
        i = i + 1;
        assert(out@ =~= head + record_lines(rv.take(i as int), hv));
    }
    assert(rv.take(recs.len() as int) =~= rv);
    chars_to_string(&out)
}

// ── Which conversion a request asks for ─────────────────────────────────────

/// The conversions the application performs.
#[derive(PartialEq, Eq, Structural, Clone, Copy, Debug)]
pub enum Conversion {
    RasterToImage(OutputFormat),
    RasterToPdf,
    SvgToImage(OutputFormat),
    SvgToPdf,
    PdfToTxt,
    PdfToHtml,
    TxtToPdf,
    MdToHtml,
    MdToTxt,
    MdToPdf,
    HtmlToTxt,
    HtmlToPdf,
    DocxToTxt,
    DocxToHtml,
    DocxToPdf,
    PptxToTxt,
    PptxToPdf,
    ExcelToCsv,
    ExcelToJson,
    ExcelToTxt,
    ExcelToPdf,
    CsvToJson,
    CsvToXlsx,
    CsvToTxt,
    CsvToPdf,
    JsonToCsv,
    JsonToTxt,
}

/// The kind of conversion, before an image format is parsed.
#[derive(PartialEq, Eq, Structural, Clone, Copy, Debug)]
pub enum Route {
    RasterToImage,
    SvgToImage,
    Fixed(Conversion),
}

/// Whether a lowercased target is one a raster image can be written in.
pub open spec fn is_raster_target(f: Seq<char>) -> bool {
    f == "png"@ || f == "jpg"@ || f == "jpeg"@ || f == "webp"@ || f == "bmp"@ || f == "gif"@ || f
        == "tiff"@ || f == "tga"@ || f == "ico"@
}

/// Whether a lowercased target is one an SVG can be rasterized to.
pub open spec fn is_svg_target(f: Seq<char>) -> bool {
    f == "png"@ || f == "jpg"@ || f == "jpeg"@ || f == "webp"@ || f == "bmp"@
}

/// The route for a lowercased input extension and target format, tried in
/// order as the application lists them.
pub open spec fn route_for(ext: Seq<char>, f: Seq<char>) -> Option<Route> {
    let md = ext == "md"@ || ext == "markdown"@;
    let html = ext == "html"@ || ext == "htm"@;
    let docx = ext == "docx"@ || ext == "doc"@;
    let pptx = ext == "pptx"@ || ext == "ppt"@;
    let excel = ext == "xlsx"@ || ext == "xls"@ || ext == "ods"@;
    if crate::conversion_engine::is_raster_input(ext) && is_raster_target(f) {
        Some(Route::RasterToImage)
    } else if crate::conversion_engine::is_raster_input(ext) && f == "pdf"@ {
        Some(Route::Fixed(Conversion::RasterToPdf))
    } else if ext == "svg"@ && is_svg_target(f) {
        Some(Route::SvgToImage)
    } else if ext == "svg"@ && f == "pdf"@ {
        Some(Route::Fixed(Conversion::SvgToPdf))
    } else if ext == "pdf"@ && f == "txt"@ {
        Some(Route::Fixed(Conversion::PdfToTxt))
    } else if ext == "pdf"@ && f == "html"@ {
        Some(Route::Fixed(Conversion::PdfToHtml))
    } else if ext == "txt"@ && f == "pdf"@ {
        Some(Route::Fixed(Conversion::TxtToPdf))
    } else if md && f == "html"@ {
        Some(Route::Fixed(Conversion::MdToHtml))
    } else if md && f == "txt"@ {
        Some(Route::Fixed(Conversion::MdToTxt))
    } else if md && f == "pdf"@ {
        Some(Route::Fixed(Conversion::MdToPdf))
    } else if html && f == "txt"@ {
        Some(Route::Fixed(Conversion::HtmlToTxt))
    } else if html && f == "pdf"@ {
        Some(Route::Fixed(Conversion::HtmlToPdf))
    } else if docx && f == "txt"@ {
        Some(Route::Fixed(Conversion::DocxToTxt))
    } else if docx && f == "html"@ {
        Some(Route::Fixed(Conversion::DocxToHtml))
    } else if docx && f == "pdf"@ {
        Some(Route::Fixed(Conversion::DocxToPdf))
    } else if pptx && f == "txt"@ {
        Some(Route::Fixed(Conversion::PptxToTxt))
    } else if pptx && f == "pdf"@ {
        Some(Route::Fixed(Conversion::PptxToPdf))
    } else if excel && f == "csv"@ {
        Some(Route::Fixed(Conversion::ExcelToCsv))
    } else if excel && f == "json"@ {
        Some(Route::Fixed(Conversion::ExcelToJson))
    } else if excel && f == "txt"@ {
        Some(Route::Fixed(Conversion::ExcelToTxt))
    } else if excel && f == "pdf"@ {
        Some(Route::Fixed(Conversion::ExcelToPdf))
    } else if ext == "csv"@ && f == "json"@ {
        Some(Route::Fixed(Conversion::CsvToJson))
    } else if ext == "csv"@ && f == "xlsx"@ {
        Some(Route::Fixed(Conversion::CsvToXlsx))
    } else if ext == "csv"@ && f == "txt"@ {
        Some(Route::Fixed(Conversion::CsvToTxt))
    } else if ext == "csv"@ && f == "pdf"@ {
        Some(Route::Fixed(Conversion::CsvToPdf))
    } else if ext == "json"@ && f == "csv"@ {
        Some(Route::Fixed(Conversion::JsonToCsv))
    } else if ext == "json"@ && f == "txt"@ {
        Some(Route::Fixed(Conversion::JsonToTxt))
    } else {
        None
    }
}

/// The input extensions a conversion reads: raster images, SVG, PDF, plain
/// text, Markdown (`md`, `markdown`), HTML (`html`, `htm`), Word (`docx`,
/// `doc`), PowerPoint (`pptx`, `ppt`), spreadsheets (`xlsx`, `xls`, `ods`),
/// CSV or JSON, as its name says.
pub open spec fn reads_extension(c: Conversion, ext: Seq<char>) -> bool {
    match c {
        Conversion::RasterToImage(_) | Conversion::RasterToPdf => crate::conversion_engine::is_raster_input(ext),
        Conversion::SvgToImage(_) | Conversion::SvgToPdf => ext == "svg"@,
        Conversion::PdfToTxt | Conversion::PdfToHtml => ext == "pdf"@,
        Conversion::TxtToPdf => ext == "txt"@,
        Conversion::MdToHtml | Conversion::MdToTxt | Conversion::MdToPdf => ext == "md"@ || ext
            == "markdown"@,
        Conversion::HtmlToTxt | Conversion::HtmlToPdf => ext == "html"@ || ext == "htm"@,
        Conversion::DocxToTxt | Conversion::DocxToHtml | Conversion::DocxToPdf => ext == "docx"@
            || ext == "doc"@,
        Conversion::PptxToTxt | Conversion::PptxToPdf => ext == "pptx"@ || ext == "ppt"@,
        Conversion::ExcelToCsv | Conversion::ExcelToJson | Conversion::ExcelToTxt
        | Conversion::ExcelToPdf => ext == "xlsx"@ || ext == "xls"@ || ext == "ods"@,
        Conversion::CsvToJson | Conversion::CsvToXlsx | Conversion::CsvToTxt
        | Conversion::CsvToPdf => ext == "csv"@,
        Conversion::JsonToCsv | Conversion::JsonToTxt => ext == "json"@,
    }
}

/// The target format a conversion writes, as its name says (empty for the
/// image conversions, whose format is carried in the value).
pub open spec fn writes_format(c: Conversion) -> Seq<char> {
    match c {
        Conversion::RasterToImage(_) | Conversion::SvgToImage(_) => Seq::<char>::empty(),
        Conversion::RasterToPdf | Conversion::SvgToPdf | Conversion::TxtToPdf
        | Conversion::MdToPdf | Conversion::HtmlToPdf | Conversion::DocxToPdf
        | Conversion::PptxToPdf | Conversion::ExcelToPdf | Conversion::CsvToPdf => "pdf"@,
        Conversion::PdfToTxt | Conversion::MdToTxt | Conversion::HtmlToTxt | Conversion::DocxToTxt
        | Conversion::PptxToTxt | Conversion::ExcelToTxt | Conversion::CsvToTxt
        | Conversion::JsonToTxt => "txt"@,
        Conversion::PdfToHtml | Conversion::MdToHtml | Conversion::DocxToHtml => "html"@,
        Conversion::ExcelToCsv | Conversion::JsonToCsv => "csv"@,
        Conversion::ExcelToJson | Conversion::CsvToJson => "json"@,
        Conversion::CsvToXlsx => "xlsx"@,
    }
}

/// Each route names the conversion of its own pair: a fixed conversion
/// reads the input extension and writes the target it was chosen for, and
/// the image routes are taken only from an image input to an image target.
pub proof fn law_routes_name_their_pair(ext: Seq<char>, f: Seq<char>)
    ensures
        route_for(ext, f) matches Some(Route::Fixed(c)) ==> reads_extension(c, ext)
            && writes_format(c) == f,
        route_for(ext, f) == Some(Route::RasterToImage) ==> crate::conversion_engine::is_raster_input(
            ext,
        ) && is_raster_target(f),
        route_for(ext, f) == Some(Route::SvgToImage) ==> ext == "svg"@ && is_svg_target(f),
{
}

/// A planned conversion reads the request's input extension and writes its
/// target: a fixed conversion writes the lowercased target itself, an image
/// conversion the image format that the target names.
pub proof fn law_plan_converts_requested_pair(
    input_path: Seq<char>,
    output_format: Seq<char>,
    output_dir: Option<Seq<char>>,
    output_name: Option<Seq<char>>,
)
    ensures
        plan_for(input_path, output_format, output_dir, output_name) matches Ok((c, _)) ==> {
            &&& reads_extension(c, input_ext(input_path))
            &&& match c {
                Conversion::RasterToImage(fmt) => format_for_name(
                    lowercase_of(lowercase_of(output_format)),
                ) == Some(fmt),
                Conversion::SvgToImage(fmt) => format_for_name(
                    lowercase_of(lowercase_of(output_format)),
                ) == Some(fmt),
                _ => writes_format(c) == lowercase_of(output_format),
            }
        },
{
    law_routes_name_their_pair(input_ext(input_path), lowercase_of(output_format));
}

/// Every format offered for an input extension (see `formats_for`) is one
/// the conversion command performs: the pair has a route, and where the
/// route writes an image, the format names one.
pub proof fn law_offered_formats_convert(l: Seq<char>, i: int)
    requires
        0 <= i < formats_for(l).len(),
    ensures
        route_for(l, formats_for(l)[i]) is Some,
        route_for(l, formats_for(l)[i]) == Some(Route::RasterToImage) || route_for(
            l,
            formats_for(l)[i],
        ) == Some(Route::SvgToImage) ==> format_for_name(formats_for(l)[i]) is Some,
{
    lemma_name_chars();
}

/// The formats offered for the raster image inputs.
#[verifier::spinoff_prover]
pub proof fn law_formats_of_raster_inputs()
    ensures
        formats_for("png"@) == seq!["png"@, "jpg"@, "webp"@, "bmp"@, "gif"@, "tiff"@, "tga"@, "ico"@, "pdf"@],
        formats_for("jpg"@) == seq!["png"@, "jpg"@, "webp"@, "bmp"@, "gif"@, "tiff"@, "tga"@, "ico"@, "pdf"@],
        formats_for("jpeg"@) == seq!["png"@, "jpg"@, "webp"@, "bmp"@, "gif"@, "tiff"@, "tga"@, "ico"@, "pdf"@],
        formats_for("webp"@) == seq!["png"@, "jpg"@, "webp"@, "bmp"@, "gif"@, "tiff"@, "tga"@, "ico"@, "pdf"@],
        formats_for("bmp"@) == seq!["png"@, "jpg"@, "webp"@, "bmp"@, "gif"@, "tiff"@, "tga"@, "ico"@, "pdf"@],
        formats_for("gif"@) == seq!["png"@, "jpg"@, "webp"@, "bmp"@, "gif"@, "tiff"@, "tga"@, "ico"@, "pdf"@],
        formats_for("tiff"@) == seq!["png"@, "jpg"@, "webp"@, "bmp"@, "gif"@, "tiff"@, "tga"@, "ico"@, "pdf"@],
        formats_for("tif"@) == seq!["png"@, "jpg"@, "webp"@, "bmp"@, "gif"@, "tiff"@, "tga"@, "ico"@, "pdf"@],
        formats_for("tga"@) == seq!["png"@, "jpg"@, "webp"@, "bmp"@, "gif"@, "tiff"@, "tga"@, "ico"@, "pdf"@],
        formats_for("pnm"@) == seq!["png"@, "jpg"@, "webp"@, "bmp"@, "gif"@, "tiff"@, "tga"@, "ico"@, "pdf"@],
        formats_for("hdr"@) == seq!["png"@, "jpg"@, "webp"@, "bmp"@, "gif"@, "tiff"@, "tga"@, "ico"@, "pdf"@],
        formats_for("ico"@) == seq!["png"@, "jpg"@, "webp"@, "bmp"@, "gif"@, "tiff"@, "tga"@, "ico"@, "pdf"@],
{
    lemma_name_chars();
}

/// The formats offered for `svg`.
#[verifier::spinoff_prover]
pub proof fn law_formats_of_svg()
    ensures
        formats_for("svg"@) == seq!["png"@, "jpg"@, "webp"@, "bmp"@, "pdf"@],
{
    lemma_name_chars();
}

/// The formats offered for `pdf`.
#[verifier::spinoff_prover]
pub proof fn law_formats_of_pdf()
    ensures
        formats_for("pdf"@) == seq!["txt"@, "html"@],
{
    lemma_name_chars();
}

/// The formats offered for `txt`.
#[verifier::spinoff_prover]
pub proof fn law_formats_of_txt()
    ensures
        formats_for("txt"@) == seq!["pdf"@],
{
    lemma_name_chars();
}

/// The formats offered for `md`, `markdown`.
#[verifier::spinoff_prover]
pub proof fn law_formats_of_markdown()
    ensures
        formats_for("md"@) == seq!["html"@, "txt"@, "pdf"@],
        formats_for("markdown"@) == seq!["html"@, "txt"@, "pdf"@],
{
    lemma_name_chars();
}

/// The formats offered for `html`, `htm`.
#[verifier::spinoff_prover]
pub proof fn law_formats_of_html()
    ensures
        formats_for("html"@) == seq!["txt"@, "pdf"@],
        formats_for("htm"@) == seq!["txt"@, "pdf"@],
{
    lemma_name_chars();
}

/// The formats offered for `docx`, `doc`.
#[verifier::spinoff_prover]
pub proof fn law_formats_of_word()
    ensures
        formats_for("docx"@) == seq!["txt"@, "html"@, "pdf"@],
        formats_for("doc"@) == seq!["txt"@, "html"@, "pdf"@],
{
    lemma_name_chars();
}

/// The formats offered for `pptx`, `ppt`.
#[verifier::spinoff_prover]
pub proof fn law_formats_of_powerpoint()
    ensures
        formats_for("pptx"@) == seq!["txt"@, "pdf"@],
        formats_for("ppt"@) == seq!["txt"@, "pdf"@],
{
    lemma_name_chars();
}

/// The formats offered for `xlsx`, `xls`, `ods`.
#[verifier::spinoff_prover]
pub proof fn law_formats_of_spreadsheets()
    ensures
        formats_for("xlsx"@) == seq!["csv"@, "json"@, "txt"@, "pdf"@],
        formats_for("xls"@) == seq!["csv"@, "json"@, "txt"@, "pdf"@],
        formats_for("ods"@) == seq!["csv"@, "json"@, "txt"@, "pdf"@],
{
    lemma_name_chars();
}

/// The formats offered for `csv`.
#[verifier::spinoff_prover]
pub proof fn law_formats_of_csv()
    ensures
        formats_for("csv"@) == seq!["json"@, "xlsx"@, "txt"@, "pdf"@],
{
    lemma_name_chars();
}

/// The formats offered for `json`.
#[verifier::spinoff_prover]
pub proof fn law_formats_of_json()
    ensures
        formats_for("json"@) == seq!["csv"@, "txt"@],
{
    lemma_name_chars();
}

/// Only the known input extensions are offered any format.
pub proof fn law_unknown_extensions_get_nothing(l: Seq<char>)
    ensures
        formats_for(l).len() == 0 <==> !(l == "png"@ || l == "jpg"@ || l == "jpeg"@ || l == "webp"@ || l == "bmp"@ || l == "gif"@ || l == "tiff"@ || l == "tif"@ || l == "tga"@ || l == "pnm"@ || l == "hdr"@ || l == "ico"@ || l == "svg"@ || l == "pdf"@ || l == "txt"@ || l == "md"@ || l == "markdown"@ || l == "html"@ || l == "htm"@ || l == "docx"@ || l == "doc"@ || l == "pptx"@ || l == "ppt"@ || l == "xlsx"@ || l == "xls"@ || l == "ods"@ || l == "csv"@ || l == "json"@),
{
}

/// Whether a lowercased target is offered for a lowercased extension:
/// listed by `formats_for`, or `jpeg` where `jpg` is listed.
pub open spec fn is_offered(l: Seq<char>, f: Seq<char>) -> bool {
    formats_for(l).contains(f) || (f == "jpeg"@ && formats_for(l).contains("jpg"@))
}

/// The characters of the extension and format names, spelled out, so that
/// two different names are seen to differ.
proof fn lemma_name_chars()
    ensures
        "png"@.len() == 3 && "png"@[0] == 'p' && "png"@[1] == 'n' && "png"@[2] == 'g',
        "jpg"@.len() == 3 && "jpg"@[0] == 'j' && "jpg"@[1] == 'p' && "jpg"@[2] == 'g',
        "jpeg"@.len() == 4 && "jpeg"@[0] == 'j' && "jpeg"@[1] == 'p' && "jpeg"@[2] == 'e' && "jpeg"@[3] == 'g',
        "webp"@.len() == 4 && "webp"@[0] == 'w' && "webp"@[1] == 'e' && "webp"@[2] == 'b' && "webp"@[3] == 'p',
        "bmp"@.len() == 3 && "bmp"@[0] == 'b' && "bmp"@[1] == 'm' && "bmp"@[2] == 'p',
        "gif"@.len() == 3 && "gif"@[0] == 'g' && "gif"@[1] == 'i' && "gif"@[2] == 'f',
        "tiff"@.len() == 4 && "tiff"@[0] == 't' && "tiff"@[1] == 'i' && "tiff"@[2] == 'f' && "tiff"@[3] == 'f',
        "tif"@.len() == 3 && "tif"@[0] == 't' && "tif"@[1] == 'i' && "tif"@[2] == 'f',
        "tga"@.len() == 3 && "tga"@[0] == 't' && "tga"@[1] == 'g' && "tga"@[2] == 'a',
        "pnm"@.len() == 3 && "pnm"@[0] == 'p' && "pnm"@[1] == 'n' && "pnm"@[2] == 'm',
        "hdr"@.len() == 3 && "hdr"@[0] == 'h' && "hdr"@[1] == 'd' && "hdr"@[2] == 'r',
        "ico"@.len() == 3 && "ico"@[0] == 'i' && "ico"@[1] == 'c' && "ico"@[2] == 'o',
        "svg"@.len() == 3 && "svg"@[0] == 's' && "svg"@[1] == 'v' && "svg"@[2] == 'g',
        "pdf"@.len() == 3 && "pdf"@[0] == 'p' && "pdf"@[1] == 'd' && "pdf"@[2] == 'f',
        "txt"@.len() == 3 && "txt"@[0] == 't' && "txt"@[1] == 'x' && "txt"@[2] == 't',
        "md"@.len() == 2 && "md"@[0] == 'm' && "md"@[1] == 'd',
        "markdown"@.len() == 8,
        "html"@.len() == 4 && "html"@[0] == 'h' && "html"@[1] == 't' && "html"@[2] == 'm' && "html"@[3] == 'l',
        "htm"@.len() == 3 && "htm"@[0] == 'h' && "htm"@[1] == 't' && "htm"@[2] == 'm',
        "docx"@.len() == 4 && "docx"@[0] == 'd' && "docx"@[1] == 'o' && "docx"@[2] == 'c' && "docx"@[3] == 'x',
        "doc"@.len() == 3 && "doc"@[0] == 'd' && "doc"@[1] == 'o' && "doc"@[2] == 'c',
        "pptx"@.len() == 4 && "pptx"@[0] == 'p' && "pptx"@[1] == 'p' && "pptx"@[2] == 't' && "pptx"@[3] == 'x',
        "ppt"@.len() == 3 && "ppt"@[0] == 'p' && "ppt"@[1] == 'p' && "ppt"@[2] == 't',
        "xlsx"@.len() == 4 && "xlsx"@[0] == 'x' && "xlsx"@[1] == 'l' && "xlsx"@[2] == 's' && "xlsx"@[3] == 'x',
        "xls"@.len() == 3 && "xls"@[0] == 'x' && "xls"@[1] == 'l' && "xls"@[2] == 's',
        "ods"@.len() == 3 && "ods"@[0] == 'o' && "ods"@[1] == 'd' && "ods"@[2] == 's',
        "csv"@.len() == 3 && "csv"@[0] == 'c' && "csv"@[1] == 's' && "csv"@[2] == 'v',
        "json"@.len() == 4 && "json"@[0] == 'j' && "json"@[1] == 's' && "json"@[2] == 'o' && "json"@[3] == 'n',
{
    reveal_strlit("png");
    reveal_strlit("jpg");
    reveal_strlit("jpeg");
    reveal_strlit("webp");
    reveal_strlit("bmp");
    reveal_strlit("gif");
    reveal_strlit("tiff");
    reveal_strlit("tif");
    reveal_strlit("tga");
    reveal_strlit("pnm");
    reveal_strlit("hdr");
    reveal_strlit("ico");
    reveal_strlit("svg");
    reveal_strlit("pdf");
    reveal_strlit("txt");
    reveal_strlit("md");
    reveal_strlit("markdown");
    reveal_strlit("html");
    reveal_strlit("htm");
    reveal_strlit("docx");
    reveal_strlit("doc");
    reveal_strlit("pptx");
    reveal_strlit("ppt");
    reveal_strlit("xlsx");
    reveal_strlit("xls");
    reveal_strlit("ods");
    reveal_strlit("csv");
    reveal_strlit("json");
}

#[verifier::spinoff_prover]
proof fn lemma_raster_routes_offered(l: Seq<char>, f: Seq<char>)
    requires
        crate::conversion_engine::is_raster_input(l),
        route_for(l, f) is Some,
    ensures
        is_offered(l, f),
{
    lemma_name_chars();
    let fs = formats_for(l);
    assert(fs =~= seq!["png"@, "jpg"@, "webp"@, "bmp"@, "gif"@, "tiff"@, "tga"@, "ico"@, "pdf"@]);
    assert(fs[1] == "jpg"@);
    assert(f == "jpeg"@ || f == fs[0] || f == fs[1] || f == fs[2] || f == fs[3] || f == fs[4] || f
        == fs[5] || f == fs[6] || f == fs[7] || f == fs[8]);
}

#[verifier::spinoff_prover]
proof fn lemma_svg_routes_offered(f: Seq<char>)
    requires
        route_for("svg"@, f) is Some,
    ensures
        is_offered("svg"@, f),
{
    lemma_name_chars();
    let fs = formats_for("svg"@);
    assert(fs =~= seq!["png"@, "jpg"@, "webp"@, "bmp"@, "pdf"@]);
    assert(fs[1] == "jpg"@);
    assert(f == "jpeg"@ || f == fs[0] || f == fs[1] || f == fs[2] || f == fs[3] || f == fs[4]);
}

#[verifier::spinoff_prover]
proof fn lemma_document_routes_offered(l: Seq<char>, f: Seq<char>)
    requires
        !crate::conversion_engine::is_raster_input(l),
        l != "svg"@,
        route_for(l, f) is Some,
    ensures
        formats_for(l).contains(f),
{
    lemma_name_chars();
    let fs = formats_for(l);
    if l == "pdf"@ {
        assert(fs =~= seq!["txt"@, "html"@]);
        assert(f == fs[0] || f == fs[1]);
    } else if l == "txt"@ {
        assert(fs =~= seq!["pdf"@]);
        assert(f == fs[0]);
    } else if l == "md"@ || l == "markdown"@ {
        assert(fs =~= seq!["html"@, "txt"@, "pdf"@]);
        assert(f == fs[0] || f == fs[1] || f == fs[2]);
    } else if l == "html"@ || l == "htm"@ {
        assert(fs =~= seq!["txt"@, "pdf"@]);
        assert(f == fs[0] || f == fs[1]);
    } else if l == "docx"@ || l == "doc"@ {
        assert(fs =~= seq!["txt"@, "html"@, "pdf"@]);
        assert(f == fs[0] || f == fs[1] || f == fs[2]);
    } else if l == "pptx"@ || l == "ppt"@ {
        assert(fs =~= seq!["txt"@, "pdf"@]);
        assert(f == fs[0] || f == fs[1]);
    } else if l == "xlsx"@ || l == "xls"@ || l == "ods"@ {
        assert(fs =~= seq!["csv"@, "json"@, "txt"@, "pdf"@]);
        assert(f == fs[0] || f == fs[1] || f == fs[2] || f == fs[3]);
    } else if l == "csv"@ {
        assert(fs =~= seq!["json"@, "xlsx"@, "txt"@, "pdf"@]);
        assert(f == fs[0] || f == fs[1] || f == fs[2] || f == fs[3]);
    } else {
        assert(l == "json"@);
        assert(fs =~= seq!["csv"@, "txt"@]);
        assert(f == fs[0] || f == fs[1]);
    }
}

proof fn lemma_offered_routes(l: Seq<char>, f: Seq<char>)
    requires
        is_offered(l, f),
    ensures
        route_for(l, f) is Some,
{
    let fs = formats_for(l);
    if fs.contains(f) {
        let i = choose|i: int| 0 <= i < fs.len() && fs[i] == f;
        law_offered_formats_convert(l, i);
    } else {
        let i = choose|i: int| 0 <= i < fs.len() && fs[i] == "jpg"@;
        law_offered_formats_convert(l, i);
    lemma_name_chars();
    }
}

/// A conversion exists for an extension and a target exactly when the
/// target is offered for that extension (`jpeg` standing for `jpg`).
pub proof fn law_routes_are_offered(l: Seq<char>, f: Seq<char>)
    ensures
        route_for(l, f) is Some <==> is_offered(l, f),
{
    if route_for(l, f) is Some {
        if crate::conversion_engine::is_raster_input(l) {
            lemma_raster_routes_offered(l, f);
        } else if l == "svg"@ {
            lemma_svg_routes_offered(f);
        } else {
            lemma_document_routes_offered(l, f);
        }
    }
    if is_offered(l, f) {
        lemma_offered_routes(l, f);
    }
}

/// The message for a pair that has no conversion.
pub open spec fn unsupported_message(ext: Seq<char>, f: Seq<char>) -> Seq<char> {
    "Conversion ."@ + ext + " → "@ + f + " non supportée"@
}

/// The lowercased extension of the input (empty when it has none).
pub open spec fn input_ext(input_path: Seq<char>) -> Seq<char> {
    lowercase_of(
        match extension_name_of(input_path) {
            Some(e) => e,
            None => seq![],
        },
    )
}

/// A planned conversion: what to run and where the output goes.
pub struct ConversionPlan {
    pub conversion: Conversion,
    pub output_path: String,
}

/// The plan for a request, or the message it fails with: the route of the
/// lowercased input extension and target, the image format parsed from the
/// target where the route writes an image, and the output path built from
/// the lowercased target.
pub open spec fn plan_for(
    input_path: Seq<char>,
    output_format: Seq<char>,
    output_dir: Option<Seq<char>>,
    output_name: Option<Seq<char>>,
) -> Result<(Conversion, Seq<char>), Seq<char>> {
    let ext = input_ext(input_path);
    let f = lowercase_of(output_format);
    let out = output_path(input_path, f, output_dir, output_name);
    match route_for(ext, f) {
        None => Err(unsupported_message(ext, f)),
        Some(Route::Fixed(c)) => Ok((c, out)),
        Some(Route::RasterToImage) => match format_for_name(lowercase_of(f)) {
            Some(fmt) => Ok((Conversion::RasterToImage(fmt), out)),
            None => Err(format_error_message(f)),
        },
        Some(Route::SvgToImage) => match format_for_name(lowercase_of(f)) {
            Some(fmt) => Ok((Conversion::SvgToImage(fmt), out)),
            None => Err(format_error_message(f)),
        },
    }
}

/// A conversion request is refused as unsupported exactly when its
/// (lowercased) target is not offered for its (lowercased) input extension.
pub proof fn law_refused_exactly_when_not_offered(
    input_path: Seq<char>,
    output_format: Seq<char>,
    output_dir: Option<Seq<char>>,
    output_name: Option<Seq<char>>,
)
    ensures
        plan_for(input_path, output_format, output_dir, output_name) == Err::<
            (Conversion, Seq<char>),
            Seq<char>,
        >(unsupported_message(input_ext(input_path), lowercase_of(output_format))) <==> !is_offered(
            input_ext(input_path),
            lowercase_of(output_format),
        ),
{
    let ext = input_ext(input_path);
    let f = lowercase_of(output_format);
    law_routes_are_offered(ext, f);
    reveal_strlit("Conversion .");
    reveal_strlit("Format image non supporté: ");
    assert(unsupported_message(ext, f)[0] == 'C');
    assert(format_error_message(f)[0] == 'F');
}

fn is_raster_target_exec(f: &Vec<char>) -> (r: bool)
    ensures
        r == is_raster_target(f@),
{
    chars_eq_str(f, "png") || chars_eq_str(f, "jpg") || chars_eq_str(f, "jpeg") || chars_eq_str(
        f,
        "webp",
    ) || chars_eq_str(f, "bmp") || chars_eq_str(f, "gif") || chars_eq_str(f, "tiff")
        || chars_eq_str(f, "tga") || chars_eq_str(f, "ico")
}

fn is_svg_target_exec(f: &Vec<char>) -> (r: bool)
    ensures
        r == is_svg_target(f@),
{
    chars_eq_str(f, "png") || chars_eq_str(f, "jpg") || chars_eq_str(f, "jpeg") || chars_eq_str(
        f,
        "webp",
    ) || chars_eq_str(f, "bmp")
}

fn is_raster_input_exec(l: &Vec<char>) -> (r: bool)
    ensures
        r == crate::conversion_engine::is_raster_input(l@),
{
    chars_eq_str(l, "png") || chars_eq_str(l, "jpg") || chars_eq_str(l, "jpeg") || chars_eq_str(
        l,
        "webp",
    ) || chars_eq_str(l, "bmp") || chars_eq_str(l, "gif") || chars_eq_str(l, "tiff")
        || chars_eq_str(l, "tif") || chars_eq_str(l, "tga") || chars_eq_str(l, "pnm")
        || chars_eq_str(l, "hdr") || chars_eq_str(l, "ico")
}

fn route_exec(ext: &Vec<char>, f: &Vec<char>) -> (r: Option<Route>)
    ensures
        r == route_for(ext@, f@),
{
    let md = chars_eq_str(ext, "md") || chars_eq_str(ext, "markdown");
    let html = chars_eq_str(ext, "html") || chars_eq_str(ext, "htm");
    let docx = chars_eq_str(ext, "docx") || chars_eq_str(ext, "doc");
    let pptx = chars_eq_str(ext, "pptx") || chars_eq_str(ext, "ppt");
    let excel = chars_eq_str(ext, "xlsx") || chars_eq_str(ext, "xls") || chars_eq_str(ext, "ods");
    let raster = is_raster_input_exec(ext);
    let svg = chars_eq_str(ext, "svg");
    let pdf_in = chars_eq_str(ext, "pdf");
    let txt_in = chars_eq_str(ext, "txt");
    let csv_in = chars_eq_str(ext, "csv");
    let json_in = chars_eq_str(ext, "json");
    let to_pdf = chars_eq_str(f, "pdf");
    let to_txt = chars_eq_str(f, "txt");
    let to_html = chars_eq_str(f, "html");
    let to_csv = chars_eq_str(f, "csv");
    let to_json = chars_eq_str(f, "json");
    let to_xlsx = chars_eq_str(f, "xlsx");
    if raster && is_raster_target_exec(f) {
        Some(Route::RasterToImage)
    } else if raster && to_pdf {
        Some(Route::Fixed(Conversion::RasterToPdf))
    } else if svg && is_svg_target_exec(f) {
        Some(Route::SvgToImage)
    } else if svg && to_pdf {
        Some(Route::Fixed(Conversion::SvgToPdf))
    } else if pdf_in && to_txt {
        Some(Route::Fixed(Conversion::PdfToTxt))
    } else if pdf_in && to_html {
        Some(Route::Fixed(Conversion::PdfToHtml))
    } else if txt_in && to_pdf {
        Some(Route::Fixed(Conversion::TxtToPdf))
    } else if md && to_html {
        Some(Route::Fixed(Conversion::MdToHtml))
    } else if md && to_txt {
        Some(Route::Fixed(Conversion::MdToTxt))
    } else if md && to_pdf {
        Some(Route::Fixed(Conversion::MdToPdf))
    } else if html && to_txt {
        Some(Route::Fixed(Conversion::HtmlToTxt))
    } else if html && to_pdf {
        Some(Route::Fixed(Conversion::HtmlToPdf))
    } else if docx && to_txt {
        Some(Route::Fixed(Conversion::DocxToTxt))
    } else if docx && to_html {
        Some(Route::Fixed(Conversion::DocxToHtml))
    } else if docx && to_pdf {
        Some(Route::Fixed(Conversion::DocxToPdf))
    } else if pptx && to_txt {
        Some(Route::Fixed(Conversion::PptxToTxt))
    } else if pptx && to_pdf {
        Some(Route::Fixed(Conversion::PptxToPdf))
    } else if excel && to_csv {
        Some(Route::Fixed(Conversion::ExcelToCsv))
    } else if excel && to_json {
        Some(Route::Fixed(Conversion::ExcelToJson))
    } else if excel && to_txt {
        Some(Route::Fixed(Conversion::ExcelToTxt))
    } else if excel && to_pdf {
        Some(Route::Fixed(Conversion::ExcelToPdf))
    } else if csv_in && to_json {
        Some(Route::Fixed(Conversion::CsvToJson))
    } else if csv_in && to_xlsx {
        Some(Route::Fixed(Conversion::CsvToXlsx))
    } else if csv_in && to_txt {
        Some(Route::Fixed(Conversion::CsvToTxt))
    } else if csv_in && to_pdf {
        Some(Route::Fixed(Conversion::CsvToPdf))
    } else if json_in && to_csv {
        Some(Route::Fixed(Conversion::JsonToCsv))
    } else if json_in && to_txt {
        Some(Route::Fixed(Conversion::JsonToTxt))
    } else {
        None
    }
}

/// The route of a lowercased input extension and a lowercased target
/// format (see `route_for`).
pub fn conversion_route(ext: &str, format: &str) -> (r: Option<Route>)
    ensures
        r == route_for(ext@, format@),
{
    let e = str_chars(ext);
    let f = str_chars(format);
    route_exec(&e, &f)
}

/// Decides which conversion a request asks for and where its output goes
/// (see `plan_for`); the error is the message the request fails with.
pub fn plan_conversion(
    input_path: &str,
    output_format: &str,
    output_dir: Option<&str>,
    output_name: Option<&str>,
) -> (r: Result<ConversionPlan, String>)
    ensures
        match r {
            Ok(p) => plan_for(input_path@, output_format@, opt_str(output_dir), opt_str(output_name))
                == Ok::<(Conversion, Seq<char>), Seq<char>>((p.conversion, p.output_path@)),
            Err(m) => plan_for(input_path@, output_format@, opt_str(output_dir), opt_str(output_name))
                == Err::<(Conversion, Seq<char>), Seq<char>>(m@),
        },
{
    let raw_ext = match path_extension(input_path) {
        Some(e) => e,
        None => String::new(),
    };
    let ext = crate::chars::lowercase_str(raw_ext.as_str());
    let f = crate::chars::lowercase_str(output_format);
    let f_str = chars_to_string(&f);
    let out = build_output_path_custom(input_path, f_str.as_str(), output_dir, output_name);
    match route_exec(&ext, &f) {
        None => {
            let mut m: Vec<char> = Vec::new();
            push_str(&mut m, "Conversion .");
            extend_chars(&mut m, &ext);
            push_str(&mut m, " → ");
            extend_chars(&mut m, &f);
            push_str(&mut m, " non supportée");
            assert(m@ =~= unsupported_message(ext@, f@));
            Err(chars_to_string(&m))
        },
        Some(Route::Fixed(c)) => Ok(ConversionPlan { conversion: c, output_path: out }),
        Some(Route::RasterToImage) => match OutputFormat::from_str(f_str.as_str()) {
            Ok(fmt) => Ok(ConversionPlan { conversion: Conversion::RasterToImage(fmt), output_path: out }),
            Err(e) => Err(e.message()),
        },
        Some(Route::SvgToImage) => match OutputFormat::from_str(f_str.as_str()) {
            Ok(fmt) => Ok(ConversionPlan { conversion: Conversion::SvgToImage(fmt), output_path: out }),
            Err(e) => Err(e.message()),
        },
    }
}

// ── Merge mode ───────────────────────────────────────────────────────────────

/// How several PDFs are merged.
#[derive(PartialEq, Eq, Structural, Clone, Copy, Debug)]
pub enum MergeMode {
    /// The real pages, copied.
    Pages,
    /// One tall page holding the extracted text.
    Single,
}

/// The message for an unknown merge mode.
pub open spec fn unknown_mode_message(mode: Seq<char>) -> Seq<char> {
    "Mode inconnu: "@ + mode
}

/// The merge mode named `mode` (`pages` or `single`, exactly), or the
/// message the command fails with.
pub fn merge_mode(mode: &str) -> (r: Result<MergeMode, String>)
    ensures
        mode@ == "pages"@ ==> r == Ok::<MergeMode, String>(MergeMode::Pages),
        mode@ != "pages"@ && mode@ == "single"@ ==> r == Ok::<MergeMode, String>(MergeMode::Single),
        mode@ != "pages"@ && mode@ != "single"@ ==> r is Err && r->Err_0@ == unknown_mode_message(
            mode@,
        ),
{
    let m = str_chars(mode);
    if chars_eq_str(&m, "pages") {
        Ok(MergeMode::Pages)
    } else if chars_eq_str(&m, "single") {
        Ok(MergeMode::Single)
    } else {
        let mut out: Vec<char> = Vec::new();
        push_str(&mut out, "Mode inconnu: ");
        push_str(&mut out, mode);
        Err(chars_to_string(&out))
    }
}

// ── ZIP entry names ──────────────────────────────────────────────────────────

/// Index of the last `.` of a name.
pub open spec fn last_dot(s: Seq<char>) -> Option<int>
    decreases s.len(),
{
    if s.len() == 0 {
        None
    } else if s.last() == '.' {
        Some(s.len() - 1)
    } else {
        last_dot(s.drop_last())
    }
}

/// The `c`-th alternative name: `_c` inserted before the last `.`, or
/// appended when there is none.
pub open spec fn numbered_name(o: Seq<char>, c: nat) -> Seq<char> {
    match last_dot(o) {
        Some(d) => o.take(d) + seq!['_'] + decimal(c) + seq!['.'] + o.skip(d + 1),
        None => o + seq!['_'] + decimal(c),
    }
}

/// The first counter from `c` on whose numbered name is free, looking no
/// further than `used.len() + 2`.
pub open spec fn free_from(o: Seq<char>, used: Seq<Seq<char>>, c: nat) -> nat
    decreases used.len() + 2 - c,
{
    if c >= used.len() + 2 {
        c
    } else if !used.contains(numbered_name(o, c)) {
        c
    } else {
        free_from(o, used, c + 1)
    }
}

/// The entry name given to a file called `o` when the names in `used` are
/// taken: `o` itself when free, else its first free numbered name from 2 on.
pub open spec fn dedup_name(o: Seq<char>, used: Seq<Seq<char>>) -> Seq<char> {
    if !used.contains(o) {
        o
    } else {
        numbered_name(o, free_from(o, used, 2))
    }
}

/// Entry names chosen for a list of paths: the names so far, and whether a
/// path without a usable file name stopped the list.
pub open spec fn entries_scan(paths: Seq<Seq<char>>) -> (Seq<Seq<char>>, bool)
    decreases paths.len(),
{
    if paths.len() == 0 {
        (seq![], false)
    } else {
        let st = entries_scan(paths.drop_last());
        if st.1 {
            st
        } else {
            match file_name_of(paths.last()) {
                None => (st.0, true),
                Some(o) => (st.0.push(dedup_name(o, st.0)), false),
            }
        }
    }
}

proof fn lemma_decimal_nonempty(n: nat)
    ensures
        decimal(n).len() >= 1,
    decreases n,
{
    if n >= 10 {
        lemma_decimal_nonempty(n / 10);
    }
}

proof fn lemma_decimal_injective(a: nat, b: nat)
    requires
        decimal(a) == decimal(b),
    ensures
        a == b,
    decreases a,
{
    if a < 10 && b < 10 {
        assert(decimal(a) == seq![crate::chars::digit_char(a)]);
        assert(decimal(b) == seq![crate::chars::digit_char(b)]);
        assert(decimal(a)[0] == decimal(b)[0]);
        assert(decimal(a)[0] == crate::chars::digit_char(a));
        assert(decimal(b)[0] == crate::chars::digit_char(b));
        lemma_digit_injective(a, b);
    } else if a < 10 {
        lemma_decimal_nonempty(b / 10);
        assert(decimal(b).len() >= 2);
    } else if b < 10 {
        lemma_decimal_nonempty(a / 10);
        assert(decimal(a).len() >= 2);
    } else {
        assert(decimal(a) == decimal(a / 10).push(crate::chars::digit_char(a % 10)));
        assert(decimal(b) == decimal(b / 10).push(crate::chars::digit_char(b % 10)));
        assert(decimal(a).last() == decimal(b).last());
        assert(decimal(a).last() == crate::chars::digit_char(a % 10));
        assert(decimal(b).last() == crate::chars::digit_char(b % 10));
        assert(decimal(a).drop_last() =~= decimal(a / 10));
        assert(decimal(b).drop_last() =~= decimal(b / 10));
        lemma_decimal_injective(a / 10, b / 10);
        lemma_digit_injective(a % 10, b % 10);
        assert(a == b) by (nonlinear_arith)
            requires
                a / 10 == b / 10,
                a % 10 == b % 10,
        ;
    }
}

proof fn lemma_digit_injective(x: nat, y: nat)
    requires
        x < 10,
        y < 10,
        crate::chars::digit_char(x) == crate::chars::digit_char(y),
    ensures
        x == y,
{
}

proof fn lemma_last_dot_range(s: Seq<char>)
    ensures
        last_dot(s) matches Some(d) ==> 0 <= d < s.len() && s[d] == '.',
    decreases s.len(),
{
    if s.len() > 0 && s.last() != '.' {
        lemma_last_dot_range(s.drop_last());
    }
}

proof fn lemma_numbered_injective(o: Seq<char>, a: nat, b: nat)
    requires
        numbered_name(o, a) == numbered_name(o, b),
    ensures
        a == b,
{
    lemma_last_dot_range(o);
    let na = numbered_name(o, a);
    let nb = numbered_name(o, b);
    match last_dot(o) {
        Some(d) => {
            let tail = seq!['.'] + o.skip(d + 1);
            assert(na =~= (o.take(d) + seq!['_']) + decimal(a) + tail);
            assert(nb =~= (o.take(d) + seq!['_']) + decimal(b) + tail);
            assert(decimal(a).len() == decimal(b).len());
            assert(na.subrange(d + 1, d + 1 + decimal(a).len()) =~= decimal(a));
            assert(nb.subrange(d + 1, d + 1 + decimal(b).len()) =~= decimal(b));
        },
        None => {
            assert(na.skip(o.len() as int + 1) =~= decimal(a));
            assert(nb.skip(o.len() as int + 1) =~= decimal(b));
        },
    }
    lemma_decimal_injective(a, b);
}

/// Among numbered names `2..n` there are `n - 2` different ones, so if all
/// are taken there are at least that many names taken.
proof fn lemma_taken_bound(o: Seq<char>, used: Seq<Seq<char>>, n: nat)
    requires
        n >= 2,
        forall|d: nat| 2 <= d < n ==> used.contains(#[trigger] numbered_name(o, d)),
    ensures
        n - 2 <= used.len(),
{
    let cands = Seq::new((n - 2) as nat, |i: int| numbered_name(o, (i + 2) as nat));
    assert forall|i: int, j: int| 0 <= i < cands.len() && 0 <= j < cands.len() && i != j implies cands[i]
        != cands[j] by {
        if cands[i] == cands[j] {
            lemma_numbered_injective(o, (i + 2) as nat, (j + 2) as nat);
        }
    }
    assert(cands.no_duplicates());
    cands.unique_seq_to_set();
    assert forall|x: Seq<char>| cands.to_set().contains(x) implies used.to_set().contains(x) by {
        let i = choose|i: int| 0 <= i < cands.len() && cands[i] == x;
        assert(used.contains(numbered_name(o, (i + 2) as nat)));
    }
    used.lemma_cardinality_of_set();
    vstd::set_lib::lemma_len_subset(cands.to_set(), used.to_set());
}

proof fn lemma_free_from_is_free(o: Seq<char>, used: Seq<Seq<char>>, c: nat)
    requires
        c >= 2,
        forall|d: nat| 2 <= d < c ==> used.contains(#[trigger] numbered_name(o, d)),
    ensures
        !used.contains(numbered_name(o, free_from(o, used, c))),
    decreases used.len() + 2 - c,
{
    if c >= used.len() + 2 {
        if used.contains(numbered_name(o, c)) {
            assert forall|d: nat| 2 <= d < c + 1 implies used.contains(
                #[trigger] numbered_name(o, d),
            ) by {}
            lemma_taken_bound(o, used, c + 1);
        }
    } else if used.contains(numbered_name(o, c)) {
        assert forall|d: nat| 2 <= d < c + 1 implies used.contains(#[trigger] numbered_name(o, d)) by {}
        lemma_free_from_is_free(o, used, c + 1);
    }
}

/// A de-duplicated name is never one of the names already taken.
pub proof fn lemma_dedup_is_new(o: Seq<char>, used: Seq<Seq<char>>)
    ensures
        !used.contains(dedup_name(o, used)),
{
    if used.contains(o) {
        lemma_free_from_is_free(o, used, 2);
    }
}

/// Every archive gets distinct entry names: however many files share a
/// name, the names chosen for a list of paths are pairwise different.
pub proof fn law_zip_entry_names_distinct(paths: Seq<Seq<char>>)
    ensures
        entries_scan(paths).0.no_duplicates(),
    decreases paths.len(),
{
    if paths.len() > 0 {
        law_zip_entry_names_distinct(paths.drop_last());
        let st = entries_scan(paths.drop_last());
        if !st.1 {
            match file_name_of(paths.last()) {
                None => {},
                Some(o) => {
                    let n = dedup_name(o, st.0);
                    lemma_dedup_is_new(o, st.0);
                    let e = st.0.push(n);
                    assert forall|i: int, j: int| 0 <= i < e.len() && 0 <= j < e.len() && i != j implies e[i]
                        != e[j] by {
                        if i == st.0.len() {
                            assert(st.0[j] == e[j]);
                        } else if j == st.0.len() {
                            assert(st.0[i] == e[i]);
                        }
                    }
                },
            }
        }
    }
}

fn contains_name(used: &Vec<String>, name: &Vec<char>) -> (r: bool)
    ensures
        r == used@.map_values(|s: String| s@).contains(name@),
{
    let ghost uv = used@.map_values(|s: String| s@);
    let mut i: usize = 0;
    while i < used.len()
        invariant
            i <= used.len(),
            uv == used@.map_values(|s: String| s@),
            forall|j: int| 0 <= j < i ==> uv[j] != name@,
        decreases used.len() - i,
    {
        if chars_eq_str(name, used[i].as_str()) {
            assert(uv[i as int] == name@);
            return true;
        }
        i = i + 1;
    }
    false
}

fn numbered(o: &Vec<char>, c: u128) -> (r: Vec<char>)
    ensures
        r@ == numbered_name(o@, c as nat),
{
    let mut d = o.len();
    assert(o@.take(d as int) =~= o@);
    while d > 0 && o[d - 1] != '.'
        invariant
            d <= o.len(),
            last_dot(o@) == last_dot(o@.take(d as int)),
        decreases d,
    {
        assert(o@.take(d as int).drop_last() =~= o@.take(d - 1));
        d = d - 1;
    }
    let mut r: Vec<char> = Vec::new();
    if d > 0 {
        assert(o@.take(d as int).last() == '.');
        assert(last_dot(o@) == Some(d - 1));
        let head = crate::chars::sub_chars(o, 0, d - 1);
        let tail = crate::chars::sub_chars(o, d, o.len());
        extend_chars(&mut r, &head);
        r.push('_');
        crate::chars::push_decimal(&mut r, c);
        r.push('.');
        extend_chars(&mut r, &tail);
        assert(r@ =~= numbered_name(o@, c as nat));
    } else {
        assert(o@.take(0) =~= Seq::<char>::empty());
        extend_chars(&mut r, o);
        r.push('_');
        crate::chars::push_decimal(&mut r, c);
        assert(r@ =~= numbered_name(o@, c as nat));
    }
    r
}

/// Chooses the archive entry names for `paths`, in order: each file's name,
/// made unique by a `_2`, `_3`… before its extension. Stops at the first
/// path without a usable file name and gives its index.
pub fn zip_entry_names(paths: &Vec<String>) -> (r: (Vec<String>, Option<usize>))
    ensures
        ({
            let st = entries_scan(paths@.map_values(|s: String| s@));
            &&& r.0@.map_values(|s: String| s@) == st.0
            &&& (r.1 is Some <==> st.1)
            &&& r.1 matches Some(k) ==> k == r.0.len() && k < paths.len()
            &&& r.1 is None ==> r.0.len() == paths.len()
        }),
{
    let ghost pv = paths@.map_values(|s: String| s@);
    let mut used: Vec<String> = Vec::new();
    let mut i: usize = 0;
    while i < paths.len()
        invariant
            i <= paths.len(),
            pv == paths@.map_values(|s: String| s@),
            entries_scan(pv.take(i as int)) == (used@.map_values(|s: String| s@), false),
            used.len() == i,
        decreases paths.len() - i,
    {
        assert(pv.take(i + 1).drop_last() =~= pv.take(i as int));
        assert(pv.take(i + 1).last() == paths@[i as int]@);
        let ghost uv = used@.map_values(|s: String| s@);
        let original = match crate::conversion_engine::path_file_name(paths[i].as_str()) {
            Some(n) => n,
            None => {
                proof {
                    let k = i as int;
                    lemma_scan_stops(pv, k);
                }
                return (used, Some(i));
            },
        };
        let o = str_chars(original.as_str());
        let name: Vec<char> = if !contains_name(&used, &o) {
            o
        } else {
            let mut counter: u128 = 2;
            let mut cand = numbered(&o, counter);
            while contains_name(&used, &cand)
                invariant
                    2 <= counter <= used.len() + 2,
                    uv == used@.map_values(|s: String| s@),
                    cand@ == numbered_name(o@, counter as nat),
                    used.len() == i,
                    i <= paths.len(),
                    forall|d: nat| 2 <= d < counter ==> uv.contains(#[trigger] numbered_name(o@, d)),
                    free_from(o@, uv, 2) == free_from(o@, uv, counter as nat),
                decreases used.len() + 2 - counter,
            {
                proof {
                    assert forall|d: nat| 2 <= d < counter + 1 implies uv.contains(
                        #[trigger] numbered_name(o@, d),
                    ) by {}
                    lemma_taken_bound(o@, uv, (counter + 1) as nat);
                }
                counter = counter + 1;
                cand = numbered(&o, counter);
            }
            cand
        };
        assert(name@ == dedup_name(o@, uv));
        let ghost u0 = used@;
        used.push(chars_to_string(&name));
        assert(used@.map_values(|s: String| s@) =~= u0.map_values(|s: String| s@).push(name@));
        i = i + 1;
    }
    assert(pv.take(paths.len() as int) =~= pv);
    (used, None)
}

proof fn lemma_scan_stops(pv: Seq<Seq<char>>, k: int)
    requires
        0 <= k < pv.len(),
        !entries_scan(pv.take(k)).1,
        file_name_of(pv[k]) is None,
    ensures
        entries_scan(pv) == (entries_scan(pv.take(k)).0, true),
    decreases pv.len() - k,
{
    assert(pv.take(k + 1).drop_last() =~= pv.take(k));
    lemma_scan_stuck(pv, k + 1);
}

proof fn lemma_scan_stuck(pv: Seq<Seq<char>>, j: int)
    requires
        1 <= j <= pv.len(),
        entries_scan(pv.take(j)).1,
    ensures
        entries_scan(pv) == entries_scan(pv.take(j)),
    decreases pv.len() - j,
{
    if j == pv.len() {
        assert(pv.take(j) =~= pv);
    } else {
        assert(pv.take(j + 1).drop_last() =~= pv.take(j));
        lemma_scan_stuck(pv, j + 1);
    }
}

} // verus!
