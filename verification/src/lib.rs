//! Rendering of a tabular dataset — an ordered sequence of rows mapping
//! field names to text values — into one of several output formats: plain
//! structural encoders (JSON, XML, CSV, plain text, a base64-wrapped binary
//! form) and a micro-template engine for the HTML and Markdown formats.
//!
//! The template engine scans `{{ variable }}` and `{% statement %}`
//! directives, evaluates loops and conditionals with a stack of buffer
//! offsets, and splices in referenced template files with a guard set that
//! stops recursive inclusion.  Template text is supplied through a
//! [`strmap::StrMap`] from path to content, so the engine itself performs
//! no I/O; a caller reads files and retries when the engine reports a path
//! it has not loaded yet.
pub mod binary;
pub mod encode;
pub mod eval;
pub mod laws;
pub mod strmap;
pub mod text;
pub mod token;

use vstd::prelude::*;

use crate::binary::{b64_len_ok, b64_of, bin_of};
use crate::encode::{csv_of, dataset_view, json_of, plain_of, xml_of};
use crate::eval::{EvalOut, RowV, render_spec, render_template};
use crate::strmap::{StrMap, lookup};
use crate::text::{chars_of_str, lower_chars, lower_seq, vec_chars_eq};

verus! {

/// A failure while building a renderer or rendering a dataset.
#[derive(Debug)]
pub enum RenderError {
    /// The requested format name is not one of the supported formats;
    /// carries the caller's original text, casing preserved.
    UnknownFormat(String),
    /// A template file is not available; carries the path.
    FileError(String),
    /// Encoding the dataset failed; carries a description.
    SerializationError(String),
}

/// The supported output formats.
#[derive(Debug, Clone, PartialEq, Eq, Structural)]
pub enum RenderFormat {
    Html,
    Json,
    Xml,
    Csv,
    PlainText,
    Markdown,
    Protobuf,
}

/// The format a name resolves to, after ASCII lower-casing: `html`,
/// `json`, `xml`, `csv`, `text`/`plain`, `markdown`/`md` and
/// `protobuf`/`proto`; anything else resolves to nothing.
pub open spec fn parse_format_spec(s: Seq<char>) -> Option<RenderFormat> {
    let l = lower_seq(s);
    if l == "html"@ {
        Some(RenderFormat::Html)
    } else if l == "json"@ {
        Some(RenderFormat::Json)
    } else if l == "xml"@ {
        Some(RenderFormat::Xml)
    } else if l == "csv"@ {
        Some(RenderFormat::Csv)
    } else if l == "text"@ || l == "plain"@ {
        Some(RenderFormat::PlainText)
    } else if l == "markdown"@ || l == "md"@ {
        Some(RenderFormat::Markdown)
    } else if l == "protobuf"@ || l == "proto"@ {
        Some(RenderFormat::Protobuf)
    } else {
        None
    }
}

impl RenderFormat {
    /// Resolve a case-insensitive format name, or fail with
    /// `UnknownFormat` carrying the caller's original text.
    pub fn from_str(s: &str) -> (r: Result<RenderFormat, RenderError>)
        ensures
            match r {
                Ok(f) => parse_format_spec(s@) == Some(f),
                Err(e) => parse_format_spec(s@) is None && (e matches
                    RenderError::UnknownFormat(orig) && orig@ == s@),
            },
    {
        let raw = chars_of_str(s);
        let l = lower_chars(&raw);
        if vec_chars_eq(&l, &chars_of_str("html")) {
            Ok(RenderFormat::Html)
        } else if vec_chars_eq(&l, &chars_of_str("json")) {
            Ok(RenderFormat::Json)
        } else if vec_chars_eq(&l, &chars_of_str("xml")) {
            Ok(RenderFormat::Xml)
        } else if vec_chars_eq(&l, &chars_of_str("csv")) {
            Ok(RenderFormat::Csv)
        } else if vec_chars_eq(&l, &chars_of_str("text")) || vec_chars_eq(
            &l,
            &chars_of_str("plain"),
        ) {
            Ok(RenderFormat::PlainText)
        } else if vec_chars_eq(&l, &chars_of_str("markdown")) || vec_chars_eq(
            &l,
            &chars_of_str("md"),
        ) {
            Ok(RenderFormat::Markdown)
        } else if vec_chars_eq(&l, &chars_of_str("protobuf")) || vec_chars_eq(
            &l,
            &chars_of_str("proto"),
        ) {
            Ok(RenderFormat::Protobuf)
        } else {
            Err(RenderError::UnknownFormat(s.to_owned()))
        }
    }
}

impl core::str::FromStr for RenderFormat {
    type Err = RenderError;

    fn from_str(s: &str) -> Result<RenderFormat, RenderError> {
        RenderFormat::from_str(s)
    }
}

/// A renderer: a resolved format together with an optional caller-chosen
/// template path.
pub struct YuaiRender {
    pub format: RenderFormat,
    pub template: Option<String>,
}

/// What a render call produces: the rendered text, or — a declared but
/// never produced shape kept for callers matching both arms — the raw
/// dataset.
pub enum RenderOutput {
    Rendered(String),
    Raw(Option<Vec<StrMap>>),
}

impl YuaiRender {
    /// Build a renderer from a format name and an optional template path.
    pub fn new(format: &str, template: Option<&str>) -> (r: Result<YuaiRender, RenderError>)
        ensures
            match r {
                Ok(y) => parse_format_spec(format@) == Some(y.format) && (match (template,
                    y.template) {
                    (Some(t), Some(p)) => p@ == t@,
                    (None, None) => true,
                    _ => false,
                }),
                Err(e) => parse_format_spec(format@) is None && (e matches
                    RenderError::UnknownFormat(orig) && orig@ == format@),
            },
    {
        let render_format = match RenderFormat::from_str(format) {
            Ok(f) => f,
            Err(e) => {
                return Err(e);
            },
        };
        let template_path = match template {
            Some(t) => Some(t.to_owned()),
            None => None,
        };
        Ok(YuaiRender { format: render_format, template: template_path })
    }

    /// The caller-chosen template path, if one was given.
    pub open spec fn template_view(&self) -> Option<Seq<char>> {
        match self.template {
            Some(p) => Some(p@),
            None => None,
        }
    }

    /// Render the dataset in this renderer's format.
    ///
    /// The template formats draw template text from `files`, a mapping
    /// from path to content; the other formats ignore it.  An absent
    /// dataset is rendered by the template formats like an empty one.
    pub fn render(&self, data: Option<Vec<StrMap>>, files: &StrMap) -> (r: Result<
        RenderOutput,
        RenderError,
    >)
        ensures
            self.format is Json ==> (r matches Ok(RenderOutput::Rendered(s)) && s@ == json_of(
                dataset_view(data),
            )),
            self.format is Xml ==> (r matches Ok(RenderOutput::Rendered(s)) && s@ == xml_of(
                dataset_view(data),
            )),
            self.format is Csv ==> (r matches Ok(RenderOutput::Rendered(s)) && s@ == csv_of(
                dataset_view(data),
            )),
            self.format is PlainText ==> (r matches Ok(RenderOutput::Rendered(s)) && s@
                == plain_of(dataset_view(data))),
            self.format is Protobuf ==> (match r {
                Ok(RenderOutput::Rendered(s)) => b64_len_ok(bin_of(dataset_view(data)).len() as int)
                    && s@ == b64_of(bin_of(dataset_view(data))),
                Ok(RenderOutput::Raw(_)) => false,
                Err(e) => !b64_len_ok(bin_of(dataset_view(data)).len() as int)
                    && e is SerializationError,
            }),
            self.format is Html ==> template_outcome(
                chosen_path(self.template_view(), "templates/default.html"@),
                dataset_view(data),
                files@,
                r,
            ),
            self.format is Markdown ==> template_outcome(
                chosen_path(self.template_view(), "templates/default.md"@),
                dataset_view(data),
                files@,
                r,
            ),
    {
        match &self.format {
            RenderFormat::Html => self.render_tpl(data, files, "templates/default.html"),
            RenderFormat::Markdown => self.render_tpl(data, files, "templates/default.md"),
            RenderFormat::Json => Ok(RenderOutput::Rendered(crate::encode::json_encode(&data))),
            RenderFormat::Xml => Ok(RenderOutput::Rendered(crate::encode::xml_encode(&data))),
            RenderFormat::Csv => Ok(RenderOutput::Rendered(crate::encode::csv_encode(&data))),
            RenderFormat::PlainText => Ok(
                RenderOutput::Rendered(crate::encode::plain_encode(&data)),
            ),
            RenderFormat::Protobuf => match crate::binary::protobuf_encode(&data) {
                Ok(s) => Ok(RenderOutput::Rendered(s)),
                Err(e) => Err(e),
            },
        }
    }

    /// Load the template stored under the chosen path and run the
    /// template pipeline on it.
    fn render_tpl(&self, data: Option<Vec<StrMap>>, files: &StrMap, default_path: &str) -> (r:
        Result<RenderOutput, RenderError>)
        ensures
            template_outcome(
                chosen_path(self.template_view(), default_path@),
                dataset_view(data),
                files@,
                r,
            ),
    {
        let path: String = match &self.template {
            Some(p) => p.clone(),
            None => default_path.to_owned(),
        };
        match files.get(path.as_str()) {
            None => Err(RenderError::FileError(path)),
            Some(content) => {
                let rows: Vec<StrMap> = match data {
                    Some(v) => v,
                    None => Vec::new(),
                };
                proof {
                    assert(rows.deep_view() =~= rows_or_empty(dataset_view(data)));
                }
                match render_template(content.as_str(), &rows, files) {
                    Ok(s) => Ok(RenderOutput::Rendered(s)),
                    Err(e) => Err(e),
                }
            },
        }
    }
}

/// The template path a renderer uses: the caller's, or the format's
/// default.
pub open spec fn chosen_path(template: Option<Seq<char>>, default: Seq<char>) -> Seq<char> {
    match template {
        Some(p) => p,
        None => default,
    }
}

/// The rows a template sees: an absent dataset acts as an empty one.
pub open spec fn rows_or_empty(dv: Option<Seq<RowV>>) -> Seq<RowV> {
    match dv {
        Some(rows) => rows,
        None => Seq::empty(),
    }
}

/// What rendering a template format must produce: the text of the
/// pipeline run on the stored template, or a file error naming the
/// missing path — the chosen template's or a spliced one's.
pub open spec fn template_outcome(
    path: Seq<char>,
    dv: Option<Seq<RowV>>,
    files: RowV,
    r: Result<RenderOutput, RenderError>,
) -> bool {
    match lookup(files, path) {
        None => r matches Err(RenderError::FileError(p)) && p@ == path,
        Some(text) => match render_spec(text, rows_or_empty(dv), files) {
            EvalOut::Done(o, _) => r matches Ok(RenderOutput::Rendered(s)) && s@ == o,
            EvalOut::MissingFile(mp) => r matches Err(RenderError::FileError(p)) && p@ == mp,
        },
    }
}

} // verus!
