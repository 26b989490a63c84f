//! The command-line tool's decisions: which option combinations are
//! refused, which data format to read, and how the rendered templates are
//! put together.

use std::path::PathBuf;

use vstd::prelude::*;

use crate::error::Error;
use crate::parser::spec_parse;
use crate::renderer::Transcript;
use crate::text::{chars_of, string_of};
use crate::value::Value;
use crate::{spec_render_template, transcript_fits, Mustache};

verus! {

/// `std::path::PathBuf`, carried through as an opaque value.
#[verifier::external_type_specification]
#[verifier::external_body]
pub struct ExPathBuf(PathBuf);

/// The input data's format.
#[derive(Debug, Clone, Copy, PartialEq, Eq)]
pub enum DataFormat {
    Json,
    Yaml,
}

/// Why the command line was refused.
#[derive(Debug, Clone, PartialEq)]
pub enum CliArgsError {
    /// The argument parser refused the command line; its message.
    Clap(String),
    /// Neither a template file nor `--template-stdin` was given.
    NoTemplateSpecified,
    /// Both template files and `--template-stdin` were given.
    TemplateAndStdinConflict,
    /// `--template-stdin` without `--data`: both would read standard input.
    TemplateStdinAndDataStdinConflict,
    /// `--format` named neither `json` nor `yaml`.
    InvalidFormat { value: String },
}

/// Why the data could not be loaded.
#[derive(Debug, Clone, PartialEq)]
pub enum DataLoaderError {
    /// No `--format` and no `.json`/`.yaml`/`.yml` data file extension.
    UnknownFormat,
    /// The data did not parse in the given format.
    Parse { format: DataFormat, message: String },
}

/// The text of a refused command line.
pub open spec fn cli_args_error_text(e: CliArgsError) -> Seq<char> {
    match e {
        CliArgsError::Clap(message) => message@,
        CliArgsError::NoTemplateSpecified => "no template specified (provide a template file or use --template-stdin)"@,
        CliArgsError::TemplateAndStdinConflict => "cannot specify both a template file and --template-stdin"@,
        CliArgsError::TemplateStdinAndDataStdinConflict => "cannot read both template and data from stdin (specify --data <file>)"@,
        CliArgsError::InvalidFormat { value } => "invalid data format '"@ + value@
            + "' (expected 'json' or 'yaml')"@,
    }
}

impl CliArgsError {
    /// The error's text.
    pub fn to_string(&self) -> (s: String)
        ensures
            s@ == cli_args_error_text(*self),
    {
        match self {
            CliArgsError::Clap(message) => message.clone(),
            CliArgsError::NoTemplateSpecified => string_of(
                "no template specified (provide a template file or use --template-stdin)",
            ),
            CliArgsError::TemplateAndStdinConflict => string_of(
                "cannot specify both a template file and --template-stdin",
            ),
            CliArgsError::TemplateStdinAndDataStdinConflict => string_of(
                "cannot read both template and data from stdin (specify --data <file>)",
            ),
            CliArgsError::InvalidFormat { value } => {
                let mut s = string_of("invalid data format '");
                s.append(value.as_str());
                s.append("' (expected 'json' or 'yaml')");
                s
            },
        }
    }
}

/// The name a data format is reported by.
pub open spec fn format_display_name(f: DataFormat) -> Seq<char> {
    match f {
        DataFormat::Json => "JSON"@,
        DataFormat::Yaml => "YAML"@,
    }
}

/// The text of a data loading error.
pub open spec fn data_loader_error_text(e: DataLoaderError) -> Seq<char> {
    match e {
        DataLoaderError::UnknownFormat => "cannot determine data format (specify --format or use a .json/.yaml/.yml data file)"@,
        DataLoaderError::Parse { format, message } => "failed to parse "@ + format_display_name(format)
            + " data: "@ + message@,
    }
}

impl DataLoaderError {
    /// The error's text.
    pub fn to_string(&self) -> (s: String)
        ensures
            s@ == data_loader_error_text(*self),
    {
        match self {
            DataLoaderError::UnknownFormat => string_of(
                "cannot determine data format (specify --format or use a .json/.yaml/.yml data file)",
            ),
            DataLoaderError::Parse { format, message } => {
                let mut s = string_of("failed to parse ");
                match format {
                    DataFormat::Json => s.append("JSON"),
                    DataFormat::Yaml => s.append("YAML"),
                }
                s.append(" data: ");
                s.append(message.as_str());
                s
            },
        }
    }
}

/// The command line as the argument parser read it.
#[derive(Debug, Clone, PartialEq)]
pub struct RawArgs {
    pub templates: Vec<PathBuf>,
    pub template_stdin: bool,
    pub data: Option<PathBuf>,
    pub output: Option<PathBuf>,
    pub partials_dir: Option<PathBuf>,
    pub strict: bool,
    pub format: Option<String>,
}

/// The checked command line.
#[derive(Debug, Clone, PartialEq)]
pub struct CliArgs {
    pub templates: Vec<PathBuf>,
    pub template_stdin: bool,
    pub data: Option<PathBuf>,
    pub output: Option<PathBuf>,
    pub partials_dir: Option<PathBuf>,
    pub strict: bool,
    pub format: Option<DataFormat>,
}

/// A character's code point after ASCII lower-casing.
pub open spec fn ascii_lower(c: char) -> u32 {
    if 'A' <= c && c <= 'Z' {
        (c as u32 + 32) as u32
    } else {
        c as u32
    }
}

/// `s`, ASCII lower-cased, is `word`.
pub open spec fn lowercases_to(s: Seq<char>, word: Seq<char>) -> bool {
    s.len() == word.len() && forall|i: int| 0 <= i < s.len() ==> ascii_lower(#[trigger] s[i]) == word[i] as u32
}

/// The format a `--format` value names, ignoring ASCII case.
pub open spec fn format_named(value: Seq<char>) -> Option<DataFormat> {
    if lowercases_to(value, seq!['j', 's', 'o', 'n']) {
        Some(DataFormat::Json)
    } else if lowercases_to(value, seq!['y', 'a', 'm', 'l']) || lowercases_to(value, seq!['y', 'm', 'l']) {
        Some(DataFormat::Yaml)
    } else {
        None
    }
}

/// Whether `s`, ASCII lower-cased, is `word`.
fn lowercase_equals(s: &Vec<char>, word: &Vec<char>) -> (b: bool)
    ensures
        b == lowercases_to(s@, word@),
{
    if s.len() != word.len() {
        return false;
    }
    let mut i: usize = 0;
    while i < s.len()
        invariant
            s.len() == word.len(),
            i <= s.len(),
            forall|k: int| 0 <= k < i ==> ascii_lower(#[trigger] s@[k]) == word@[k] as u32,
        decreases s.len() - i,
    {
        let c = s[i];
        let lower: u32 = if 'A' <= c && c <= 'Z' {
            (c as u32) + 32
        } else {
            c as u32
        };
        if lower != (word[i] as u32) {
            return false;
        }
        i = i + 1;
    }
    true
}

fn word(a: char, b: char, c: char, d: Option<char>) -> (w: Vec<char>)
    ensures
        w@ == match d {
            Some(x) => seq![a, b, c, x],
            None => seq![a, b, c],
        },
{
    let mut w: Vec<char> = Vec::new();
    w.push(a);
    w.push(b);
    w.push(c);
    match d {
        Some(x) => w.push(x),
        None => {},
    }
    assert(w@ =~= match d {
        Some(x) => seq![a, b, c, x],
        None => seq![a, b, c],
    });
    w
}

/// Reads a `--format` value: `json`, or `yaml` / `yml`, in any ASCII case.
pub fn parse_format(value: &str) -> (r: Result<DataFormat, CliArgsError>)
    ensures
        match format_named(value@) {
            Some(f) => r == Ok::<DataFormat, CliArgsError>(f),
            None => r matches Err(CliArgsError::InvalidFormat { value: v }) && v@ == value@,
        },
{
    let cs = chars_of(value);
    if lowercase_equals(&cs, &word('j', 's', 'o', Some('n'))) {
        Ok(DataFormat::Json)
    } else if lowercase_equals(&cs, &word('y', 'a', 'm', Some('l'))) || lowercase_equals(
        &cs,
        &word('y', 'm', 'l', None),
    ) {
        Ok(DataFormat::Yaml)
    } else {
        Err(CliArgsError::InvalidFormat { value: string_of(value) })
    }
}

/// The refusal, if any, of a command line with these template and data
/// sources, in the order the checks are made.
pub open spec fn source_conflict(has_templates: bool, template_stdin: bool, has_data: bool) -> Option<CliArgsError> {
    if template_stdin && has_templates {
        Some(CliArgsError::TemplateAndStdinConflict)
    } else if !template_stdin && !has_templates {
        Some(CliArgsError::NoTemplateSpecified)
    } else if template_stdin && !has_data {
        Some(CliArgsError::TemplateStdinAndDataStdinConflict)
    } else {
        None
    }
}

/// Checks the command line: templates come either from files or from
/// standard input, standard input cannot feed both template and data, and
/// `--format` must name a known format.
pub fn parse_args(raw: RawArgs) -> (r: Result<CliArgs, CliArgsError>)
    ensures
        match source_conflict(raw.templates@.len() > 0, raw.template_stdin, raw.data is Some) {
            Some(e) => r == Err::<CliArgs, CliArgsError>(e),
            None => match raw.format {
                None => r matches Ok(a) && a.format is None,
                Some(value) => match format_named(value@) {
                    Some(f) => r matches Ok(a) && a.format == Some(f),
                    None => r matches Err(CliArgsError::InvalidFormat { value: v }) && v@ == value@,
                },
            },
        },
        r matches Ok(a) ==> {
            &&& a.templates == raw.templates
            &&& a.template_stdin == raw.template_stdin
            &&& a.data == raw.data
            &&& a.output == raw.output
            &&& a.partials_dir == raw.partials_dir
            &&& a.strict == raw.strict
        },
{
    let has_templates = raw.templates.len() > 0;
    if raw.template_stdin && has_templates {
        return Err(CliArgsError::TemplateAndStdinConflict);
    }
    if !raw.template_stdin && !has_templates {
        return Err(CliArgsError::NoTemplateSpecified);
    }
    if raw.template_stdin && raw.data.is_none() {
        return Err(CliArgsError::TemplateStdinAndDataStdinConflict);
    }
    let format = match &raw.format {
        None => None,
        Some(value) => match parse_format(value.as_str()) {
            Ok(f) => Some(f),
            Err(e) => {
                return Err(e);
            },
        },
    };
    Ok(
        CliArgs {
            templates: raw.templates,
            template_stdin: raw.template_stdin,
            data: raw.data,
            output: raw.output,
            partials_dir: raw.partials_dir,
            strict: raw.strict,
            format,
        },
    )
}

/// The format named by a data file extension, ignoring ASCII case.
pub open spec fn format_of_extension(ext: Seq<char>) -> Option<DataFormat> {
    if lowercases_to(ext, seq!['j', 's', 'o', 'n']) {
        Some(DataFormat::Json)
    } else if lowercases_to(ext, seq!['y', 'a', 'm', 'l']) || lowercases_to(ext, seq!['y', 'm', 'l']) {
        Some(DataFormat::Yaml)
    } else {
        None
    }
}

/// Where a template was read from.
#[derive(Debug, PartialEq)]
pub enum TemplateSource {
    /// A template file.
    File(PathBuf),
    /// Standard input.
    Stdin,
}

/// Where the partials of a template are looked up.
#[derive(Debug, PartialEq)]
pub enum PartialsDir<'a> {
    /// The directory given with `--partials-dir`.
    Given(&'a PathBuf),
    /// The directory that holds this template file.
    ParentOf(&'a PathBuf),
    /// The working directory (for a template read from standard input).
    WorkingDir,
}

/// Chooses the partials directory for a template: `--partials-dir` when
/// given, else the template file's own directory, else (for standard
/// input) the working directory.
pub fn partials_dir_for<'a>(args: &'a CliArgs, source: &'a TemplateSource) -> (r: PartialsDir<'a>)
    ensures
        match args.partials_dir {
            Some(dir) => r == PartialsDir::Given(&dir),
            None => match *source {
                TemplateSource::File(path) => r == PartialsDir::ParentOf(&path),
                TemplateSource::Stdin => r == PartialsDir::WorkingDir,
            },
        },
{
    match &args.partials_dir {
        Some(dir) => PartialsDir::Given(dir),
        None => match source {
            TemplateSource::File(path) => PartialsDir::ParentOf(path),
            TemplateSource::Stdin => PartialsDir::WorkingDir,
        },
    }
}

/// The extension of a path's last component, as `Path::extension` finds it
/// on this platform, when it has one that is valid Unicode.
pub uninterp spec fn spec_path_extension(path: PathBuf) -> Option<Seq<char>>;

/// The extension of a path's last component, when it has one that is
/// valid Unicode: std's `Path::extension`, with the `OsStr` it gives read as
/// a `str`. The result depends on the path alone (under the platform's
/// path rules), and is named `spec_path_extension`.
#[verifier::external_body]
fn path_extension(path: &PathBuf) -> (r: Option<String>)
    ensures
        match r {
            Some(s) => spec_path_extension(*path) == Some(s@),
            None => spec_path_extension(*path) is None,
        },
{
    match path.extension() {
        Some(ext) => match ext.to_str() {
            Some(text) => Some(text.to_string()),
            None => None,
        },
        None => None,
    }
}

/// The format a data file's extension selects (`json`, `yaml`, `yml`, in
/// any ASCII case), or why none is selected.
pub open spec fn format_for_extension(ext: Option<Seq<char>>) -> Result<DataFormat, DataLoaderError> {
    match ext {
        Some(e) => match format_of_extension(e) {
            Some(f) => Ok(f),
            None => Err(DataLoaderError::UnknownFormat),
        },
        None => Err(DataLoaderError::UnknownFormat),
    }
}

/// The data format: the explicit `--format` first, else the extension of
/// the data file, if there is one.
pub fn detect_format(explicit_format: Option<DataFormat>, data_path: Option<&PathBuf>) -> (r: Result<
    DataFormat,
    DataLoaderError,
>)
    ensures
        r == match explicit_format {
            Some(f) => Ok(f),
            None => match data_path {
                Some(p) => format_for_extension(spec_path_extension(*p)),
                None => Err(DataLoaderError::UnknownFormat),
            },
        },
{
    if let Some(format) = explicit_format {
        return Ok(format);
    }
    match data_path {
        None => Err(DataLoaderError::UnknownFormat),
        Some(path) => {
            let ext = path_extension(path);
            match ext {
                Some(text) => format_from_extension(None, Some(text.as_str())),
                None => format_from_extension(None, None),
            }
        },
    }
}

/// The data format given the extension of the data file: the explicit
/// `--format` first, else the extension (`json`, `yaml`, `yml`, in any
/// ASCII case).
pub fn format_from_extension(explicit_format: Option<DataFormat>, extension: Option<&str>) -> (r: Result<
    DataFormat,
    DataLoaderError,
>)
    ensures
        match explicit_format {
            Some(f) => r == Ok::<DataFormat, DataLoaderError>(f),
            None => match extension {
                Some(ext) => match format_of_extension(ext@) {
                    Some(f) => r == Ok::<DataFormat, DataLoaderError>(f),
                    None => r == Err::<DataFormat, DataLoaderError>(DataLoaderError::UnknownFormat),
                },
                None => r == Err::<DataFormat, DataLoaderError>(DataLoaderError::UnknownFormat),
            },
        },
{
    if let Some(format) = explicit_format {
        return Ok(format);
    }
    match extension {
        None => Err(DataLoaderError::UnknownFormat),
        Some(ext) => {
            let cs = chars_of(ext);
            if lowercase_equals(&cs, &word('j', 's', 'o', Some('n'))) {
                Ok(DataFormat::Json)
            } else if lowercase_equals(&cs, &word('y', 'a', 'm', Some('l'))) || lowercase_equals(
                &cs,
                &word('y', 'm', 'l', None),
            ) {
                Ok(DataFormat::Yaml)
            } else {
                Err(DataLoaderError::UnknownFormat)
            }
        },
    }
}

/// `out` is an output that engine `m` can give for `src` against `data`:
/// the model's rendering for a transcript that fits it (with no resolver,
/// the one with no replies).
pub open spec fn possible_output(m: Mustache, src: Seq<char>, data: Value, out: Seq<char>) -> bool {
    match spec_parse(src) {
        Err(_) => false,
        Ok(nodes) => {
            &&& exists|t: Transcript|
                transcript_fits(nodes, data, m.env(), m.resolver(), t) && #[trigger] spec_render_template(
                    nodes,
                    data,
                    m.env(),
                    t.0,
                ) == Ok::<Seq<char>, crate::error::SpecRenderError>(out)
            &&& !m.has_resolver() ==> spec_render_template(nodes, data, m.env(), Seq::empty()) == Ok::<
                Seq<char>,
                crate::error::SpecRenderError,
            >(out)
        },
    }
}

/// `e` is an error that engine `m` can give for `src` against `data`: the
/// parse error, or a rendering error as for `possible_output`.
pub open spec fn possible_error(m: Mustache, src: Seq<char>, data: Value, e: Error) -> bool {
    match spec_parse(src) {
        Err(pe) => e matches Error::Parse(p) && p.view() == pe,
        Ok(nodes) => e matches Error::Render(re) && {
            &&& exists|t: Transcript|
                transcript_fits(nodes, data, m.env(), m.resolver(), t) && #[trigger] spec_render_template(
                    nodes,
                    data,
                    m.env(),
                    t.0,
                ) == Err::<Seq<char>, crate::error::SpecRenderError>(re.view())
            &&& !m.has_resolver() ==> spec_render_template(nodes, data, m.env(), Seq::empty()) == Err::<
                Seq<char>,
                crate::error::SpecRenderError,
            >(re.view())
        },
    }
}

/// The first `n` jobs render to `outs`, one output each.
pub open spec fn renders_to(jobs: Seq<(Mustache, String)>, data: Value, outs: Seq<Seq<char>>, n: int) -> bool {
    &&& outs.len() == n
    &&& forall|i: int|
        0 <= i < n ==> possible_output(jobs[i].0, jobs[i].1@, data, #[trigger] outs[i])
}

/// Renders each template with its own engine, in the given order, and
/// joins the outputs; the first template that fails stops the run with its
/// error, and nothing of the earlier outputs is returned.
pub fn render_templates(jobs: &Vec<(Mustache, String)>, data: &Value) -> (r: Result<String, Error>)
    ensures
        match r {
            Ok(out) => exists|outs: Seq<Seq<char>>|
                renders_to(jobs@, *data, outs, jobs@.len() as int) && out@ == #[trigger] outs.flatten(),
            Err(e) => exists|i: int, outs: Seq<Seq<char>>|
                0 <= i < jobs@.len() && #[trigger] renders_to(jobs@, *data, outs, i) && possible_error(
                    jobs@[i].0,
                    jobs@[i].1@,
                    *data,
                    e,
                ),
        },
{
    let mut out = String::new();
    let ghost mut outs: Seq<Seq<char>> = Seq::empty();
    let mut i: usize = 0;
    while i < jobs.len()
        invariant
            i <= jobs@.len(),
            renders_to(jobs@, *data, outs, i as int),
            out@ == outs.flatten_alt(),
        decreases jobs.len() - i,
    {
        let (mustache, template) = &jobs[i];
        match mustache.render_str(template.as_str(), data) {
            Ok(rendered) => {
                proof {
                    let o = rendered@;
                    let new_outs = outs.push(o);
                    assert(new_outs.drop_last() =~= outs);
                    assert forall|j: int| 0 <= j < i + 1 implies possible_output(
                        jobs@[j].0,
                        jobs@[j].1@,
                        *data,
                        #[trigger] new_outs[j],
                    ) by {
                        if j < i {
                            assert(new_outs[j] == outs[j]);
                        }
                    }
                    outs = new_outs;
                }
                out.append(rendered.as_str());
            },
            Err(e) => {
                return Err(e);
            },
        }
        i = i + 1;
    }
    proof {
        outs.lemma_flatten_and_flatten_alt_are_equivalent();
    }
    Ok(out)
}

} // verus!
