use std::collections::HashMap;
use std::path::PathBuf;

use mustache_processor::cli::{
    partials_dir_for, PartialsDir, TemplateSource,
    detect_format, format_from_extension, parse_args, parse_format, render_templates, CliArgsError,
    DataFormat, DataLoaderError, RawArgs,
};
use mustache_processor::error::Error;
use mustache_processor::partial::{partial_file_name, PartialResolver};
use mustache_processor::value::{Value, ValueMap};
use mustache_processor::Mustache;

fn raw(templates: &[&str]) -> RawArgs {
    RawArgs {
        templates: templates.iter().map(PathBuf::from).collect(),
        template_stdin: false,
        data: None,
        output: None,
        partials_dir: None,
        strict: false,
        format: None,
    }
}

#[test]
fn single_template_defaults() {
    let args = parse_args(raw(&["template.tmpl"])).unwrap();
    assert_eq!(args.templates, vec![PathBuf::from("template.tmpl")]);
    assert!(!args.template_stdin);
    assert_eq!(args.data, None);
    assert_eq!(args.output, None);
    assert_eq!(args.partials_dir, None);
    assert!(!args.strict);
    assert_eq!(args.format, None);
}

#[test]
fn multiple_templates_in_order() {
    let args = parse_args(raw(&["a.tmpl", "b.tmpl", "c.tmpl"])).unwrap();
    assert_eq!(
        args.templates,
        vec![
            PathBuf::from("a.tmpl"),
            PathBuf::from("b.tmpl"),
            PathBuf::from("c.tmpl"),
        ]
    );
}

#[test]
fn no_template_specified_errors() {
    let err = parse_args(raw(&[])).unwrap_err();
    assert_eq!(err, CliArgsError::NoTemplateSpecified);
}

#[test]
fn template_and_stdin_conflict_errors() {
    let mut r = raw(&["template.tmpl"]);
    r.template_stdin = true;
    let err = parse_args(r).unwrap_err();
    assert_eq!(err, CliArgsError::TemplateAndStdinConflict);
}

#[test]
fn template_stdin_without_data_errors() {
    let mut r = raw(&[]);
    r.template_stdin = true;
    let err = parse_args(r).unwrap_err();
    assert_eq!(err, CliArgsError::TemplateStdinAndDataStdinConflict);
}

#[test]
fn template_stdin_with_data_ok() {
    let mut r = raw(&[]);
    r.template_stdin = true;
    r.data = Some(PathBuf::from("data.json"));
    let args = parse_args(r).unwrap();
    assert!(args.template_stdin);
    assert!(args.templates.is_empty());
    assert_eq!(args.data, Some(PathBuf::from("data.json")));
}

#[test]
fn format_json_and_yaml_parsed_case_insensitively() {
    let mut r = raw(&["t.tmpl"]);
    r.format = Some("JSON".to_string());
    let args = parse_args(r).unwrap();
    assert_eq!(args.format, Some(DataFormat::Json));

    let mut r = raw(&["t.tmpl"]);
    r.format = Some("yaml".to_string());
    let args = parse_args(r).unwrap();
    assert_eq!(args.format, Some(DataFormat::Yaml));
}

#[test]
fn invalid_format_errors() {
    let mut r = raw(&["t.tmpl"]);
    r.format = Some("toml".to_string());
    let err = parse_args(r).unwrap_err();
    assert_eq!(
        err,
        CliArgsError::InvalidFormat {
            value: "toml".to_string()
        }
    );
}

#[test]
fn strict_and_output_and_partials_dir() {
    let mut r = raw(&["t.tmpl"]);
    r.strict = true;
    r.output = Some(PathBuf::from("out.txt"));
    r.partials_dir = Some(PathBuf::from("partials"));
    let args = parse_args(r).unwrap();
    assert!(args.strict);
    assert_eq!(args.output, Some(PathBuf::from("out.txt")));
    assert_eq!(args.partials_dir, Some(PathBuf::from("partials")));
}

#[test]
fn template_and_stdin_conflict_is_checked_before_data() {
    let mut r = raw(&["t.tmpl"]);
    r.template_stdin = true;
    r.format = Some("toml".to_string());
    assert_eq!(parse_args(r).unwrap_err(), CliArgsError::TemplateAndStdinConflict);
}

#[test]
fn parse_format_accepts_yml_in_any_case() {
    assert_eq!(parse_format("yml"), Ok(DataFormat::Yaml));
    assert_eq!(parse_format("YmL"), Ok(DataFormat::Yaml));
    assert_eq!(parse_format("Json"), Ok(DataFormat::Json));
    assert_eq!(
        parse_format("jsonx"),
        Err(CliArgsError::InvalidFormat {
            value: "jsonx".to_string()
        })
    );
    assert_eq!(
        parse_format(""),
        Err(CliArgsError::InvalidFormat {
            value: String::new()
        })
    );
}

#[test]
fn detect_format_prefers_explicit_over_extension() {
    let result = detect_format(Some(DataFormat::Yaml), Some(&PathBuf::from("data.json")));
    assert_eq!(result, Ok(DataFormat::Yaml));
}

#[test]
fn detect_format_falls_back_to_extension() {
    assert_eq!(
        detect_format(None, Some(&PathBuf::from("data.json"))),
        Ok(DataFormat::Json)
    );
    assert_eq!(
        detect_format(None, Some(&PathBuf::from("data.yaml"))),
        Ok(DataFormat::Yaml)
    );
    assert_eq!(
        detect_format(None, Some(&PathBuf::from("data.yml"))),
        Ok(DataFormat::Yaml)
    );
}

#[test]
fn detect_format_unknown_without_format_or_extension() {
    assert_eq!(detect_format(None, None), Err(DataLoaderError::UnknownFormat));
    assert_eq!(
        detect_format(None, Some(&PathBuf::from("data.txt"))),
        Err(DataLoaderError::UnknownFormat)
    );
}

#[test]
fn detect_format_reads_the_extension_of_the_last_component() {
    assert_eq!(
        detect_format(None, Some(&PathBuf::from("dir.json/data"))),
        Err(DataLoaderError::UnknownFormat)
    );
    assert_eq!(
        detect_format(None, Some(&PathBuf::from("dir/DATA.YAML"))),
        Ok(DataFormat::Yaml)
    );
}

#[test]
fn format_from_extension_ignores_ascii_case() {
    assert_eq!(format_from_extension(None, Some("JsOn")), Ok(DataFormat::Json));
    assert_eq!(format_from_extension(None, Some("YML")), Ok(DataFormat::Yaml));
    assert_eq!(
        format_from_extension(None, Some("yamll")),
        Err(DataLoaderError::UnknownFormat)
    );
    assert_eq!(
        format_from_extension(Some(DataFormat::Json), Some("yaml")),
        Ok(DataFormat::Json)
    );
    assert_eq!(format_from_extension(None, None), Err(DataLoaderError::UnknownFormat));
}

#[test]
fn cli_args_error_texts() {
    assert_eq!(
        CliArgsError::NoTemplateSpecified.to_string(),
        "no template specified (provide a template file or use --template-stdin)"
    );
    assert_eq!(
        CliArgsError::TemplateAndStdinConflict.to_string(),
        "cannot specify both a template file and --template-stdin"
    );
    assert_eq!(
        CliArgsError::TemplateStdinAndDataStdinConflict.to_string(),
        "cannot read both template and data from stdin (specify --data <file>)"
    );
    assert_eq!(
        CliArgsError::InvalidFormat {
            value: "toml".to_string()
        }
        .to_string(),
        "invalid data format 'toml' (expected 'json' or 'yaml')"
    );
    assert_eq!(CliArgsError::Clap("bad flag".to_string()).to_string(), "bad flag");
}

#[test]
fn data_loader_error_texts() {
    assert_eq!(
        DataLoaderError::UnknownFormat.to_string(),
        "cannot determine data format (specify --format or use a .json/.yaml/.yml data file)"
    );
    assert_eq!(
        DataLoaderError::Parse {
            format: DataFormat::Json,
            message: "eof".to_string()
        }
        .to_string(),
        "failed to parse JSON data: eof"
    );
    assert_eq!(
        DataLoaderError::Parse {
            format: DataFormat::Yaml,
            message: "bad".to_string()
        }
        .to_string(),
        "failed to parse YAML data: bad"
    );
}

struct MapResolver(HashMap<&'static str, &'static str>);
impl PartialResolver for MapResolver {
    fn resolve(&self, name: &str) -> Option<String> {
        self.0.get(name).map(|s| s.to_string())
    }
}

fn data_a1_b2() -> Value {
    let mut map = ValueMap::new();
    map.insert("a", Value::Integer(1));
    map.insert("b", Value::Integer(2));
    Value::Object(map)
}

#[test]
fn render_templates_concatenates_in_order() {
    let jobs = vec![
        (Mustache::new(), "A={{a}}".to_string()),
        (Mustache::new(), ";B={{b}}".to_string()),
    ];
    assert_eq!(render_templates(&jobs, &data_a1_b2()).unwrap(), "A=1;B=2");
}

#[test]
fn render_templates_uses_each_engine() {
    let mut from_a = HashMap::new();
    from_a.insert("p", "from-a");
    let mut from_b = HashMap::new();
    from_b.insert("p", "from-b");
    let jobs = vec![
        (
            Mustache::new().with_partial_resolver(Box::new(MapResolver(from_a))),
            "{{> p}}".to_string(),
        ),
        (
            Mustache::new().with_partial_resolver(Box::new(MapResolver(from_b))),
            "{{> p}}".to_string(),
        ),
    ];
    assert_eq!(
        render_templates(&jobs, &Value::Object(ValueMap::new())).unwrap(),
        "from-afrom-b"
    );
}

#[test]
fn render_templates_stops_at_the_first_error() {
    let jobs = vec![
        (Mustache::new(), "OK-A".to_string()),
        (Mustache::new(), "{{#unbalanced".to_string()),
        (Mustache::new().with_strict(true), "{{missing}}".to_string()),
    ];
    let err = render_templates(&jobs, &Value::Object(ValueMap::new())).unwrap_err();
    assert!(matches!(err, Error::Parse(_)));

    let jobs = vec![
        (Mustache::new(), "OK-A".to_string()),
        (Mustache::new().with_strict(true), "{{missing}}".to_string()),
    ];
    let err = render_templates(&jobs, &Value::Object(ValueMap::new())).unwrap_err();
    assert!(matches!(err, Error::Render(_)));
}

#[test]
fn render_templates_of_nothing_is_empty() {
    let jobs: Vec<(Mustache, String)> = Vec::new();
    assert_eq!(render_templates(&jobs, &Value::Null).unwrap(), "");
}

#[test]
fn partial_file_name_appends_extension() {
    assert_eq!(partial_file_name("greeting"), "greeting.mustache");
    assert_eq!(partial_file_name(""), ".mustache");
    assert_eq!(partial_file_name("a.b"), "a.b.mustache");
}

fn base_args() -> mustache_processor::cli::CliArgs {
    parse_args(raw(&["t.tmpl"])).unwrap()
}

#[test]
fn resolve_partials_dir_explicit_overrides_all() {
    let mut args = base_args();
    args.partials_dir = Some(PathBuf::from("/explicit"));
    let explicit = PathBuf::from("/explicit");

    let file = TemplateSource::File(PathBuf::from("/a/b.tmpl"));
    assert_eq!(partials_dir_for(&args, &file), PartialsDir::Given(&explicit));
    assert_eq!(partials_dir_for(&args, &TemplateSource::Stdin), PartialsDir::Given(&explicit));
}

#[test]
fn resolve_partials_dir_defaults_to_template_file_directory() {
    let args = base_args();
    let file = TemplateSource::File(PathBuf::from("/a/b/template.tmpl"));
    match partials_dir_for(&args, &file) {
        PartialsDir::ParentOf(path) => {
            assert_eq!(path.parent().unwrap(), PathBuf::from("/a/b").as_path());
        }
        other => panic!("expected the template's directory, got {other:?}"),
    }
    assert_eq!(partials_dir_for(&args, &TemplateSource::Stdin), PartialsDir::WorkingDir);
}
