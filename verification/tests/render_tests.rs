use yuairender::RenderError;
use yuairender::RenderFormat;
use yuairender::RenderOutput;
use yuairender::YuaiRender;
use yuairender::strmap::StrMap;

fn row(pairs: &[(&str, &str)]) -> StrMap {
    let mut m = StrMap::new();
    for (k, v) in pairs {
        m.set((*k).to_string(), (*v).to_string());
    }
    m
}

fn rendered(r: Result<RenderOutput, RenderError>) -> String {
    match r {
        Ok(RenderOutput::Rendered(s)) => s,
        Ok(RenderOutput::Raw(_)) => panic!("raw output is never produced"),
        Err(e) => panic!("unexpected render failure: {:?}", e),
    }
}

fn render_tpl(template: &str, rows: Vec<StrMap>) -> String {
    let mut files = StrMap::new();
    files.set("t.html".to_string(), template.to_string());
    let r = YuaiRender::new("html", Some("t.html")).unwrap();
    rendered(r.render(Some(rows), &files))
}

#[test]
fn unknown_format_keeps_original_text() {
    match YuaiRender::new("yaml", None) {
        Err(RenderError::UnknownFormat(name)) => assert_eq!(name, "yaml"),
        _ => panic!("expected an unknown-format failure"),
    }
}

#[test]
fn format_names_are_case_insensitive() {
    assert!(matches!(RenderFormat::from_str("HTML"), Ok(RenderFormat::Html)));
    assert!(matches!(RenderFormat::from_str("Md"), Ok(RenderFormat::Markdown)));
    assert!(matches!(RenderFormat::from_str("PROTO"), Ok(RenderFormat::Protobuf)));
    assert!(matches!(RenderFormat::from_str("plain"), Ok(RenderFormat::PlainText)));
    assert!(matches!(RenderFormat::from_str("tExT"), Ok(RenderFormat::PlainText)));
}

#[test]
fn variable_reads_only_first_row() {
    let rows = vec![row(&[("name", "Jack")]), row(&[("name", "Ann")])];
    assert_eq!(render_tpl("Hi {{ name }}", rows), "Hi Jack");
}

#[test]
fn variable_missing_field_appends_nothing() {
    let rows = vec![row(&[("other", "x")])];
    assert_eq!(render_tpl("Hi {{ name }}!", rows), "Hi !");
}

#[test]
fn variable_with_empty_dataset_appends_nothing() {
    assert_eq!(render_tpl("Hi {{ name }}", Vec::new()), "Hi ");
}

#[test]
fn loop_expands_comma_separated_items() {
    let rows = vec![row(&[("items", "a,b,c")])];
    assert_eq!(
        render_tpl("{% for x in items %}[{ x }]{% endfor %}", rows),
        "[a][b][c]"
    );
}

#[test]
fn loop_with_zero_rows_produces_nothing() {
    assert_eq!(
        render_tpl("{% for x in items %}[{ x }]{% endfor %}", Vec::new()),
        ""
    );
}

#[test]
fn loop_without_list_field_produces_nothing() {
    let rows = vec![row(&[("other", "a,b")])];
    assert_eq!(render_tpl("{% for x in items %}[{ x }]{% endfor %}", rows), "");
}

#[test]
fn loop_runs_over_every_row() {
    let rows = vec![row(&[("items", "a,b")]), row(&[("items", "c")])];
    assert_eq!(
        render_tpl("{% for x in items %}<{ x }>{% endfor %}", rows),
        "<a><b><c>"
    );
}

#[test]
fn conditional_true_takes_then_branch() {
    let rows = vec![row(&[("flag", "true")])];
    assert_eq!(
        render_tpl("{% if flag %}YES{% else %}NO{% endif %}", rows),
        "YES"
    );
}

#[test]
fn conditional_false_takes_else_branch() {
    let rows = vec![row(&[("flag", "false")])];
    assert_eq!(
        render_tpl("{% if flag %}YES{% else %}NO{% endif %}", rows),
        "NO"
    );
}

#[test]
fn conditional_missing_field_takes_else_branch() {
    let rows = vec![row(&[("other", "x")])];
    assert_eq!(
        render_tpl("{% if flag %}YES{% else %}NO{% endif %}", rows),
        "NO"
    );
}

#[test]
fn conditional_without_else_keeps_body_only_when_false() {
    // Without an `else`, the closer treats the whole body as the else
    // branch: a false condition re-appends it and a true one drops it.
    let rows = vec![row(&[("flag", "no")])];
    assert_eq!(render_tpl("A{% if flag %}YES{% endif %}B", rows), "AYESB");
    let rows = vec![row(&[("flag", "true")])];
    assert_eq!(render_tpl("A{% if flag %}YES{% endif %}B", rows), "AB");
}

#[test]
fn malformed_statement_is_dropped() {
    let rows = vec![row(&[("name", "Jack")])];
    assert_eq!(render_tpl("a{% bogus %}b", rows), "ab");
}

#[test]
fn for_without_in_separator_is_dropped() {
    let rows = vec![row(&[("items", "a,b")])];
    assert_eq!(render_tpl("a{% for x items %}b", rows), "ab");
}

#[test]
fn directive_does_not_span_lines() {
    let rows = vec![row(&[("name", "Jack")])];
    assert_eq!(render_tpl("{{ na\nme }}", rows), "{{ na\nme }}");
}

#[test]
fn include_splices_other_template() {
    let mut files = StrMap::new();
    files.set("outer.html".to_string(), "A{% include inner.html %}C".to_string());
    files.set("inner.html".to_string(), "B:{{ name }}".to_string());
    let r = YuaiRender::new("html", Some("outer.html")).unwrap();
    let rows = vec![row(&[("name", "Jack")])];
    assert_eq!(rendered(r.render(Some(rows), &files)), "AB:JackC");
}

#[test]
fn include_self_cycle_expands_once() {
    let mut files = StrMap::new();
    files.set("self.html".to_string(), "A{% include self.html %}".to_string());
    let r = YuaiRender::new("html", Some("self.html")).unwrap();
    assert_eq!(rendered(r.render(Some(Vec::new()), &files)), "AA");
}

#[test]
fn include_repeated_path_is_suppressed_across_branches() {
    let mut files = StrMap::new();
    files.set(
        "outer.html".to_string(),
        "{% include part.html %}|{% include part.html %}".to_string(),
    );
    files.set("part.html".to_string(), "P".to_string());
    let r = YuaiRender::new("html", Some("outer.html")).unwrap();
    assert_eq!(rendered(r.render(None, &files)), "P|");
}

#[test]
fn missing_template_file_fails() {
    let files = StrMap::new();
    let r = YuaiRender::new("html", Some("gone.html")).unwrap();
    match r.render(None, &files) {
        Err(RenderError::FileError(p)) => assert_eq!(p, "gone.html"),
        _ => panic!("expected a file failure"),
    }
}

#[test]
fn missing_included_file_fails() {
    let mut files = StrMap::new();
    files.set("outer.html".to_string(), "A{% include inner.html %}".to_string());
    let r = YuaiRender::new("html", Some("outer.html")).unwrap();
    match r.render(None, &files) {
        Err(RenderError::FileError(p)) => assert_eq!(p, "inner.html"),
        _ => panic!("expected a file failure"),
    }
}

#[test]
fn default_template_path_is_used_without_caller_path() {
    let mut files = StrMap::new();
    files.set("templates/default.html".to_string(), "D:{{ name }}".to_string());
    let r = YuaiRender::new("html", None).unwrap();
    let rows = vec![row(&[("name", "Ann")])];
    assert_eq!(rendered(r.render(Some(rows), &files)), "D:Ann");
}

#[test]
fn markdown_uses_its_own_default_path() {
    let mut files = StrMap::new();
    files.set("templates/default.md".to_string(), "# {{ name }}".to_string());
    let r = YuaiRender::new("md", None).unwrap();
    let rows = vec![row(&[("name", "Ann")])];
    assert_eq!(rendered(r.render(Some(rows), &files)), "# Ann");
}

#[test]
fn template_treats_absent_dataset_as_empty() {
    let mut files = StrMap::new();
    files.set("t.html".to_string(), "x{{ name }}y".to_string());
    let r = YuaiRender::new("html", Some("t.html")).unwrap();
    assert_eq!(rendered(r.render(None, &files)), "xy");
}

#[test]
fn loop_body_keeps_already_substituted_text() {
    let rows = vec![row(&[("items", "a,b"), ("name", "Jack")])];
    assert_eq!(
        render_tpl("{% for x in items %}{ x }:{{ name }};{% endfor %}", rows),
        "a:Jack;b:Jack;"
    );
}

#[test]
fn directive_bodies_are_trimmed() {
    let rows = vec![row(&[("name", "Jack"), ("flag", "true")])];
    assert_eq!(
        render_tpl("{{   name   }}-{%   if flag   %}Y{%   else   %}N{%   endif   %}", rows),
        "Jack-Y"
    );
}

#[test]
fn format_name_parses_through_the_trait() {
    let f: Result<RenderFormat, RenderError> = "CSV".parse();
    assert!(matches!(f, Ok(RenderFormat::Csv)));
    let f: Result<RenderFormat, RenderError> = "toml".parse();
    match f {
        Err(RenderError::UnknownFormat(t)) => assert_eq!(t, "toml"),
        _ => panic!("expected an unknown-format failure"),
    }
}

#[test]
fn empty_list_field_expands_one_empty_item() {
    let rows = vec![row(&[("items", "")])];
    assert_eq!(render_tpl("{% for x in items %}[{ x }]{% endfor %}", rows), "[]");
}

#[test]
fn stray_closers_are_harmless() {
    let rows = vec![row(&[("name", "Jack")])];
    assert_eq!(render_tpl("a{% endfor %}b{% endif %}c{% else %}d", rows), "abcd");
}
