use tuirunner::cli::{
    config_file_candidates, direct_run, format_for_extension, init_template, resolve_init_format,
    too_many_tasks_message, ConfigFormat, DirectRun,
};

#[test]
fn init_format_prefers_flags_then_format_then_toml() {
    assert_eq!(resolve_init_format(None, false, false, false), ConfigFormat::Toml);
    assert_eq!(resolve_init_format(Some(ConfigFormat::Yaml), false, false, false), ConfigFormat::Yaml);
    assert_eq!(resolve_init_format(None, false, true, false), ConfigFormat::Yaml);
    assert_eq!(resolve_init_format(None, false, false, true), ConfigFormat::Json);
    assert_eq!(resolve_init_format(Some(ConfigFormat::Json), true, false, false), ConfigFormat::Toml);
}

#[test]
fn init_templates_name_their_files() {
    let (name, content) = init_template(ConfigFormat::Toml);
    assert_eq!(name, "runner.config.toml");
    assert!(content.contains("[tasks.hello]"));
    assert!(content.starts_with("#:schema https://tuir.umitsuki.dev/runner.schema.json\n"));
    let (name, content) = init_template(ConfigFormat::Yaml);
    assert_eq!(name, "runner.config.yaml");
    assert!(content.contains("tui: true"));
    let (name, content) = init_template(ConfigFormat::Json);
    assert_eq!(name, "runner.config.json");
    assert!(content.contains("\"tasks\": {"));
}

#[test]
fn init_checks_four_names() {
    assert_eq!(
        config_file_candidates(),
        vec!["runner.config.toml", "runner.config.yaml", "runner.config.yml", "runner.config.json"]
    );
}

#[test]
fn extension_picks_the_parser() {
    assert_eq!(format_for_extension("json"), ConfigFormat::Json);
    assert_eq!(format_for_extension("yaml"), ConfigFormat::Yaml);
    assert_eq!(format_for_extension("yml"), ConfigFormat::Yaml);
    assert_eq!(format_for_extension("toml"), ConfigFormat::Toml);
    assert_eq!(format_for_extension(""), ConfigFormat::Toml);
    assert_eq!(format_for_extension("JSON"), ConfigFormat::Toml);
}

#[test]
fn bare_task_names() {
    assert_eq!(direct_run(&[]), DirectRun::Help);
    assert_eq!(direct_run(&["build".to_string()]), DirectRun::Task("build".to_string()));
    assert_eq!(direct_run(&["a".to_string(), "b".to_string()]), DirectRun::TooMany);
    assert!(too_many_tasks_message().starts_with("Error: Multiple tasks are not allowed"));
}
