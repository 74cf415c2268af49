use vstd::prelude::*;

use crate::text::str_eq;

verus! {

/// The file formats of a configuration.
#[derive(Debug, Clone, Copy, PartialEq, Eq, Structural)]
pub enum ConfigFormat {
    Toml,
    Yaml,
    Json,
}

/// The format `init` writes: the one its flag names, else the one `--format`
/// names, else TOML.
pub open spec fn init_format(format: Option<ConfigFormat>, toml: bool, yaml: bool, json: bool) -> ConfigFormat {
    if toml {
        ConfigFormat::Toml
    } else if yaml {
        ConfigFormat::Yaml
    } else if json {
        ConfigFormat::Json
    } else {
        match format {
            Some(f) => f,
            None => ConfigFormat::Toml,
        }
    }
}

/// The format `init` writes for its arguments.
pub fn resolve_init_format(format: Option<ConfigFormat>, toml: bool, yaml: bool, json: bool) -> (r: ConfigFormat)
    ensures
        r == init_format(format, toml, yaml, json),
{
    if toml {
        ConfigFormat::Toml
    } else if yaml {
        ConfigFormat::Yaml
    } else if json {
        ConfigFormat::Json
    } else {
        match format {
            Some(f) => f,
            None => ConfigFormat::Toml,
        }
    }
}

/// The file `init` writes for each format.
pub open spec fn init_file_name(format: ConfigFormat) -> Seq<char> {
    match format {
        ConfigFormat::Toml => "runner.config.toml"@,
        ConfigFormat::Yaml => "runner.config.yaml"@,
        ConfigFormat::Json => "runner.config.json"@,
    }
}

/// The starting configuration `init` writes for each format: one task that
/// says hello.
pub open spec fn init_content(format: ConfigFormat) -> Seq<char> {
    match format {
        ConfigFormat::Toml => "#:schema https://tuir.umitsuki.dev/runner.schema.json\n\ntui = true\n\n[tasks.hello]\ndescription = \"Say hello\"\ncmd = \"echo 'Hello, World!'\"\n"@,
        ConfigFormat::Yaml => "# yaml-language-server: $schema=https://tuir.umitsuki.dev/runner.schema.json\n\ntui: true\ntasks:\n  hello:\n    description: \"Say hello\"\n    cmd: \"echo 'Hello, World!'\"\n"@,
        ConfigFormat::Json => "{\n  \"$schema\": \"https://tuir.umitsuki.dev/runner.schema.json\",\n  \"tui\": true,\n  \"tasks\": {\n    \"hello\": {\n      \"description\": \"Say hello\",\n      \"cmd\": \"echo 'Hello, World!'\"\n    }\n  }\n}\n"@,
    }
}

/// The file name and the text `init` writes for `format`.
pub fn init_template(format: ConfigFormat) -> (r: (&'static str, &'static str))
    ensures
        r.0@ == init_file_name(format),
        r.1@ == init_content(format),
{
    match format {
        ConfigFormat::Toml => (
            "runner.config.toml",
            "#:schema https://tuir.umitsuki.dev/runner.schema.json\n\ntui = true\n\n[tasks.hello]\ndescription = \"Say hello\"\ncmd = \"echo 'Hello, World!'\"\n",
        ),
        ConfigFormat::Yaml => (
            "runner.config.yaml",
            "# yaml-language-server: $schema=https://tuir.umitsuki.dev/runner.schema.json\n\ntui: true\ntasks:\n  hello:\n    description: \"Say hello\"\n    cmd: \"echo 'Hello, World!'\"\n",
        ),
        ConfigFormat::Json => (
            "runner.config.json",
            "{\n  \"$schema\": \"https://tuir.umitsuki.dev/runner.schema.json\",\n  \"tui\": true,\n  \"tasks\": {\n    \"hello\": {\n      \"description\": \"Say hello\",\n      \"cmd\": \"echo 'Hello, World!'\"\n    }\n  }\n}\n",
        ),
    }
}

/// The configuration files whose presence stops `init`, in the order checked.
pub open spec fn existing_config_names() -> Seq<Seq<char>> {
    seq!["runner.config.toml"@, "runner.config.yaml"@, "runner.config.yml"@, "runner.config.json"@]
}

/// The configuration files whose presence stops `init`.
pub fn config_file_candidates() -> (r: Vec<&'static str>)
    ensures
        r@.map_values(|s: &str| s@) == existing_config_names(),
{
    let r = vec!["runner.config.toml", "runner.config.yaml", "runner.config.yml", "runner.config.json"];
    proof {
        assert(r@.map_values(|s: &str| s@) =~= existing_config_names());
    }
    r
}

/// The format a configuration file is read in, by its extension: JSON for
/// `json`, YAML for `yaml` and `yml`, TOML otherwise.
pub open spec fn format_of_extension(ext: Seq<char>) -> ConfigFormat {
    if ext == "json"@ {
        ConfigFormat::Json
    } else if ext == "yaml"@ || ext == "yml"@ {
        ConfigFormat::Yaml
    } else {
        ConfigFormat::Toml
    }
}

/// The format a configuration file with extension `ext` is read in.
pub fn format_for_extension(ext: &str) -> (r: ConfigFormat)
    ensures
        r == format_of_extension(ext@),
{
    if str_eq(ext, "json") {
        ConfigFormat::Json
    } else if str_eq(ext, "yaml") || str_eq(ext, "yml") {
        ConfigFormat::Yaml
    } else {
        ConfigFormat::Toml
    }
}

/// What a bare task name on the command line (`tuir build`) asks for.
#[derive(Debug, PartialEq, Eq)]
pub enum DirectRun {
    /// No name: show the help.
    Help,
    /// More than one name: refused; several tasks go through `run`.
    TooMany,
    /// The task named; it runs with what it depends on.
    Task(String),
}

/// The text that refuses several bare task names.
pub open spec fn too_many_message() -> Seq<char> {
    "Error: Multiple tasks are not allowed when executing a task directly. Use 'run' subcommand for multiple tasks."@
}

/// What bare task names on the command line ask for.
pub fn direct_run(args: &[String]) -> (r: DirectRun)
    ensures
        args@.len() == 0 ==> r == DirectRun::Help,
        args@.len() > 1 ==> r == DirectRun::TooMany,
        args@.len() == 1 ==> (r matches DirectRun::Task(n) && n@ == args@[0]@),
{
    if args.len() > 1 {
        DirectRun::TooMany
    } else if args.len() == 0 {
        DirectRun::Help
    } else {
        DirectRun::Task(args[0].clone())
    }
}

/// The text that refuses several bare task names.
pub fn too_many_tasks_message() -> (r: &'static str)
    ensures
        r@ == too_many_message(),
{
    "Error: Multiple tasks are not allowed when executing a task directly. Use 'run' subcommand for multiple tasks."
}

} // verus!
