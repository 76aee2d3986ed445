//! The global options of the command line, and the `config` commands.

use crate::config::{Config, ConfigSource};
use crate::path::UnixPath;
use crate::paths::{self, below, Environment, NoBaseDir, APP_NAME};
use crate::text::{self, shown_text};
use vstd::prelude::*;

verus! {

/// Global options shared by all subcommands.
#[derive(Clone, Debug)]
pub struct CommonOpts {
    /// Override the config file path.
    pub config: Option<UnixPath>,
    /// Output machine-readable JSON.
    pub json: bool,
    /// Reduce output to errors only.
    pub quiet: bool,
    /// How often more verbose logging was asked for.
    pub verbose: u8,
    /// Enable debug logging.
    pub debug: bool,
    /// Disable ANSI colors.
    pub no_color: bool,
    /// Assume "yes" for prompts.
    pub yes: bool,
}

/// How much is logged.
#[derive(Clone, Copy, Debug, PartialEq, Eq, Structural)]
pub enum LogLevel {
    Error,
    Warn,
    Info,
    Debug,
}

/// How logging is set up.
#[derive(Clone, Copy, Debug, PartialEq, Eq, Structural)]
pub struct Logging {
    pub level: LogLevel,
    /// Whether colors are left out.
    pub plain: bool,
}

/// How logging is set up, given whether `NO_COLOR` is set.
pub fn init_logging(common: &CommonOpts, no_color_env: bool) -> (r: Logging)
    ensures
        r.level == (if common.quiet {
            LogLevel::Error
        } else if common.debug || common.verbose >= 2 {
            LogLevel::Debug
        } else if common.verbose == 1 {
            LogLevel::Info
        } else {
            LogLevel::Warn
        }),
        r.plain == (common.no_color || no_color_env),
{
    let level: LogLevel = if common.quiet {
        LogLevel::Error
    } else if common.debug || common.verbose >= 2 {
        LogLevel::Debug
    } else if common.verbose == 1 {
        LogLevel::Info
    } else {
        LogLevel::Warn
    };
    Logging { level, plain: common.no_color || no_color_env }
}

/// What to inspect or manage of the configuration.
#[derive(Clone, Copy, Debug, PartialEq, Eq, Structural)]
pub enum ConfigCommand {
    /// Print the effective configuration.
    Show,
    /// Print the resolved config file path.
    Path,
    /// Print all resolved directories.
    Paths,
    /// Print the JSON schema for the config file.
    Schema,
    /// Write the default config and schema (keeps an existing config).
    Reset,
}

/// A directory under its name.
#[derive(Debug)]
pub struct NamedDir {
    pub name: &'static str,
    pub dir: UnixPath,
}

/// What to do for a `config` command.
#[derive(Debug)]
pub enum ConfigAction {
    /// Print the configuration from this source, as JSON or as TOML.
    Show { source: ConfigSource, json: bool },
    /// Print these lines.
    Lines(Vec<String>),
    /// Print these directories as a JSON object.
    Object(Vec<NamedDir>),
    /// Print the schema.
    Schema,
    /// Write the default files, the configuration to this path.
    Reset { path: UnixPath },
}

/// The configuration file: the override, else the standard one.
pub open spec fn config_path(common: CommonOpts, env: Environment) -> Option<Seq<u8>> {
    match common.config {
        Some(path) => Some(path@),
        None => below(below(env.config_base(), APP_NAME@), "config.toml"@),
    }
}

/// The directories that are listed: each by its name and where it is.
pub open spec fn listed_dirs(env: Environment) -> Seq<(Seq<char>, Option<Seq<u8>>)> {
    seq![
        ("config"@, below(env.config_base(), APP_NAME@)),
        ("data"@, below(env.data_base(), APP_NAME@)),
        ("state"@, below(env.state_base(), APP_NAME@)),
        ("cache"@, below(env.cache_base(), APP_NAME@)),
        ("voices"@, below(below(env.data_base(), APP_NAME@), "voices"@)),
    ]
}

/// The first directory that cannot be resolved, by its variable.
pub open spec fn first_unresolved(env: Environment) -> Seq<char> {
    if env.config_base() is None {
        "XDG_CONFIG_HOME"@
    } else if env.data_base() is None {
        "XDG_DATA_HOME"@
    } else if env.state_base() is None {
        "XDG_STATE_HOME"@
    } else {
        "XDG_CACHE_HOME"@
    }
}

/// Whether every directory can be resolved.
pub open spec fn all_resolved(env: Environment) -> bool {
    &&& env.config_base() is Some
    &&& env.data_base() is Some
    &&& env.state_base() is Some
    &&& env.cache_base() is Some
}

/// Whether `dirs` are the listed directories.
pub open spec fn lists_dirs(dirs: Seq<NamedDir>, env: Environment) -> bool {
    &&& dirs.len() == listed_dirs(env).len()
    &&& forall|i: int|
        0 <= i < dirs.len() ==> (#[trigger] dirs[i]).name@ == listed_dirs(env)[i].0 && Some(
            dirs[i].dir@,
        ) == listed_dirs(env)[i].1
}

/// The configuration file: the override, else the standard one.
pub fn resolve_config_path(common: &CommonOpts, env: &Environment) -> (r: Result<
    UnixPath,
    NoBaseDir,
>)
    ensures
        match r {
            Ok(path) => config_path(*common, *env) == Some(path@),
            Err(e) => config_path(*common, *env) is None && e.variable@ == "XDG_CONFIG_HOME"@,
        },
{
    match &common.config {
        Some(path) => Ok(path.copied()),
        None => paths::config_file(env),
    }
}

/// All resolved directories, each under its name.
pub fn resolve_dirs(env: &Environment) -> (r: Result<Vec<NamedDir>, NoBaseDir>)
    ensures
        match r {
            Ok(dirs) => all_resolved(*env) && lists_dirs(dirs@, *env),
            Err(e) => !all_resolved(*env) && e.variable@ == first_unresolved(*env),
        },
{
    let mut dirs: Vec<NamedDir> = Vec::new();
    match paths::config_dir(env) {
        Ok(dir) => dirs.push(NamedDir { name: "config", dir }),
        Err(e) => {
            return Err(e);
        },
    }
    match paths::data_dir(env) {
        Ok(dir) => dirs.push(NamedDir { name: "data", dir }),
        Err(e) => {
            return Err(e);
        },
    }
    match paths::state_dir(env) {
        Ok(dir) => dirs.push(NamedDir { name: "state", dir }),
        Err(e) => {
            return Err(e);
        },
    }
    match paths::cache_dir(env) {
        Ok(dir) => dirs.push(NamedDir { name: "cache", dir }),
        Err(e) => {
            return Err(e);
        },
    }
    match paths::voices_dir(env) {
        Ok(dir) => dirs.push(NamedDir { name: "voices", dir }),
        Err(e) => {
            return Err(e);
        },
    }
    Ok(dirs)
}

/// A path under its name, as a line.
pub fn named_line(name: &str, path: &UnixPath) -> (r: String)
    ensures
        r@ == name@ + ": "@ + shown_text(path@),
{
    let mut r: String = text::concat(name, ": ");
    vstd::string::StringExecFns::append(&mut r, path.display().as_str());
    r
}

/// The directories as lines.
fn dir_lines(dirs: &Vec<NamedDir>) -> (r: Vec<String>)
    ensures
        r@.len() == dirs@.len(),
        forall|i: int|
            0 <= i < r@.len() ==> (#[trigger] r@[i])@ == dirs@[i].name@ + ": "@ + shown_text(
                dirs@[i].dir@,
            ),
{
    let mut lines: Vec<String> = Vec::new();
    let mut i: usize = 0;
    while i < dirs.len()
        invariant
            i <= dirs@.len(),
            lines@.len() == i,
            forall|j: int|
                0 <= j < i ==> (#[trigger] lines@[j])@ == dirs@[j].name@ + ": "@ + shown_text(
                    dirs@[j].dir@,
                ),
        decreases dirs@.len() - i,
    {
        lines.push(named_line(dirs[i].name, &dirs[i].dir));
        i += 1;
    }
    lines
}

/// What to do for a `config` command.
pub fn run_config(command: ConfigCommand, common: &CommonOpts, env: &Environment) -> (r: Result<
    ConfigAction,
    NoBaseDir,
>)
    ensures
        match command {
            ConfigCommand::Show => match r {
                Ok(action) => {
                    &&& action matches ConfigAction::Show { source, json }
                    &&& config_path(*common, *env) == Some(source.path@)
                    &&& source.create_if_missing == (common.config is None)
                    &&& json == common.json
                },
                Err(e) => config_path(*common, *env) is None && e.variable@ == "XDG_CONFIG_HOME"@,
            },
            ConfigCommand::Path => match r {
                Ok(action) => {
                    &&& action matches ConfigAction::Lines(lines)
                    &&& lines@.len() == 1
                    &&& config_path(*common, *env) matches Some(path)
                    &&& lines@[0]@ == shown_text(path)
                },
                Err(e) => config_path(*common, *env) is None && e.variable@ == "XDG_CONFIG_HOME"@,
            },
            ConfigCommand::Paths => match r {
                Ok(ConfigAction::Object(dirs)) => common.json && all_resolved(*env) && lists_dirs(
                    dirs@,
                    *env,
                ),
                Ok(ConfigAction::Lines(lines)) => {
                    &&& !common.json
                    &&& all_resolved(*env)
                    &&& lines@.len() == listed_dirs(*env).len()
                    &&& forall|i: int|
                        0 <= i < lines@.len() ==> (#[trigger] lines@[i])@ == listed_dirs(*env)[i].0
                            + ": "@ + shown_text(listed_dirs(*env)[i].1->0)
                },
                Ok(_) => false,
                Err(e) => !all_resolved(*env) && e.variable@ == first_unresolved(*env),
            },
            ConfigCommand::Schema => r matches Ok(action) && action is Schema,
            ConfigCommand::Reset => match r {
                Ok(action) => {
                    &&& action matches ConfigAction::Reset { path }
                    &&& config_path(*common, *env) == Some(path@)
                },
                Err(e) => config_path(*common, *env) is None && e.variable@ == "XDG_CONFIG_HOME"@,
            },
        },
{
    match command {
        ConfigCommand::Show => match Config::load(&common.config, env) {
            Ok(source) => Ok(ConfigAction::Show { source, json: common.json }),
            Err(e) => Err(e),
        },
        ConfigCommand::Path => match resolve_config_path(common, env) {
            Ok(path) => {
                let mut lines: Vec<String> = Vec::new();
                lines.push(path.display());
                Ok(ConfigAction::Lines(lines))
            },
            Err(e) => Err(e),
        },
        ConfigCommand::Paths => match resolve_dirs(env) {
            Ok(dirs) => {
                if common.json {
                    Ok(ConfigAction::Object(dirs))
                } else {
                    let lines: Vec<String> = dir_lines(&dirs);
                    assert forall|i: int| 0 <= i < lines@.len() implies (#[trigger] lines@[i])@
                        == listed_dirs(*env)[i].0 + ": "@ + shown_text(
                        listed_dirs(*env)[i].1->0,
                    ) by {
                        assert(dirs@[i].name@ == listed_dirs(*env)[i].0);
                    }
                    Ok(ConfigAction::Lines(lines))
                }
            },
            Err(e) => Err(e),
        },
        ConfigCommand::Schema => Ok(ConfigAction::Schema),
        ConfigCommand::Reset => match resolve_config_path(common, env) {
            Ok(path) => Ok(ConfigAction::Reset { path }),
            Err(e) => Err(e),
        },
    }
}

/// The configuration file is the given one, else `config.toml` in the directory of the
/// application.
pub proof fn given_configuration_wins(common: CommonOpts, env: Environment)
    ensures
        common.config matches Some(path) ==> config_path(common, env) == Some(path@),
        common.config is None ==> config_path(common, env) == (match env.config_base() {
            Some(base) => Some(
                crate::path::joined_path(
                    crate::path::joined_path(base, vstd::utf8::encode_utf8("spqx"@)),
                    vstd::utf8::encode_utf8("config.toml"@),
                ),
            ),
            None => None,
        }),
{
}

/// What is listed is where each directory is: all five can be listed exactly when each
/// of them is there, and else the first that is not is named.
pub proof fn listing_is_complete(env: Environment)
    ensures
        listed_dirs(env).len() == 5,
        all_resolved(env) <==> forall|i: int| 0 <= i < 5 ==> (#[trigger] listed_dirs(env)[i]).1 is Some,
        listed_dirs(env)[0].1 is None ==> first_unresolved(env) == "XDG_CONFIG_HOME"@,
        listed_dirs(env)[0].1 is Some && listed_dirs(env)[1].1 is None ==> first_unresolved(env)
            == "XDG_DATA_HOME"@,
        listed_dirs(env)[0].1 is Some && listed_dirs(env)[1].1 is Some && listed_dirs(
            env,
        )[2].1 is None ==> first_unresolved(env) == "XDG_STATE_HOME"@,
        listed_dirs(env)[0] == ("config"@, below(env.config_base(), "spqx"@)),
        listed_dirs(env)[1] == ("data"@, below(env.data_base(), "spqx"@)),
        listed_dirs(env)[2] == ("state"@, below(env.state_base(), "spqx"@)),
        listed_dirs(env)[3] == ("cache"@, below(env.cache_base(), "spqx"@)),
        listed_dirs(env)[4] == ("voices"@, below(below(env.data_base(), "spqx"@), "voices"@)),
{
    let d = listed_dirs(env);
    if forall|i: int| 0 <= i < 5 ==> (#[trigger] d[i]).1 is Some {
        assert(d[0].1 is Some && d[1].1 is Some && d[2].1 is Some && d[3].1 is Some);
    }
}

/// Listed directories are the five in their order, each where it is.
pub proof fn listed_dirs_are_where_they_are(dirs: Seq<NamedDir>, env: Environment)
    requires
        lists_dirs(dirs, env),
    ensures
        dirs.len() == 5,
        dirs[0].name@ == "config"@ && Some(dirs[0].dir@) == below(env.config_base(), "spqx"@),
        dirs[1].name@ == "data"@ && Some(dirs[1].dir@) == below(env.data_base(), "spqx"@),
        dirs[2].name@ == "state"@ && Some(dirs[2].dir@) == below(env.state_base(), "spqx"@),
        dirs[3].name@ == "cache"@ && Some(dirs[3].dir@) == below(env.cache_base(), "spqx"@),
        dirs[4].name@ == "voices"@ && Some(dirs[4].dir@) == below(
            below(env.data_base(), "spqx"@),
            "voices"@,
        ),
{
    assert(dirs[0].name@ == listed_dirs(env)[0].0);
    assert(dirs[1].name@ == listed_dirs(env)[1].0);
    assert(dirs[2].name@ == listed_dirs(env)[2].0);
    assert(dirs[3].name@ == listed_dirs(env)[3].0);
    assert(dirs[4].name@ == listed_dirs(env)[4].0);
}

} // verus!
