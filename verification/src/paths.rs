//! XDG-style directories: `XDG_*_HOME` overrides, fallbacks below the home
//! directory, and `APPDATA`/`LOCALAPPDATA` on Windows.

use crate::path::{is_absolute_path, joined_path, UnixPath};
use crate::text;
use vstd::prelude::*;
use vstd::utf8::encode_utf8;

verus! {

/// The directory name below each base directory.
pub const APP_NAME: &'static str = "spqx";

/// The environment that directories are resolved in.
#[derive(Debug)]
pub struct Environment {
    /// `HOME`
    pub home: Option<UnixPath>,
    /// `XDG_CONFIG_HOME`
    pub xdg_config_home: Option<UnixPath>,
    /// `XDG_DATA_HOME`
    pub xdg_data_home: Option<UnixPath>,
    /// `XDG_STATE_HOME`
    pub xdg_state_home: Option<UnixPath>,
    /// `XDG_CACHE_HOME`
    pub xdg_cache_home: Option<UnixPath>,
    /// `APPDATA`
    pub appdata: Option<UnixPath>,
    /// `LOCALAPPDATA`
    pub localappdata: Option<UnixPath>,
    /// `HF_HOME`
    pub hf_home: Option<UnixPath>,
    /// Whether this is Windows.
    pub is_windows: bool,
}

/// A base directory that the environment does not give, named by its variable.
#[derive(Debug)]
pub struct NoBaseDir {
    pub variable: &'static str,
}

impl NoBaseDir {
    /// The message.
    pub open spec fn text(self) -> Seq<char> {
        "unable to determine base directory ("@ + self.variable@ + ")"@
    }

    /// The message.
    pub fn message(&self) -> (r: String)
        ensures
            r@ == self.text(),
    {
        text::concat(
            text::concat("unable to determine base directory (", self.variable).as_str(),
            ")",
        )
    }
}

/// A path that may be missing, as its bytes.
pub open spec fn path_view(path: Option<UnixPath>) -> Option<Seq<u8>> {
    match path {
        Some(p) => Some(p@),
        None => None,
    }
}

/// The base directory: an absolute override, else the Windows directory on
/// Windows, else `unix_rel` below the home directory.
pub open spec fn base_of(
    xdg: Option<Seq<u8>>,
    home: Option<Seq<u8>>,
    win_dir: Option<Seq<u8>>,
    is_windows: bool,
    unix_rel: Seq<u8>,
) -> Option<Seq<u8>> {
    match xdg {
        Some(dir) if is_absolute_path(dir) => Some(dir),
        _ => if is_windows {
            win_dir
        } else {
            match home {
                Some(h) => Some(joined_path(h, unix_rel)),
                None => None,
            }
        },
    }
}

/// A directory below a base directory.
pub open spec fn below(base: Option<Seq<u8>>, name: Seq<char>) -> Option<Seq<u8>> {
    match base {
        Some(dir) => Some(joined_path(dir, encode_utf8(name))),
        None => None,
    }
}

impl Environment {
    /// The base of configuration.
    pub open spec fn config_base(self) -> Option<Seq<u8>> {
        base_of(
            path_view(self.xdg_config_home),
            path_view(self.home),
            path_view(self.appdata),
            self.is_windows,
            encode_utf8(".config"@),
        )
    }

    /// The base of data.
    pub open spec fn data_base(self) -> Option<Seq<u8>> {
        base_of(
            path_view(self.xdg_data_home),
            path_view(self.home),
            path_view(self.appdata),
            self.is_windows,
            encode_utf8(".local/share"@),
        )
    }

    /// The base of state.
    pub open spec fn state_base(self) -> Option<Seq<u8>> {
        base_of(
            path_view(self.xdg_state_home),
            path_view(self.home),
            path_view(self.localappdata),
            self.is_windows,
            encode_utf8(".local/state"@),
        )
    }

    /// The base of caches.
    pub open spec fn cache_base(self) -> Option<Seq<u8>> {
        base_of(
            path_view(self.xdg_cache_home),
            path_view(self.home),
            path_view(self.localappdata),
            self.is_windows,
            encode_utf8(".cache"@),
        )
    }
}

/// Whether `r` is the path `dir`, or names `variable` where there is none.
pub open spec fn resolves(
    r: Result<UnixPath, NoBaseDir>,
    dir: Option<Seq<u8>>,
    variable: Seq<char>,
) -> bool {
    match r {
        Ok(path) => dir == Some(path@),
        Err(e) => dir is None && e.variable@ == variable,
    }
}

/// The base directory, or nothing.
pub fn resolve_base(
    xdg: &Option<UnixPath>,
    home: &Option<UnixPath>,
    win_dir: &Option<UnixPath>,
    is_windows: bool,
    unix_rel: &str,
) -> (r: Option<UnixPath>)
    ensures
        path_view(r) == base_of(
            path_view(*xdg),
            path_view(*home),
            path_view(*win_dir),
            is_windows,
            encode_utf8(unix_rel@),
        ),
{
    if let Some(dir) = xdg {
        if dir.is_absolute() {
            return Some(dir.copied());
        }
    }
    if is_windows {
        match win_dir {
            Some(dir) => Some(dir.copied()),
            None => None,
        }
    } else {
        match home {
            Some(dir) => Some(dir.join_text(unix_rel)),
            None => None,
        }
    }
}

/// The application's directory below a base directory.
fn app_dir(base: Option<UnixPath>, variable: &'static str) -> (r: Result<UnixPath, NoBaseDir>)
    ensures
        resolves(r, below(path_view(base), APP_NAME@), variable@),
{
    match base {
        Some(dir) => Ok(dir.join_text(APP_NAME)),
        None => Err(NoBaseDir { variable }),
    }
}

/// Where the configuration is.
pub fn config_dir(env: &Environment) -> (r: Result<UnixPath, NoBaseDir>)
    ensures
        resolves(r, below(env.config_base(), APP_NAME@), "XDG_CONFIG_HOME"@),
{
    app_dir(
        resolve_base(&env.xdg_config_home, &env.home, &env.appdata, env.is_windows, ".config"),
        "XDG_CONFIG_HOME",
    )
}

/// Where data is.
pub fn data_dir(env: &Environment) -> (r: Result<UnixPath, NoBaseDir>)
    ensures
        resolves(r, below(env.data_base(), APP_NAME@), "XDG_DATA_HOME"@),
{
    app_dir(
        resolve_base(&env.xdg_data_home, &env.home, &env.appdata, env.is_windows, ".local/share"),
        "XDG_DATA_HOME",
    )
}

/// Where state is.
pub fn state_dir(env: &Environment) -> (r: Result<UnixPath, NoBaseDir>)
    ensures
        resolves(r, below(env.state_base(), APP_NAME@), "XDG_STATE_HOME"@),
{
    app_dir(
        resolve_base(
            &env.xdg_state_home,
            &env.home,
            &env.localappdata,
            env.is_windows,
            ".local/state",
        ),
        "XDG_STATE_HOME",
    )
}

/// Where caches are.
pub fn cache_dir(env: &Environment) -> (r: Result<UnixPath, NoBaseDir>)
    ensures
        resolves(r, below(env.cache_base(), APP_NAME@), "XDG_CACHE_HOME"@),
{
    app_dir(
        resolve_base(&env.xdg_cache_home, &env.home, &env.localappdata, env.is_windows, ".cache"),
        "XDG_CACHE_HOME",
    )
}

/// A name below a resolved directory.
fn join_resolved(dir: Result<UnixPath, NoBaseDir>, name: &str) -> (r: Result<UnixPath, NoBaseDir>)
    ensures
        match dir {
            Ok(d) => r matches Ok(path) && path@ == joined_path(d@, encode_utf8(name@)),
            Err(e) => r == Err::<UnixPath, NoBaseDir>(e),
        },
{
    match dir {
        Ok(d) => Ok(d.join_text(name)),
        Err(e) => Err(e),
    }
}

/// The configuration file.
pub fn config_file(env: &Environment) -> (r: Result<UnixPath, NoBaseDir>)
    ensures
        resolves(
            r,
            below(below(env.config_base(), APP_NAME@), "config.toml"@),
            "XDG_CONFIG_HOME"@,
        ),
{
    join_resolved(config_dir(env), "config.toml")
}

/// The schema of the configuration file, next to it.
pub fn schema_file(env: &Environment) -> (r: Result<UnixPath, NoBaseDir>)
    ensures
        resolves(
            r,
            below(below(env.config_base(), APP_NAME@), "config.schema.json"@),
            "XDG_CONFIG_HOME"@,
        ),
{
    join_resolved(config_dir(env), "config.schema.json")
}

/// Where the voice registry is.
pub fn voices_dir(env: &Environment) -> (r: Result<UnixPath, NoBaseDir>)
    ensures
        resolves(r, below(below(env.data_base(), APP_NAME@), "voices"@), "XDG_DATA_HOME"@),
{
    join_resolved(data_dir(env), "voices")
}

/// An absolute override wins over everything else.
pub proof fn absolute_override_wins(
    dir: Seq<u8>,
    home: Option<Seq<u8>>,
    win_dir: Option<Seq<u8>>,
    is_windows: bool,
    unix_rel: Seq<u8>,
)
    requires
        is_absolute_path(dir),
    ensures
        base_of(Some(dir), home, win_dir, is_windows, unix_rel) == Some(dir),
{
}

/// A relative override is ignored.
pub proof fn relative_override_is_ignored(
    dir: Seq<u8>,
    home: Option<Seq<u8>>,
    win_dir: Option<Seq<u8>>,
    is_windows: bool,
    unix_rel: Seq<u8>,
)
    requires
        !is_absolute_path(dir),
    ensures
        base_of(Some(dir), home, win_dir, is_windows, unix_rel) == base_of(
            None,
            home,
            win_dir,
            is_windows,
            unix_rel,
        ),
{
}

/// Where the base directories are on Unix: an absolute override wins, and without one
/// each lies in its place below the home directory, if there is one.
pub proof fn unix_bases_lie_below_home(env: Environment)
    requires
        !env.is_windows,
    ensures
        ({
            let home = path_view(env.home);
            &&& lies_at(env.xdg_config_home, home, ".config"@, env.config_base())
            &&& lies_at(env.xdg_data_home, home, ".local/share"@, env.data_base())
            &&& lies_at(env.xdg_state_home, home, ".local/state"@, env.state_base())
            &&& lies_at(env.xdg_cache_home, home, ".cache"@, env.cache_base())
        }),
{
}

/// Whether `base` is an override that begins with a slash, or else `rel` below the home
/// directory, or else nothing.
pub open spec fn lies_at(
    xdg: Option<UnixPath>,
    home: Option<Seq<u8>>,
    rel: Seq<char>,
    base: Option<Seq<u8>>,
) -> bool {
    if xdg is Some && xdg->0@.len() > 0 && xdg->0@[0] == 0x2f {
        base == Some(xdg->0@)
    } else if home is None {
        base is None
    } else {
        base == Some(joined_path(home->0, encode_utf8(rel)))
    }
}

/// Where the base directories are on Windows without an override: configuration and
/// data in `APPDATA`, state and caches in `LOCALAPPDATA`, and never below `HOME`.
pub proof fn windows_bases_are_the_systems(env: Environment)
    requires
        env.is_windows,
    ensures
        env.xdg_config_home is None ==> env.config_base() == path_view(env.appdata),
        env.xdg_data_home is None ==> env.data_base() == path_view(env.appdata),
        env.xdg_state_home is None ==> env.state_base() == path_view(env.localappdata),
        env.xdg_cache_home is None ==> env.cache_base() == path_view(env.localappdata),
{
}

/// A directory below a base is the base, then the name; there is none without a base.
pub proof fn below_is_joined(base: Option<Seq<u8>>, name: Seq<char>)
    ensures
        base is None ==> below(base, name) is None,
        base matches Some(dir) ==> below(base, name) == Some(joined_path(dir, encode_utf8(name))),
{
}

/// What resolves is the path itself, and what does not names the variable.
pub proof fn resolving_is_exact(
    r: Result<UnixPath, NoBaseDir>,
    dir: Option<Seq<u8>>,
    variable: Seq<char>,
)
    requires
        resolves(r, dir, variable),
    ensures
        dir matches Some(d) ==> (r matches Ok(path) && path@ == d),
        dir is None ==> (r matches Err(e) && e.variable@ == variable && e.text()
            == "unable to determine base directory ("@ + variable + ")"@),
{
}

} // verus!
