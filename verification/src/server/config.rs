//! The server's configuration and the paths derived from the configuration and
//! cache directories.
use vstd::prelude::*;

verus! {

/// The program's name, used for its directories.
pub const PROGNAME: &'static str = "gcast";

/// The name of the configuration file.
pub const CONFIG_NAME: &'static str = "config.toml";

/// The configuration: the roots to search for files, the port to listen on, and
/// the programs to run.
#[derive(Debug)]
pub struct Config {
    root_dirs: Vec<String>,
    port: u16,
    poweroff_exe: String,
    refresh_cache_boot: bool,
    spotify: Spotify,
}

/// The programs that run Spotify.
#[derive(Debug)]
pub struct Spotify {
    executable: String,
    fullscreen_exe: String,
}

impl Config {
    /// The roots.
    pub closed spec fn roots_view(&self) -> Seq<Seq<char>> {
        self.root_dirs@.map_values(|s: String| s@)
    }

    /// The port.
    pub closed spec fn port_view(&self) -> u16 {
        self.port
    }

    /// The program that powers the machine off.
    pub closed spec fn poweroff_view(&self) -> Seq<char> {
        self.poweroff_exe@
    }

    /// Whether the cache is refreshed at start.
    pub closed spec fn refresh_view(&self) -> bool {
        self.refresh_cache_boot
    }

    /// The program that starts Spotify.
    pub closed spec fn spotify_view(&self) -> Seq<char> {
        self.spotify.executable@
    }

    /// The program that makes Spotify full screen.
    pub closed spec fn spotify_fullscreen_view(&self) -> Seq<char> {
        self.spotify.fullscreen_exe@
    }

    /// A configuration with the given settings.
    pub fn new(
        root_dirs: Vec<String>,
        port: u16,
        poweroff_exe: String,
        refresh_cache_boot: bool,
        spotify_exe: String,
        spotify_fullscreen_exe: String,
    ) -> (c: Self)
        ensures
            c.roots_view() == root_dirs@.map_values(|s: String| s@),
            c.port_view() == port,
            c.poweroff_view() == poweroff_exe@,
            c.refresh_view() == refresh_cache_boot,
            c.spotify_view() == spotify_exe@,
            c.spotify_fullscreen_view() == spotify_fullscreen_exe@,
    {
        Config {
            root_dirs,
            port,
            poweroff_exe,
            refresh_cache_boot,
            spotify: Spotify { executable: spotify_exe, fullscreen_exe: spotify_fullscreen_exe },
        }
    }
}

/// The roots to search for files.
pub fn root_dirs(conf: &Config) -> (r: &[String])
    ensures
        r@.map_values(|s: String| s@) == conf.roots_view(),
{
    conf.root_dirs.as_slice()
}

/// The port to listen on.
pub fn port(conf: &Config) -> (r: u16)
    ensures
        r == conf.port_view(),
{
    conf.port
}

/// The program that starts Spotify.
pub fn spotify_exe(conf: &Config) -> (r: &str)
    ensures
        r@ == conf.spotify_view(),
{
    conf.spotify.executable.as_str()
}

/// The program that makes Spotify full screen.
pub fn spotify_fullscreen_exe(conf: &Config) -> (r: &str)
    ensures
        r@ == conf.spotify_fullscreen_view(),
{
    conf.spotify.fullscreen_exe.as_str()
}

/// The program that powers the machine off.
pub fn poweroff_exe(conf: &Config) -> (r: &str)
    ensures
        r@ == conf.poweroff_view(),
{
    conf.poweroff_exe.as_str()
}

/// Whether the cache is refreshed at start.
pub fn refresh_cache_boot(conf: &Config) -> (r: bool)
    ensures
        r == conf.refresh_view(),
{
    conf.refresh_cache_boot
}

/// `base` joined with the relative path `name`, as `Path::join` does: a `/` is put
/// between them unless `base` is empty or already ends with one.
pub open spec fn joined(base: Seq<char>, name: Seq<char>) -> Seq<char> {
    if base.len() == 0 || base.last() == '/' {
        base + name
    } else {
        base + seq!['/'] + name
    }
}

/// `base` joined with the relative path `name` (see `joined`).
pub fn join_path(base: &str, name: &str) -> (r: String)
    ensures
        r@ == joined(base@, name@),
{
    let n = base.unicode_len();
    let mut r = String::from_str(base);
    if n > 0 && base.get_char(n - 1) != '/' {
        crate::text::push_char(&mut r, '/');
    }
    r.append(name);
    r
}

/// The directory of the program's configuration inside the user's configuration
/// directory.
pub fn conf_dir(config_base: &str) -> (r: String)
    ensures
        r@ == joined(config_base@, PROGNAME@),
{
    join_path(config_base, PROGNAME)
}

/// The directory of the program's cache inside the user's cache directory.
pub fn cache_dir(cache_base: &str) -> (r: String)
    ensures
        r@ == joined(cache_base@, PROGNAME@),
{
    join_path(cache_base, PROGNAME)
}

/// The configuration file inside the program's configuration directory.
pub fn config_file(conf_dir: &str) -> (r: String)
    ensures
        r@ == joined(conf_dir@, CONFIG_NAME@),
{
    join_path(conf_dir, CONFIG_NAME)
}

/// The configuration directory of the player, inside the program's
/// configuration directory.
pub fn mpv_conf_dir(conf_dir: &str) -> (r: String)
    ensures
        r@ == joined(conf_dir@, "mpv"@),
{
    join_path(conf_dir, "mpv")
}

/// The file cache, inside the program's cache directory.
pub fn cache_file(cache_dir: &str) -> (r: String)
    ensures
        r@ == joined(cache_dir@, "files_cache"@),
{
    join_path(cache_dir, "files_cache")
}

} // verus!
