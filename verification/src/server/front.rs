//! The decisions of the front end: which job runs in front (Spotify, the player,
//! the file search, a URL prompt, an error message, or nothing), which requests
//! it honours, and what has to be done for each.
use vstd::prelude::*;
use crate::server::config::{Config, poweroff_exe, root_dirs, spotify_fullscreen_exe};

verus! {

/// The job that runs in front.
#[derive(Debug, Clone, Copy, PartialEq, Eq, Structural)]
pub enum FrontKind {
    Spotify,
    Mpv,
    Filer,
    PlayUrl,
    ErrorMsg,
    Nothing,
}

/// The job to start in front.
#[derive(Debug, Clone, PartialEq, Eq)]
pub enum Target {
    Spotify,
    /// The player, on a URL or a file path.
    Mpv(String),
    Filer,
    PlayUrl,
    ErrorMsg { header: String, body: String },
    Nothing,
}

/// What has to be done for a request.
#[derive(Debug, Clone, PartialEq, Eq)]
pub enum FrontAction {
    /// Nothing: the request does not fit what runs in front.
    Ignore,
    /// Stop the job in front, wait for it, and start another.
    Transition(Target),
    /// Run a program to its end; show an error message when it fails.
    RunOneshot(String),
    /// Hand the control message to the job in front.
    Forward,
}

/// The kind of job a target starts.
pub open spec fn target_kind(t: Target) -> FrontKind {
    match t {
        Target::Spotify => FrontKind::Spotify,
        Target::Mpv(_) => FrontKind::Mpv,
        Target::Filer => FrontKind::Filer,
        Target::PlayUrl => FrontKind::PlayUrl,
        Target::ErrorMsg { .. } => FrontKind::ErrorMsg,
        Target::Nothing => FrontKind::Nothing,
    }
}

/// `s` starts with `http`.
pub open spec fn starts_with_http(s: Seq<char>) -> bool {
    s.len() >= 4 && s[0] == 'h' && s[1] == 't' && s[2] == 't' && s[3] == 'p'
}

/// The state of the front: the kind of job that runs there.
pub struct FrontState {
    kind: FrontKind,
}

impl FrontState {
    /// The kind of job in front.
    pub closed spec fn kind(&self) -> FrontKind {
        self.kind
    }

    /// Nothing in front.
    pub fn new() -> (s: Self)
        ensures
            s.kind() == FrontKind::Nothing,
    {
        FrontState { kind: FrontKind::Nothing }
    }

    /// The name of the job in front.
    pub fn name(&self) -> (r: &'static str)
        ensures
            r@ == match self.kind() {
                FrontKind::Spotify => "spotify"@,
                FrontKind::Mpv => "mpv"@,
                FrontKind::PlayUrl => "play url"@,
                FrontKind::Filer => "filesearch"@,
                FrontKind::ErrorMsg => "error message"@,
                FrontKind::Nothing => "nothing"@,
            },
    {
        match self.kind {
            FrontKind::Spotify => "spotify",
            FrontKind::Mpv => "mpv",
            FrontKind::PlayUrl => "play url",
            FrontKind::Filer => "filesearch",
            FrontKind::ErrorMsg => "error message",
            FrontKind::Nothing => "nothing",
        }
    }

    /// Some job runs in front.
    pub fn is_something(&self) -> (b: bool)
        ensures
            b == (self.kind() != FrontKind::Nothing),
    {
        !self.is_none()
    }

    /// Nothing runs in front.
    pub fn is_none(&self) -> (b: bool)
        ensures
            b == (self.kind() == FrontKind::Nothing),
    {
        self.kind == FrontKind::Nothing
    }

    /// Spotify runs in front.
    pub fn is_spotify(&self) -> (b: bool)
        ensures
            b == (self.kind() == FrontKind::Spotify),
    {
        self.kind == FrontKind::Spotify
    }

    /// The player runs in front.
    pub fn is_mpv(&self) -> (b: bool)
        ensures
            b == (self.kind() == FrontKind::Mpv),
    {
        self.kind == FrontKind::Mpv
    }

    /// The file search runs in front.
    pub fn is_filer(&self) -> (b: bool)
        ensures
            b == (self.kind() == FrontKind::Filer),
    {
        self.kind == FrontKind::Filer
    }

    /// The URL prompt runs in front.
    pub fn is_play_url(&self) -> (b: bool)
        ensures
            b == (self.kind() == FrontKind::PlayUrl),
    {
        self.kind == FrontKind::PlayUrl
    }

    /// An error message is shown in front.
    pub fn is_error_message(&self) -> (b: bool)
        ensures
            b == (self.kind() == FrontKind::ErrorMsg),
    {
        self.kind == FrontKind::ErrorMsg
    }

    fn transition(&mut self, target: Target) -> (a: FrontAction)
        ensures
            final(self).kind() == target_kind(target),
            a == FrontAction::Transition(target),
    {
        self.kind = match &target {
            Target::Spotify => FrontKind::Spotify,
            Target::Mpv(_) => FrontKind::Mpv,
            Target::Filer => FrontKind::Filer,
            Target::PlayUrl => FrontKind::PlayUrl,
            Target::ErrorMsg { .. } => FrontKind::ErrorMsg,
            Target::Nothing => FrontKind::Nothing,
        };
        FrontAction::Transition(target)
    }

    /// Stops whatever runs in front.
    pub fn kill(&mut self) -> (a: FrontAction)
        ensures
            final(self).kind() == FrontKind::Nothing,
            a == FrontAction::Transition(Target::Nothing),
    {
        self.transition(Target::Nothing)
    }

    /// Shows an error message in front, whatever runs there.
    pub fn error_message_str(&mut self, header: String, body: String) -> (a: FrontAction)
        ensures
            final(self).kind() == FrontKind::ErrorMsg,
            a == FrontAction::Transition(Target::ErrorMsg { header, body }),
    {
        self.transition(Target::ErrorMsg { header, body })
    }

    /// Starts Spotify, when nothing runs in front.
    pub fn start_spotify(&mut self) -> (a: FrontAction)
        ensures
            old(self).kind() == FrontKind::Nothing ==> final(self).kind() == FrontKind::Spotify && a
                == FrontAction::Transition(Target::Spotify),
            old(self).kind() != FrontKind::Nothing ==> final(self).kind() == old(self).kind() && a
                == FrontAction::Ignore,
    {
        if !self.is_none() {
            return FrontAction::Ignore;
        }
        self.transition(Target::Spotify)
    }

    /// Stops Spotify, when it runs in front.
    pub fn stop_spotify(&mut self) -> (a: FrontAction)
        ensures
            old(self).kind() == FrontKind::Spotify ==> final(self).kind() == FrontKind::Nothing && a
                == FrontAction::Transition(Target::Nothing),
            old(self).kind() != FrontKind::Spotify ==> final(self).kind() == old(self).kind() && a
                == FrontAction::Ignore,
    {
        if !self.is_spotify() {
            return FrontAction::Ignore;
        }
        self.kill()
    }

    /// Starts the URL prompt, when nothing runs in front.
    pub fn start_play_url(&mut self) -> (a: FrontAction)
        ensures
            old(self).kind() == FrontKind::Nothing ==> final(self).kind() == FrontKind::PlayUrl && a
                == FrontAction::Transition(Target::PlayUrl),
            old(self).kind() != FrontKind::Nothing ==> final(self).kind() == old(self).kind() && a
                == FrontAction::Ignore,
    {
        if !self.is_none() {
            return FrontAction::Ignore;
        }
        self.transition(Target::PlayUrl)
    }

    /// Stops the URL prompt, when it runs in front.
    pub fn stop_play_url(&mut self) -> (a: FrontAction)
        ensures
            old(self).kind() == FrontKind::PlayUrl ==> final(self).kind() == FrontKind::Nothing && a
                == FrontAction::Transition(Target::Nothing),
            old(self).kind() != FrontKind::PlayUrl ==> final(self).kind() == old(self).kind() && a
                == FrontAction::Ignore,
    {
        if !self.is_play_url() {
            return FrontAction::Ignore;
        }
        self.kill()
    }

    /// Plays a URL, when nothing or the URL prompt runs in front; a URL that does
    /// not start with `http` gives an error message instead.
    pub fn start_mpv_url(&mut self, url: String) -> (a: FrontAction)
        ensures
            !(old(self).kind() == FrontKind::Nothing || old(self).kind() == FrontKind::PlayUrl) ==> final(self).kind() == old(self).kind() && a == FrontAction::Ignore,
            (old(self).kind() == FrontKind::Nothing || old(self).kind() == FrontKind::PlayUrl)
                && !starts_with_http(url@) ==> (final(self).kind() == FrontKind::ErrorMsg && (
            a matches FrontAction::Transition(Target::ErrorMsg { header, body }) && header@
                == "Not a valid URL"@ && body@.len() == 0)),
            (old(self).kind() == FrontKind::Nothing || old(self).kind() == FrontKind::PlayUrl)
                && starts_with_http(url@) ==> final(self).kind() == FrontKind::Mpv && a
                == FrontAction::Transition(Target::Mpv(url)),
    {
        if !(self.is_none() || self.is_play_url()) {
            return FrontAction::Ignore;
        }
        let n = url.as_str().unicode_len();
        let is_http = n >= 4 && url.as_str().get_char(0) == 'h' && url.as_str().get_char(1) == 't'
            && url.as_str().get_char(2) == 't' && url.as_str().get_char(3) == 'p';
        if !is_http {
            proof {
                reveal_strlit("Not a valid URL");
                reveal_strlit("");
            }
            self.error_message_str(String::from_str("Not a valid URL"), String::from_str(""))
        } else {
            self.transition(Target::Mpv(url))
        }
    }

    /// Stops the player, when it runs in front.
    pub fn stop_mpv(&mut self) -> (a: FrontAction)
        ensures
            old(self).kind() == FrontKind::Mpv ==> final(self).kind() == FrontKind::Nothing && a
                == FrontAction::Transition(Target::Nothing),
            old(self).kind() != FrontKind::Mpv ==> final(self).kind() == old(self).kind() && a
                == FrontAction::Ignore,
    {
        if !self.is_mpv() {
            return FrontAction::Ignore;
        }
        self.kill()
    }

    /// Starts the file search, when nothing runs in front.
    pub fn start_filer(&mut self) -> (a: FrontAction)
        ensures
            old(self).kind() == FrontKind::Nothing ==> final(self).kind() == FrontKind::Filer && a
                == FrontAction::Transition(Target::Filer),
            old(self).kind() != FrontKind::Nothing ==> final(self).kind() == old(self).kind() && a
                == FrontAction::Ignore,
    {
        if !self.is_none() {
            return FrontAction::Ignore;
        }
        self.transition(Target::Filer)
    }

    /// Stops the file search, when it runs in front.
    pub fn stop_filer(&mut self) -> (a: FrontAction)
        ensures
            old(self).kind() == FrontKind::Filer ==> final(self).kind() == FrontKind::Nothing && a
                == FrontAction::Transition(Target::Nothing),
            old(self).kind() != FrontKind::Filer ==> final(self).kind() == old(self).kind() && a
                == FrontAction::Ignore,
    {
        if !self.is_filer() {
            return FrontAction::Ignore;
        }
        self.kill()
    }

    /// Closes the error message, when one is shown in front.
    pub fn close_error_message(&mut self) -> (a: FrontAction)
        ensures
            old(self).kind() == FrontKind::ErrorMsg ==> final(self).kind() == FrontKind::Nothing && a
                == FrontAction::Transition(Target::Nothing),
            old(self).kind() != FrontKind::ErrorMsg ==> final(self).kind() == old(self).kind() && a
                == FrontAction::Ignore,
    {
        if !self.is_error_message() {
            return FrontAction::Ignore;
        }
        self.kill()
    }

    /// Powers the machine off (runs the configured program), when nothing runs in
    /// front.
    pub fn powerctrl(&mut self, conf: &Config) -> (a: FrontAction)
        ensures
            final(self).kind() == old(self).kind(),
            old(self).kind() == FrontKind::Nothing ==> (a matches FrontAction::RunOneshot(exe)
                && exe@ == conf.poweroff_view()),
            old(self).kind() != FrontKind::Nothing ==> a == FrontAction::Ignore,
    {
        if !self.is_none() {
            return FrontAction::Ignore;
        }
        FrontAction::RunOneshot(String::from_str(poweroff_exe(conf)))
    }

    /// Makes Spotify full screen (runs the configured program), when it runs in
    /// front.
    pub fn send_spotify_ctrl(&mut self, conf: &Config) -> (a: FrontAction)
        ensures
            final(self).kind() == old(self).kind(),
            old(self).kind() == FrontKind::Spotify ==> (a matches FrontAction::RunOneshot(exe)
                && exe@ == conf.spotify_fullscreen_view()),
            old(self).kind() != FrontKind::Spotify ==> a == FrontAction::Ignore,
    {
        if !self.is_spotify() {
            return FrontAction::Ignore;
        }
        FrontAction::RunOneshot(String::from_str(spotify_fullscreen_exe(conf)))
    }

    /// Hands a control message to the player, when it runs in front.
    pub fn send_mpv_ctrl(&self) -> (a: FrontAction)
        ensures
            self.kind() == FrontKind::Mpv ==> a == FrontAction::Forward,
            self.kind() != FrontKind::Mpv ==> a == FrontAction::Ignore,
    {
        if !self.is_mpv() {
            return FrontAction::Ignore;
        }
        FrontAction::Forward
    }

    /// Hands a control message to the file search, when it runs in front.
    pub fn send_filer_ctrl(&self) -> (a: FrontAction)
        ensures
            self.kind() == FrontKind::Filer ==> a == FrontAction::Forward,
            self.kind() != FrontKind::Filer ==> a == FrontAction::Ignore,
    {
        if !self.is_filer() {
            return FrontAction::Ignore;
        }
        FrontAction::Forward
    }
}

/// The path of a file to play: its root's path followed by its path relative to
/// the root.
pub open spec fn file_to_play(roots: Seq<Seq<char>>, root: usize, path: Seq<char>) -> Seq<char> {
    roots[root as int] + path
}

/// A file to play names a path that starts with `/` under a root that does not
/// end with `/`.
pub open spec fn playable_file(roots: Seq<Seq<char>>, root: usize, path: Seq<char>) -> bool {
    root < roots.len() ==> (path.len() > 0 && path[0] == '/' && (roots[root as int].len() == 0
        || roots[root as int].last() != '/'))
}

impl FrontState {
    /// Plays a file of the cache, when nothing or the file search runs in front; a
    /// root out of range gives an error message instead.
    pub fn start_mpv_file(&mut self, conf: &Config, root: usize, path: String) -> (a: FrontAction)
        requires
            (old(self).kind() == FrontKind::Nothing || old(self).kind() == FrontKind::Filer)
                ==> playable_file(conf.roots_view(), root, path@),
        ensures
            !(old(self).kind() == FrontKind::Nothing || old(self).kind() == FrontKind::Filer) ==> final(self).kind() == old(self).kind() && a == FrontAction::Ignore,
            (old(self).kind() == FrontKind::Nothing || old(self).kind() == FrontKind::Filer) && root
                >= conf.roots_view().len() ==> (final(self).kind() == FrontKind::ErrorMsg
                && (a matches FrontAction::Transition(Target::ErrorMsg { header, body }) && header@
                == "Could not find file to play"@ && body@
                == "Root dir is out of range, try to refresh the cache"@)),
            (old(self).kind() == FrontKind::Nothing || old(self).kind() == FrontKind::Filer) && root
                < conf.roots_view().len() ==> (final(self).kind() == FrontKind::Mpv
                && (a matches FrontAction::Transition(Target::Mpv(p)) && p@ == file_to_play(
                conf.roots_view(),
                root,
                path@,
            ))),
    {
        if !(self.is_none() || self.is_filer()) {
            return FrontAction::Ignore;
        }
        let roots = root_dirs(conf);
        if root >= roots.len() {
            proof {
                reveal_strlit("Could not find file to play");
                reveal_strlit("Root dir is out of range, try to refresh the cache");
            }
            return self.error_message_str(
                String::from_str("Could not find file to play"),
                String::from_str("Root dir is out of range, try to refresh the cache"),
            );
        }
        let mut full = roots[root].clone();
        full.append(path.as_str());
        proof {
            assert(roots@.map_values(|s: String| s@)[root as int] == roots@[root as int]@);
        }
        self.transition(Target::Mpv(full))
    }
}

} // verus!
