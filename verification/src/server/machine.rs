//! The decisions of the server's state machine: the requests that reach it, the
//! state each one leads to, and the jumps by which a state hands over to
//! another. The caller receives the requests, runs the programs and the player,
//! and sends what each state shows.
use vstd::prelude::*;
use crate::server::front::{file_to_play, playable_file};
use crate::server::queue::InjectableQueue;

verus! {

/// A control message for the player.
#[derive(Debug, Clone, Copy, PartialEq, Eq, Structural)]
pub enum MpvControl {
    TogglePause,
    SetAudio(i64),
    VolumeUp,
    VolumeDown,
    ToggleMute,
    SubDelayEarlier,
    SubDelayLater,
    NextChapter,
    PrevChapter,
    SeekBack,
    SeekForward,
    SeekBackLong,
    SeekForwardLong,
    SetSub(i64),
    SubLarger,
    SubSmaller,
    SubMoveUp,
    SubMoveDown,
}

/// A request about the player.
#[derive(Debug)]
pub enum MpvStart {
    /// Play a URL, paused or not.
    Url { url: String, paused: bool },
    /// Play a file of the cache: its root and its path under that root.
    File { root: usize, path: String },
    /// Stop playing.
    Stop,
}

/// A request from a client.
#[derive(Debug)]
pub enum Request {
    Poweroff,
    Mpv(MpvStart),
    MpvControl(MpvControl),
    SpotifyStart,
    SpotifyStop,
    SpotifyFullscreen,
    FsStart,
    FsStop,
    FsRefreshCache,
    FsSearch,
    FsTree,
    /// Search the files for a query.
    Search(String),
    /// Enter a directory of the tree.
    Cd(usize),
    /// Leave the directory entered last.
    CdDotDot,
    PlayUrlStart,
    PlayUrlStop,
    ErrorMsgClose,
    /// Send the state shown last once more.
    SendStatus,
}

/// A jump from a state to another: to the player, or to an error message.
#[derive(Debug)]
pub enum Jump {
    Mpv(MpvStart),
    UserError { header: String, body: String },
}

/// The header of the error shown when the player fails.
pub const MPV_PLAY_ERROR: &'static str = "Mpv play";

/// The header of the error shown when the power-off program fails.
pub const POWEROFF_ERROR: &'static str = "Failed to run poweroff exe";

/// The header of the error shown when Spotify cannot be started.
pub const SPOTIFY_SPAWN_ERROR: &'static str = "Failed to spawn spotify";

/// The header of the error shown when the full-screen program fails.
pub const SPOTIFY_FULLSCREEN_ERROR: &'static str = "Failed to run spotify fullscreen exe";

/// The header of the error shown when a file to play names no root.
pub const NO_FILE_ERROR: &'static str = "Could not find file to play";

/// The body of the error shown when a file to play names no root.
pub const ROOT_RANGE_ERROR: &'static str = "Root dir is out of range";

/// The view of a request about the player.
pub enum MpvStartView {
    Url(Seq<char>, bool),
    File(usize, Seq<char>),
    Stop,
}

/// The view of a request about the player.
pub open spec fn mpv_start_view(m: MpvStart) -> MpvStartView {
    match m {
        MpvStart::Url { url, paused } => MpvStartView::Url(url@, paused),
        MpvStart::File { root, path } => MpvStartView::File(root, path@),
        MpvStart::Stop => MpvStartView::Stop,
    }
}

/// A jump to show an error message with the header and body given.
pub fn user_error(header: &str, body: String) -> (j: Jump)
    ensures
        j matches Jump::UserError { header: h, body: b } && h@ == header@ && b@ == body@,
{
    Jump::UserError { header: header.to_string(), body }
}

/// What the initial state does for a request.
#[derive(Debug)]
pub enum InitAction {
    /// Run the power-off program.
    Poweroff,
    /// Play a URL.
    MpvUrl { url: String, paused: bool },
    /// Play a file of the cache.
    MpvFile { root: usize, path: String },
    Spotify,
    Filer,
    PlayUrl,
    /// The request means nothing here.
    Invalid,
}

/// What the initial state does for a request: power off, or enter the state
/// that the request starts; any other request is invalid there.
pub fn init_action(req: &Request) -> (a: InitAction)
    ensures
        match *req {
            Request::Poweroff => a is Poweroff,
            Request::Mpv(MpvStart::Url { url, paused }) => a matches InitAction::MpvUrl {
                url: u,
                paused: p,
            } && u@ == url@ && p == paused,
            Request::Mpv(MpvStart::File { root, path }) => a matches InitAction::MpvFile {
                root: r,
                path: p,
            } && r == root && p@ == path@,
            Request::SpotifyStart => a is Spotify,
            Request::FsStart => a is Filer,
            Request::PlayUrlStart => a is PlayUrl,
            _ => a is Invalid,
        },
{
    match req {
        Request::Poweroff => InitAction::Poweroff,
        Request::Mpv(MpvStart::Url { url, paused }) => InitAction::MpvUrl {
            url: url.clone(),
            paused: *paused,
        },
        Request::Mpv(MpvStart::File { root, path }) => InitAction::MpvFile {
            root: *root,
            path: path.clone(),
        },
        Request::SpotifyStart => InitAction::Spotify,
        Request::FsStart => InitAction::Filer,
        Request::PlayUrlStart => InitAction::PlayUrl,
        _ => InitAction::Invalid,
    }
}

/// The initial state: the requests injected by jumps, handled before those
/// received.
pub struct InitState {
    queue: InjectableQueue<Request>,
}

impl InitState {
    /// The requests injected and not yet handled, oldest first.
    pub closed spec fn pending(&self) -> Seq<Request> {
        self.queue@
    }

    /// Nothing injected.
    pub fn new() -> (s: Self)
        ensures
            s.pending().len() == 0,
    {
        InitState { queue: InjectableQueue::new() }
    }

    /// The next injected request, if any; otherwise one is to be received.
    pub fn next_request(&mut self) -> (r: Option<Request>)
        ensures
            old(self).pending().len() == 0 ==> r is None && final(self).pending().len() == 0,
            old(self).pending().len() > 0 ==> r == Some(old(self).pending()[0])
                && final(self).pending() == old(self).pending().drop_first(),
    {
        self.queue.pop()
    }

    /// Takes the jump that ended a state: a jump to the player is injected as a
    /// request, to be handled next; a jump to an error message gives its header
    /// and body, to be shown.
    pub fn on_jump(&mut self, jump: Jump) -> (r: Option<(String, String)>)
        ensures
            match jump {
                Jump::Mpv(m) => r is None && final(self).pending() == old(self).pending().push(
                    Request::Mpv(m),
                ),
                Jump::UserError { header, body } => r == Some((header, body))
                    && final(self).pending() == old(self).pending(),
            },
    {
        match jump {
            Jump::Mpv(m) => {
                self.queue.inject(Request::Mpv(m));
                None
            },
            Jump::UserError { header, body } => Some((header, body)),
        }
    }
}

/// Whether a request asks for the state shown last once more, which is sent
/// again and not handed to the state.
pub fn wants_status(req: &Request) -> (b: bool)
    ensures
        b == (*req is SendStatus),
{
    matches!(req, Request::SendStatus)
}

/// What a state that waits for one request to leave does.
#[derive(Debug, Clone, Copy, PartialEq, Eq, Structural)]
pub enum Waiting {
    Leave,
    Invalid,
}

/// The error message waits for `ErrorMsgClose`; it leaves too when the
/// connection is gone (no request).
pub fn error_msg_step(req: Option<&Request>) -> (w: Waiting)
    ensures
        w == (if req is None || (req matches Some(r) && *r is ErrorMsgClose) {
            Waiting::Leave
        } else {
            Waiting::Invalid
        }),
{
    match req {
        None | Some(Request::ErrorMsgClose) => Waiting::Leave,
        _ => Waiting::Invalid,
    }
}

/// What the URL prompt does for a request.
#[derive(Debug)]
pub enum PlayUrlStep {
    Leave,
    Jump(Jump),
    Invalid,
}

/// The URL prompt jumps to the player on a URL, and leaves on `PlayUrlStop` or
/// when the connection is gone.
pub fn play_url_step(req: Option<&Request>) -> (s: PlayUrlStep)
    ensures
        match req {
            None => s is Leave,
            Some(Request::Mpv(MpvStart::Url { url, paused })) => s matches PlayUrlStep::Jump(
                Jump::Mpv(m),
            ) && mpv_start_view(m) == MpvStartView::Url(url@, *paused),
            Some(Request::PlayUrlStop) => s is Leave,
            _ => s is Invalid,
        },
{
    match req {
        None => PlayUrlStep::Leave,
        Some(Request::Mpv(MpvStart::Url { url, paused })) => PlayUrlStep::Jump(
            Jump::Mpv(MpvStart::Url { url: url.clone(), paused: *paused }),
        ),
        Some(Request::PlayUrlStop) => PlayUrlStep::Leave,
        _ => PlayUrlStep::Invalid,
    }
}

/// What Spotify's state does for a request.
#[derive(Debug, Clone, Copy, PartialEq, Eq, Structural)]
pub enum SpotifyStep {
    /// Kill Spotify, wait for it, and leave.
    Stop,
    /// Run the full-screen program.
    Fullscreen,
    Invalid,
}

/// Spotify is stopped on `SpotifyStop` or when the connection is gone, and
/// made full screen on `SpotifyFullscreen`.
pub fn spotify_step(req: Option<&Request>) -> (s: SpotifyStep)
    ensures
        s == match req {
            None => SpotifyStep::Stop,
            Some(Request::SpotifyStop) => SpotifyStep::Stop,
            Some(Request::SpotifyFullscreen) => SpotifyStep::Fullscreen,
            _ => SpotifyStep::Invalid,
        },
{
    match req {
        None | Some(Request::SpotifyStop) => SpotifyStep::Stop,
        Some(Request::SpotifyFullscreen) => SpotifyStep::Fullscreen,
        _ => SpotifyStep::Invalid,
    }
}

/// What the player's state does for a request.
#[derive(Debug, Clone, Copy, PartialEq, Eq, Structural)]
pub enum MpvStep {
    Leave,
    /// Send the control message to the player.
    Command(MpvControl),
    Invalid,
}

/// The player's state leaves on `Stop` or when the connection is gone, and
/// hands control messages to the player.
pub fn mpv_step(req: Option<&Request>) -> (s: MpvStep)
    ensures
        s == match req {
            None => MpvStep::Leave,
            Some(Request::Mpv(MpvStart::Stop)) => MpvStep::Leave,
            Some(Request::MpvControl(c)) => MpvStep::Command(*c),
            _ => MpvStep::Invalid,
        },
{
    match req {
        None | Some(Request::Mpv(MpvStart::Stop)) => MpvStep::Leave,
        Some(Request::MpvControl(c)) => MpvStep::Command(*c),
        _ => MpvStep::Invalid,
    }
}

/// The path of a file of the cache to play: its root's path followed by its
/// path under the root; a root out of range jumps to an error message.
pub fn mpv_file_path(roots: &[String], root: usize, path: &str) -> (r: Result<String, Jump>)
    requires
        playable_file(roots@.map_values(|s: String| s@), root, path@),
    ensures
        root < roots@.len() ==> (r matches Ok(p) && p@ == file_to_play(
            roots@.map_values(|s: String| s@),
            root,
            path@,
        )),
        root >= roots@.len() ==> (r matches Err(Jump::UserError { header, body }) && header@
            == NO_FILE_ERROR@ && body@ == ROOT_RANGE_ERROR@),
{
    if root >= roots.len() {
        return Err(user_error(NO_FILE_ERROR, ROOT_RANGE_ERROR.to_string()));
    }
    let mut full = roots[root].clone();
    full.append(path);
    proof {
        assert(roots@.map_values(|s: String| s@)[root as int] == roots@[root as int]@);
    }
    Ok(full)
}

} // verus!
