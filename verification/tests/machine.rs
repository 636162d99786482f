use gcast::server::cache::{loaded_cache, Cache, CacheRead};
use gcast::server::filer_machine::{
    create_tree_state, filer_search_step, filer_step, filer_tree_step, refreshed_step, FilerStep,
    SearchStep, TreeEntry, TreeStep,
};
use gcast::server::lang::Lang;
use gcast::server::machine::{
    error_msg_step, init_action, mpv_file_path, mpv_step, play_url_step, spotify_step,
    wants_status, InitAction, InitState, Jump, MpvControl, MpvStart, MpvStep, PlayUrlStep,
    Request, SpotifyStep, Waiting,
};
use gcast::server::node::{node_to_tracks, Node};
use gcast::server::player::{
    client_chapter, update_tracks, EndReason, MpvEvent, MpvFailure, MpvMachine, MpvOutcome,
    MpvPhase,
};
use gcast::server::process::{output_files, proc_next, ProcAction, ProcEvent, ProcPhase};
use gcast::server::refresh::{
    make_refreshing, probe_result, probe_start, shallow_begin, shallow_end, RootStatus,
};
use gcast::server::scan::create_cache_from_files;
use gcast::server::tracks::{Track, TrackType};
use gcast::server::tree::Tree;
use gcast::text::trim;

fn text(s: &str) -> Node {
    Node::Text(s.to_string())
}

fn track_node(id: i64, ty: &str, selected: bool, title: Option<&str>, lang: Option<&str>) -> Node {
    let mut m = vec![
        ("id".to_string(), Node::Int64(id)),
        ("type".to_string(), text(ty)),
        ("selected".to_string(), Node::Flag(selected)),
    ];
    if let Some(t) = title {
        m.push(("title".to_string(), text(t)));
    }
    if let Some(l) = lang {
        m.push(("lang".to_string(), text(l)));
    }
    Node::Table(m)
}

fn track(id: i64, ttype: TrackType, selected: bool, title: Option<&str>, lang: Option<&str>) -> Track {
    Track {
        id,
        ttype,
        lang: Lang::new(title.map(str::to_string), lang.map(str::to_string)),
        selected,
    }
}

#[test]
fn trimming() {
    assert_eq!(trim("  a b \t\n"), "a b");
    assert_eq!(trim(""), "");
    assert_eq!(trim(" \u{3000} "), "");
    assert_eq!(trim("x"), "x");
}

#[test]
fn tracks_from_the_track_list() {
    let list = Node::Array(vec![
        track_node(1, "video", true, None, None),
        track_node(2, "audio", false, Some("  Commentary "), Some("eng")),
        track_node(3, "sub", true, Some("   "), Some(" jpn ")),
        track_node(4, "unknown", true, None, None),
        Node::Int64(7),
        Node::Table(vec![("id".to_string(), Node::Int64(5)), ("type".to_string(), text("sub"))]),
        Node::Table(vec![
            ("id".to_string(), text("6")),
            ("type".to_string(), text("sub")),
            ("selected".to_string(), Node::Flag(false)),
        ]),
    ]);
    let tracks = node_to_tracks(&list);
    assert_eq!(
        tracks,
        vec![
            track(1, TrackType::Video, true, None, None),
            track(2, TrackType::Audio, false, Some("Commentary"), Some("eng")),
            track(3, TrackType::Sub, true, None, Some("jpn")),
        ]
    );
    assert!(node_to_tracks(&Node::Nothing).is_empty());
    assert!(node_to_tracks(&track_node(1, "video", true, None, None)).is_empty());
}

#[test]
fn updating_tracks_tells_whether_they_changed() {
    let list = Node::Array(vec![track_node(1, "sub", false, Some("Full"), Some("eng"))]);
    let mut tracks = Vec::new();
    assert!(update_tracks(&mut tracks, &list));
    assert_eq!(tracks, vec![track(1, TrackType::Sub, false, Some("Full"), Some("eng"))]);
    assert!(!update_tracks(&mut tracks, &list));
    let other = Node::Array(vec![track_node(1, "sub", true, Some("Full"), Some("eng"))]);
    assert!(update_tracks(&mut tracks, &other));
    assert!(update_tracks(&mut tracks, &Node::Other));
    assert!(tracks.is_empty());
}

#[test]
fn player_events() {
    let mut m = MpvMachine::new();
    assert_eq!(m.get_phase(), MpvPhase::Load);
    assert!(!m.is_over());
    assert_eq!(m.exit_reason(), EndReason::Quit);
    let tracks = vec![
        track(1, TrackType::Sub, false, Some("Signs"), Some("eng")),
        track(2, TrackType::Sub, false, Some("Full"), Some("eng")),
        track(3, TrackType::Audio, true, None, Some("eng")),
        track(4, TrackType::Audio, false, None, Some("jpn")),
    ];
    let change = MpvEvent::PropertyChange { track_list: true, changed: true };
    assert_eq!(m.next_step(change, &tracks), MpvOutcome::Wait);
    assert_eq!(m.next_step(MpvEvent::FileLoaded, &tracks), MpvOutcome::ObserveThenReport);
    assert_eq!(m.get_phase(), MpvPhase::Load);
    assert_eq!(m.next_step(change, &tracks), MpvOutcome::Wait);
    m.observed();
    assert_eq!(m.get_phase(), MpvPhase::Play);
    assert_eq!(
        m.next_step(change, &tracks),
        MpvOutcome::Choose { sub: Some(2), audio: Some(4), report: true }
    );
    assert_eq!(m.next_step(change, &tracks), MpvOutcome::Report);
    let quiet = MpvEvent::PropertyChange { track_list: false, changed: false };
    assert_eq!(m.next_step(quiet, &tracks), MpvOutcome::Wait);
    assert_eq!(m.next_step(MpvEvent::Log, &tracks), MpvOutcome::Wait);
    assert_eq!(
        m.next_step(MpvEvent::SetProperty { error: true }, &tracks),
        MpvOutcome::Fail(MpvFailure::SetProperty)
    );
    assert_eq!(m.next_step(MpvEvent::Command { error: false }, &tracks), MpvOutcome::Wait);
    assert_eq!(
        m.next_step(MpvEvent::GetPropertyError, &tracks),
        MpvOutcome::Fail(MpvFailure::GetProperty)
    );
    assert_eq!(
        m.next_step(MpvEvent::EndFile { reason: EndReason::Eof, error: false }, &tracks),
        MpvOutcome::Finish
    );
    assert!(m.is_over());
    assert_eq!(m.exit_reason(), EndReason::Eof);

    let mut m = MpvMachine::new();
    assert_eq!(
        m.next_step(MpvEvent::EndFile { reason: EndReason::Error, error: true }, &tracks),
        MpvOutcome::Fail(MpvFailure::EndFile)
    );
    assert_eq!(m.exit_reason(), EndReason::Error);
    let mut m = MpvMachine::new();
    assert_eq!(m.next_step(MpvEvent::Shutdown, &tracks), MpvOutcome::Finish);
    assert_eq!(m.get_phase(), MpvPhase::End(EndReason::Quit));
}

#[test]
fn chapters_count_from_one() {
    assert_eq!(client_chapter(0, 3), Some((1, 3)));
    assert_eq!(client_chapter(2, 3), Some((3, 3)));
    assert_eq!(client_chapter(-1, 0), None);
}

#[test]
fn initial_state_requests() {
    assert!(matches!(init_action(&Request::Poweroff), InitAction::Poweroff));
    let url = Request::Mpv(MpvStart::Url { url: "http://x".to_string(), paused: true });
    assert!(
        matches!(init_action(&url), InitAction::MpvUrl { url, paused: true } if url == "http://x")
    );
    let file = Request::Mpv(MpvStart::File { root: 1, path: "/a.mkv".to_string() });
    assert!(
        matches!(init_action(&file), InitAction::MpvFile { root: 1, path } if path == "/a.mkv")
    );
    assert!(matches!(init_action(&Request::SpotifyStart), InitAction::Spotify));
    assert!(matches!(init_action(&Request::FsStart), InitAction::Filer));
    assert!(matches!(init_action(&Request::PlayUrlStart), InitAction::PlayUrl));
    assert!(matches!(init_action(&Request::FsStop), InitAction::Invalid));
    assert!(matches!(init_action(&Request::Mpv(MpvStart::Stop)), InitAction::Invalid));
    assert!(wants_status(&Request::SendStatus));
    assert!(!wants_status(&Request::Poweroff));
}

#[test]
fn jumps_to_the_player_are_handled_first() {
    let mut init = InitState::new();
    assert!(init.next_request().is_none());
    let shown = init.on_jump(Jump::UserError { header: "h".to_string(), body: "b".to_string() });
    assert_eq!(shown, Some(("h".to_string(), "b".to_string())));
    assert!(init.next_request().is_none());
    let jump = Jump::Mpv(MpvStart::Url { url: "u".to_string(), paused: false });
    assert_eq!(init.on_jump(jump), None);
    assert!(matches!(
        init.next_request(),
        Some(Request::Mpv(MpvStart::Url { url, paused: false })) if url == "u"
    ));
    assert!(init.next_request().is_none());
}

#[test]
fn state_steps() {
    assert_eq!(error_msg_step(None), Waiting::Leave);
    assert_eq!(error_msg_step(Some(&Request::ErrorMsgClose)), Waiting::Leave);
    assert_eq!(error_msg_step(Some(&Request::FsStop)), Waiting::Invalid);

    let url = Request::Mpv(MpvStart::Url { url: "u".to_string(), paused: true });
    assert!(matches!(
        play_url_step(Some(&url)),
        PlayUrlStep::Jump(Jump::Mpv(MpvStart::Url { url, paused: true })) if url == "u"
    ));
    assert!(matches!(play_url_step(Some(&Request::PlayUrlStop)), PlayUrlStep::Leave));
    assert!(matches!(play_url_step(None), PlayUrlStep::Leave));
    assert!(matches!(play_url_step(Some(&Request::FsStart)), PlayUrlStep::Invalid));

    assert_eq!(spotify_step(None), SpotifyStep::Stop);
    assert_eq!(spotify_step(Some(&Request::SpotifyStop)), SpotifyStep::Stop);
    assert_eq!(spotify_step(Some(&Request::SpotifyFullscreen)), SpotifyStep::Fullscreen);
    assert_eq!(spotify_step(Some(&Request::SpotifyStart)), SpotifyStep::Invalid);

    assert_eq!(mpv_step(None), MpvStep::Leave);
    assert_eq!(mpv_step(Some(&Request::Mpv(MpvStart::Stop))), MpvStep::Leave);
    assert_eq!(
        mpv_step(Some(&Request::MpvControl(MpvControl::SetSub(3)))),
        MpvStep::Command(MpvControl::SetSub(3))
    );
    assert_eq!(mpv_step(Some(&Request::CdDotDot)), MpvStep::Invalid);

    assert_eq!(filer_step(Some(&Request::FsRefreshCache)), FilerStep::RefreshCache);
    assert_eq!(filer_step(Some(&Request::FsSearch)), FilerStep::Search);
    assert_eq!(filer_step(Some(&Request::FsTree)), FilerStep::Tree);
    assert_eq!(filer_step(Some(&Request::FsStop)), FilerStep::Leave);
    assert_eq!(filer_step(None), FilerStep::Leave);
    assert_eq!(filer_step(Some(&Request::Poweroff)), FilerStep::Invalid);
    assert_eq!(refreshed_step(Some(&Request::FsStop)), Waiting::Leave);
    assert_eq!(refreshed_step(Some(&Request::FsTree)), Waiting::Invalid);
}

#[test]
fn file_paths_to_play() {
    let roots = vec!["/media/a".to_string(), "/media/b".to_string()];
    assert_eq!(mpv_file_path(&roots, 1, "/x/y.mkv").ok(), Some("/media/b/x/y.mkv".to_string()));
    match mpv_file_path(&roots, 2, "/x/y.mkv") {
        Err(Jump::UserError { header, body }) => {
            assert_eq!(header, "Could not find file to play");
            assert_eq!(body, "Root dir is out of range");
        }
        _ => panic!("expected an error message"),
    }
}

fn found(list: &[(usize, &str)]) -> Vec<(usize, String)> {
    list.iter().map(|(i, p)| (*i, p.to_string())).collect()
}

fn small_cache() -> Cache {
    let roots = vec!["/m/a".to_string(), "/m/b".to_string()];
    let dirs = found(&[(0, "/m/a/x")]);
    let files = found(&[(0, "/m/a/x/v.mp4"), (0, "/m/a/top.mkv"), (1, "/m/b/w.avi")]);
    create_cache_from_files(&files, &dirs, roots)
}

#[test]
fn searching_and_browsing_steps() {
    let cache = small_cache();
    match filer_search_step(Some(&Request::Search("top".to_string())), &cache) {
        SearchStep::Send(res) => {
            assert!(res.query_valid);
            assert_eq!(res.query, "top");
            assert_eq!(res.results.len(), 1);
            assert_eq!(res.results[0].path, "/top.mkv");
        }
        _ => panic!("expected results"),
    }
    let play = Request::Mpv(MpvStart::File { root: 0, path: "/top.mkv".to_string() });
    assert!(matches!(
        filer_search_step(Some(&play), &cache),
        SearchStep::Jump(Jump::Mpv(MpvStart::File { root: 0, path })) if path == "/top.mkv"
    ));
    assert!(matches!(filer_search_step(None, &cache), SearchStep::Leave));
    assert!(matches!(filer_search_step(Some(&Request::CdDotDot), &cache), SearchStep::Invalid));

    let mut tree = Tree::new(&cache);
    let shown = create_tree_state(&tree);
    assert!(shown.breadcrumbs.is_empty());
    assert!(matches!(&shown.contents[..], [
        TreeEntry::Dir { name: a, id: 0 },
        TreeEntry::Dir { name: b, id: 1 },
    ] if a == "/m/a" && b == "/m/b"));
    assert!(matches!(filer_tree_step(&mut tree, Some(&Request::CdDotDot)), TreeStep::CdUpRefused));
    assert!(matches!(filer_tree_step(&mut tree, Some(&Request::Cd(0))), TreeStep::Show));
    let shown = create_tree_state(&tree);
    assert_eq!(shown.breadcrumbs, vec!["/m/a".to_string()]);
    assert!(matches!(&shown.contents[..], [
        TreeEntry::Dir { name: x, id: 2 },
        TreeEntry::File { path, root: 0, name },
    ] if x == "x" && path == "/top.mkv" && name == "top.mkv"));
    assert!(matches!(filer_tree_step(&mut tree, Some(&Request::Cd(42))), TreeStep::CdRefused));
    assert!(matches!(filer_tree_step(&mut tree, Some(&Request::CdDotDot)), TreeStep::Show));
    assert!(matches!(filer_tree_step(&mut tree, Some(&Request::FsStop)), TreeStep::Leave));
    assert!(matches!(filer_tree_step(&mut tree, Some(&play)), TreeStep::Jump(_)));
}

#[test]
fn reading_the_saved_cache() {
    let roots = vec!["/m/a".to_string(), "/m/b".to_string()];
    let kept = loaded_cache::<String>(CacheRead::Read(small_cache()), &roots).unwrap();
    assert_eq!(kept.files().len(), 3);
    let other = vec!["/m/a".to_string()];
    let dropped = loaded_cache::<String>(CacheRead::Read(small_cache()), &other).unwrap();
    assert!(dropped.files().is_empty());
    assert!(dropped.updated().is_none());
    assert!(loaded_cache::<String>(CacheRead::Missing, &roots).unwrap().files().is_empty());
    assert_eq!(
        loaded_cache(CacheRead::Failed("broken".to_string()), &roots).err(),
        Some("broken".to_string())
    );
}

#[test]
fn refresh_progress() {
    let roots = vec!["/a".to_string(), "/b".to_string()];
    let mut status = vec![RootStatus::Pending, RootStatus::Pending];
    probe_start(&mut status);
    assert_eq!(status, vec![RootStatus::Loading, RootStatus::Loading]);
    probe_result(&mut status, 0, true);
    probe_result(&mut status, 1, false);
    assert_eq!(status, vec![RootStatus::Pending, RootStatus::Error]);
    assert!(shallow_begin(&mut status, 0));
    assert_eq!(status[0], RootStatus::Loading);
    assert!(!shallow_begin(&mut status, 1));
    shallow_end(&mut status, 0, true);
    assert_eq!(status, vec![RootStatus::Done, RootStatus::Error]);
    let r = make_refreshing(3, 7, &roots, &status, 2, false);
    assert_eq!(r.roots.len(), 2);
    assert_eq!(r.roots[1].path, "/b");
    assert_eq!(r.roots[1].status, RootStatus::Error);
    assert_eq!((r.done_dirs, r.total_dirs, r.num_errors, r.is_done), (3, 7, 2, false));
}

#[test]
fn stopping_a_program() {
    assert_eq!(
        output_files("/tmp", "spotify"),
        ("/tmp/gcast_spotify.stdout".to_string(), "/tmp/gcast_spotify.stderr".to_string())
    );
    let (p, a) = proc_next(ProcPhase::Running, ProcEvent::KillRequested);
    assert_eq!((p, a), (ProcPhase::Terminating, ProcAction::Terminate));
    let (p, a) = proc_next(p, ProcEvent::TimedOut);
    assert_eq!((p, a), (ProcPhase::Killing, ProcAction::Kill));
    let (p, a) = proc_next(p, ProcEvent::Exited);
    assert_eq!((p, a), (ProcPhase::Exited, ProcAction::Report));
    assert_eq!(proc_next(p, ProcEvent::KillRequested), (ProcPhase::Exited, ProcAction::Wait));
    assert_eq!(
        proc_next(ProcPhase::Running, ProcEvent::TimedOut),
        (ProcPhase::Running, ProcAction::Wait)
    );
    assert_eq!(
        proc_next(ProcPhase::Terminating, ProcEvent::Exited),
        (ProcPhase::Exited, ProcAction::Report)
    );
}
