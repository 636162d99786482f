use gcast::server::cache::{Cache, Pointer};
use gcast::server::config::{
    cache_dir, cache_file, conf_dir, config_file, join_path, mpv_conf_dir, poweroff_exe, port,
    refresh_cache_boot, root_dirs, spotify_exe, spotify_fullscreen_exe, Config,
};
use gcast::server::filesearch::search_files;
use gcast::server::front::{FrontAction, FrontKind, FrontState, Target};
use gcast::server::job::{end_of_job, JobExited, JobMsg, OtherEndClosed, ProcessError, Slot};
use gcast::server::paths::{basename, dirname};
use gcast::server::queue::InjectableQueue;
use gcast::server::scan::{
    create_cache_from_files, has_whitelisted_extension, link, surface_scan,
};
use gcast::server::tree::{Tree, Type};

fn roots() -> Vec<String> {
    vec!["/media/a".to_string(), "/media/b".to_string()]
}

fn found(list: &[(usize, &str)]) -> Vec<(usize, String)> {
    list.iter().map(|(i, p)| (*i, p.to_string())).collect()
}

fn sample_cache() -> Cache {
    let dirs = found(&[(0, "/media/a/x"), (0, "/media/a/x/y"), (1, "/media/b/z")]);
    let files = found(&[
        (0, "/media/a/x/v.mp4"),
        (0, "/media/a/top.mkv"),
        (0, "/media/a/x/notes.txt"),
        (1, "/media/b/z/w.avi"),
        (0, "/media/a/x/y/q.webm"),
    ]);
    create_cache_from_files(&files, &dirs, roots())
}

#[test]
fn whitelisted_extensions() {
    assert!(has_whitelisted_extension("/a/b.mp4"));
    assert!(has_whitelisted_extension("x.webm"));
    assert!(!has_whitelisted_extension("/a/b.mp3"));
    assert!(!has_whitelisted_extension("mp4"));
}

#[test]
fn cache_from_found_paths() {
    let cache = sample_cache();
    let files: Vec<(String, usize)> = cache
        .files()
        .iter()
        .map(|e| (e.path_relative_root().to_string(), e.root()))
        .collect();
    assert_eq!(
        files,
        vec![
            ("/top.mkv".to_string(), 0),
            ("/x/v.mp4".to_string(), 0),
            ("/x/y/q.webm".to_string(), 0),
            ("/z/w.avi".to_string(), 1),
        ]
    );
    assert_eq!(cache.roots(), &[Pointer::Dir(0), Pointer::Dir(1)]);
    assert_eq!(cache.roots_path(), &roots()[..]);
    assert!(!cache.is_outdated(&roots()));
    assert!(cache.is_outdated(&["/media/a".to_string()]));
    assert!(cache.updated().is_some());
    assert!(Cache::default().updated().is_none());

    let dir = |i: usize| cache.deref_dir(Pointer::Dir(i)).unwrap();
    assert_eq!(dir(0).path_relative_root(), "/");
    assert_eq!(dir(0).root(), 0);
    assert_eq!(dir(1).path_relative_root(), "/");
    assert_eq!(dir(1).root(), 1);
    assert_eq!(dir(2).path_relative_root(), "/x");
    assert_eq!(dir(0).children(), &[Pointer::Dir(2), Pointer::File(0)]);
    assert_eq!(dir(1).children(), &[Pointer::Dir(4)]);
    assert_eq!(dir(2).children(), &[Pointer::Dir(3), Pointer::File(1)]);
    assert_eq!(dir(3).children(), &[Pointer::File(2)]);
    assert_eq!(dir(4).children(), &[Pointer::File(3)]);
    assert!(cache.deref(Pointer::File(9)).is_none());
    assert!(cache.deref_dir(Pointer::File(0)).is_none());
    assert_eq!(cache.deref_file(Pointer::File(1)).unwrap().basename_char(), 2);
    assert_eq!(cache.root_path(dir(1).cache_entry()), "/media/b");
}

#[test]
fn linking_children() {
    let roots = roots();
    let dirs = surface_scan(&roots);
    let (children, top) = link(&[], &dirs);
    assert_eq!(children, vec![Vec::<Pointer>::new(), Vec::new()]);
    assert_eq!(top, vec![0, 1]);
}

#[test]
fn browsing_the_tree() {
    let cache = sample_cache();
    let mut tree = Tree::new(&cache);
    assert_eq!(tree.root(), None);
    assert!(tree.breadcrumbs().is_empty());
    let top: Vec<(String, String, bool, usize)> = tree
        .files()
        .iter()
        .map(|f| (f.name.to_string(), f.path_relative_root.to_string(), matches!(f.ty, Type::Root), f.id))
        .collect();
    assert_eq!(
        top,
        vec![
            ("/media/a".to_string(), "/".to_string(), true, 0),
            ("/media/b".to_string(), "/".to_string(), true, 1),
        ]
    );
    assert_eq!(tree.cd(0), Ok(()));
    assert_eq!(tree.root(), Some(0));
    let listing: Vec<(String, bool, usize)> = tree
        .files()
        .iter()
        .map(|f| (f.name.to_string(), matches!(f.ty, Type::Directory), f.id))
        .collect();
    assert_eq!(listing, vec![("x".to_string(), true, 2), ("top.mkv".to_string(), false, 0)]);
    assert_eq!(tree.cd(2), Ok(()));
    assert_eq!(tree.breadcrumbs(), vec!["/media/a".to_string(), "x".to_string()]);
    assert_eq!(tree.cd(99), Err(()));
    assert_eq!(tree.cd_up(), Ok(()));
    assert_eq!(tree.cd_up(), Ok(()));
    assert_eq!(tree.root(), None);
    assert_eq!(tree.cd_up(), Err(()));
}

#[test]
fn searching_the_cache() {
    let cache = sample_cache();
    let res = search_files("x".to_string(), &cache);
    assert!(res.query_valid);
    assert_eq!(res.query, "x");
    let found: Vec<(String, usize, Vec<usize>, usize)> = res
        .results
        .iter()
        .map(|r| (r.path.clone(), r.root, r.indices.clone(), r.basename))
        .collect();
    assert_eq!(
        found,
        vec![
            ("/x/v.mp4".to_string(), 0, vec![1], 2),
            ("/x/y/q.webm".to_string(), 0, vec![1], 4),
        ]
    );
    let bad = search_files(" x".to_string(), &cache);
    assert!(!bad.query_valid);
    assert!(bad.results.is_empty());
    assert_eq!(search_files("".to_string(), &cache).results.len(), 4);
}

#[test]
fn paths() {
    assert_eq!(basename("/a/b"), Some("b"));
    assert_eq!(basename("/"), None);
    assert_eq!(basename("b"), Some("b"));
    assert_eq!(dirname("/a/b"), Some("/a"));
    assert_eq!(dirname("/a"), None);
}

#[test]
fn config_paths() {
    assert_eq!(join_path("a", "b"), "a/b");
    assert_eq!(join_path("a/", "b"), "a/b");
    assert_eq!(join_path("", "b"), "b");
    let conf = conf_dir("/home/u/.config");
    assert_eq!(conf, "/home/u/.config/gcast");
    assert_eq!(config_file(&conf), "/home/u/.config/gcast/config.toml");
    assert_eq!(mpv_conf_dir(&conf), "/home/u/.config/gcast/mpv");
    assert_eq!(cache_file(&cache_dir("/home/u/.cache")), "/home/u/.cache/gcast/files_cache");
}

#[test]
fn config_getters() {
    let c = Config::new(
        roots(),
        8080,
        "poweroff".to_string(),
        true,
        "spotify".to_string(),
        "spotify-full".to_string(),
    );
    assert_eq!(root_dirs(&c), &roots()[..]);
    assert_eq!(port(&c), 8080);
    assert_eq!(poweroff_exe(&c), "poweroff");
    assert!(refresh_cache_boot(&c));
    assert_eq!(spotify_exe(&c), "spotify");
    assert_eq!(spotify_fullscreen_exe(&c), "spotify-full");
}

fn conf() -> Config {
    Config::new(roots(), 1, "off".to_string(), false, "sp".to_string(), "spf".to_string())
}

#[test]
fn front_transitions() {
    let c = conf();
    let mut f = FrontState::new();
    assert!(f.is_none());
    assert_eq!(f.name(), "nothing");
    assert_eq!(f.start_spotify(), FrontAction::Transition(Target::Spotify));
    assert!(f.is_spotify() && f.is_something());
    assert_eq!(f.start_filer(), FrontAction::Ignore);
    assert_eq!(f.send_spotify_ctrl(&c), FrontAction::RunOneshot("spf".to_string()));
    assert_eq!(f.powerctrl(&c), FrontAction::Ignore);
    assert_eq!(f.stop_mpv(), FrontAction::Ignore);
    assert_eq!(f.stop_spotify(), FrontAction::Transition(Target::Nothing));
    assert_eq!(f.powerctrl(&c), FrontAction::RunOneshot("off".to_string()));
    assert_eq!(
        f.start_mpv_url("ftp://x".to_string()),
        FrontAction::Transition(Target::ErrorMsg {
            header: "Not a valid URL".to_string(),
            body: "".to_string()
        })
    );
    assert!(f.is_error_message());
    assert_eq!(f.close_error_message(), FrontAction::Transition(Target::Nothing));
    assert_eq!(f.start_play_url(), FrontAction::Transition(Target::PlayUrl));
    assert_eq!(
        f.start_mpv_url("http://a".to_string()),
        FrontAction::Transition(Target::Mpv("http://a".to_string()))
    );
    assert!(f.is_mpv());
    assert_eq!(f.send_mpv_ctrl(), FrontAction::Forward);
    assert_eq!(f.send_filer_ctrl(), FrontAction::Ignore);
    assert_eq!(f.kill(), FrontAction::Transition(Target::Nothing));
    assert_eq!(f.start_filer(), FrontAction::Transition(Target::Filer));
    assert_eq!(
        f.start_mpv_file(&c, 1, "/z/w.avi".to_string()),
        FrontAction::Transition(Target::Mpv("/media/b/z/w.avi".to_string()))
    );
    assert_eq!(f.stop_mpv(), FrontAction::Transition(Target::Nothing));
    assert_eq!(
        f.start_mpv_file(&c, 7, "/z/w.avi".to_string()),
        FrontAction::Transition(Target::ErrorMsg {
            header: "Could not find file to play".to_string(),
            body: "Root dir is out of range, try to refresh the cache".to_string()
        })
    );
    assert_eq!(f.name(), "error message");
    let _ = FrontKind::Nothing;
}

#[test]
fn jobs_and_mailbox() {
    assert!(JobMsg::<i32>::SendStatus.is_send_status());
    assert!(!JobMsg::Ctrl(3).is_send_status());
    assert_eq!(JobExited.to_string(), "Job exited, can't send");
    assert_eq!(
        OtherEndClosed.to_string(),
        "Other end closed, nowhere to send or nothing to receive"
    );
    let e = ProcessError::IoError(std::io::Error::new(std::io::ErrorKind::Other, "x"));
    assert!(end_of_job(e).is_err());

    let mut slot: Slot<i32> = Slot::new();
    assert_eq!(slot.send(1), None);
    assert_eq!(slot.send(2), Some(1));
    assert_eq!(slot.test_and_set(|cur| if cur == Some(&2) { None } else { Some(5) }), None);
    assert_eq!(slot.take(), Some(2));
    assert_eq!(slot.take(), None);
    assert_eq!(slot.test_and_set(|cur| if cur.is_none() { Some(7) } else { None }), None);
    assert_eq!(slot.take(), Some(7));
}

#[test]
fn injected_messages_come_first_in_order() {
    let mut q = InjectableQueue::new();
    q.inject("a");
    q.inject("b");
    assert_eq!(q.pop(), Some("a"));
    q.inject("c");
    assert_eq!(q.pop(), Some("b"));
    assert_eq!(q.pop(), Some("c"));
    assert_eq!(q.pop(), None);
}

#[test]
fn search_results_come_best_first() {
    let cache = sample_cache();
    let res = search_files("v".to_string(), &cache);
    let found: Vec<(String, Vec<usize>)> =
        res.results.iter().map(|r| (r.path.clone(), r.indices.clone())).collect();
    assert_eq!(
        found,
        vec![
            ("/x/v.mp4".to_string(), vec![3]),
            ("/z/w.avi".to_string(), vec![6]),
            ("/top.mkv".to_string(), vec![7]),
        ]
    );
}
