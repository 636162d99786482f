use gcast::server::lang::{
    auto_choose, choose_eng, choose_jap, words, AutoLang, HumanLang, Lang, Prio,
};
use gcast::server::tracks::{to_client_tracks, Track, TrackType};

fn new_title(title: &str) -> Lang {
    Lang::new(Some(title.to_string()), None)
}

fn new_lang(lang: &str) -> Lang {
    Lang::new(None, Some(lang.to_string()))
}

fn new_both(title: &str, lang: &str) -> Lang {
    Lang::new(Some(title.to_string()), Some(lang.to_string()))
}

#[test]
fn testing_words() {
    assert!(words("").is_empty());
    assert_eq!(vec!["en", "SDH"], words("en (SDH)"));
}

#[test]
fn empty() {
    assert_eq!(Prio::NotUse, choose_jap(&Lang::empty()));
    assert_eq!(Prio::NotUse, choose_eng(&Lang::empty()));
}

#[test]
fn dont_set_to_empty_if_all_are_notuse() {
    let en = new_lang("en");
    assert_eq!(Prio::NotUse, choose_jap(&en));

    let chosen = auto_choose(vec![Lang::empty(), en], 1, HumanLang::Japanese);
    assert_eq!(None, chosen);
}

#[test]
fn avoiding_selected() {
    let avoid = new_both("json", "live_chat");
    assert_eq!(Prio::Avoid, choose_eng(&avoid));

    let chosen =
        auto_choose(vec![Lang::empty(), avoid.clone()], 1, HumanLang::English).map(|(i, _)| i);
    assert_eq!(Some(0), chosen);

    let chosen = auto_choose(vec![Lang::empty(), avoid.clone()], 0, HumanLang::English);
    assert_eq!(None, chosen);

    let chosen = auto_choose(vec![avoid.clone(), avoid], 1, HumanLang::English);
    assert_eq!(None, chosen)
}

#[test]
fn different_kinds_of_arguments() {
    let v: Vec<Lang> = Vec::new();
    auto_choose(v, 0, HumanLang::English);

    let v: Vec<Lang> = Vec::new();
    auto_choose(v.iter().collect::<Vec<&Lang>>(), 0, HumanLang::English);

    let v: Vec<&Lang> = Vec::new();
    auto_choose(v, 0, HumanLang::English);

    let v: Vec<&Lang> = Vec::new();
    auto_choose(v.iter().map(|l| *l).collect::<Vec<&Lang>>(), 0, HumanLang::English);

    assert!(true);
}

#[test]
fn english_prio() {
    let preferred = vec![
        new_lang("eng"),
        new_both("SDH", "en"),
        new_both("Signs", "eng"),
        new_lang("swe"),
        Lang::empty(),
        new_both("json", "live_chat"),
    ];
    let prios: Vec<_> = preferred.iter().map(choose_eng).collect();
    assert!(prios.windows(2).all(|pair| pair[0] >= pair[1]));
}

#[test]
fn skips_signs() {
    let chosen = auto_choose(
        vec![new_both("Signs", "eng"), new_both("Dialogue", "eng")],
        0,
        HumanLang::English,
    );
    assert_eq!(Some(1), chosen.map(|(i, _)| i));
}

#[test]
fn taking_the_leftmost_on_equal() {
    let chosen = auto_choose(vec![new_lang("eng"), new_lang("eng")], 0, HumanLang::English);
    assert_eq!(Some(0), chosen.map(|(i, _)| i));
}

#[test]
fn very_descriptive_titles() {
    let chosen = auto_choose(
        vec![
            Lang::empty(),
            new_both("Forced (For English audio)", "en"),
            new_both("For Japanese audio", "en"),
        ],
        1,
        HumanLang::English,
    );
    assert_eq!(Some(2), chosen.map(|(i, _)| i));
}

#[test]
fn special_in_parens() {
    let chosen = auto_choose(
        vec![
            Lang::empty(),
            new_both("English (Forced)", "en"),
            new_lang("en"),
            new_both("English (SDH)", "en"),
        ],
        1,
        HumanLang::English,
    );
    assert_eq!(Some(2), chosen.map(|(i, _)| i));
}

#[test]
fn japanese_and_case() {
    assert_eq!(Prio::Use, choose_jap(&new_lang("JPN")));
    assert_eq!(Prio::Use, choose_jap(&new_lang("ja")));
    assert_eq!(Prio::NotUse, choose_jap(&new_lang("jap")));
    assert_eq!(Prio::Prefer, choose_eng(&new_lang("English")));
    assert_eq!(Prio::Use, choose_eng(&new_both("sdh", "EN-us")));
    assert_eq!(Prio::NotUse, choose_eng(&new_title("SDH")));
}

#[test]
fn lang_display() {
    assert_eq!(Lang::empty().to_string(), "None");
    assert_eq!(new_lang("en").to_string(), "en");
    assert_eq!(new_title("Full").to_string(), "'Full'");
    assert_eq!(new_both("Full", "en").to_string(), "en 'Full'");
}

fn track(id: i64, ttype: TrackType, lang: Lang, selected: bool) -> Track {
    Track { id, ttype, lang, selected }
}

#[test]
fn choosing_tracks_by_kind() {
    let tracks = vec![
        track(1, TrackType::Video, Lang::empty(), true),
        track(1, TrackType::Audio, new_lang("jpn"), true),
        track(2, TrackType::Audio, new_lang("eng"), false),
        track(1, TrackType::Sub, new_both("Signs", "eng"), false),
        track(2, TrackType::Sub, new_lang("eng"), false),
    ];
    let mut auto = AutoLang::new(HumanLang::English, HumanLang::Japanese);
    assert!(auto.has_not_chosen());
    assert_eq!(auto.auto_choose(&tracks), (Some(2), Some(1)));
    assert!(!auto.has_not_chosen());
    assert_eq!(
        AutoLang::choose_track(&tracks, TrackType::Audio, HumanLang::English),
        Some(2)
    );
    assert_eq!(AutoLang::choose_track(&tracks, TrackType::Video, HumanLang::English), None);
}

#[test]
fn client_tracks() {
    let tracks = vec![
        track(1, TrackType::Audio, new_lang("jpn"), true),
        track(1, TrackType::Sub, new_both("Signs", "eng"), false),
        track(2, TrackType::Sub, Lang::empty(), false),
    ];
    let subs = to_client_tracks(&tracks, TrackType::Sub);
    let shown: Vec<(i64, String, bool)> =
        subs.into_iter().map(|t| (t.id, t.title, t.selected)).collect();
    assert_eq!(
        shown,
        vec![
            (0, "None".to_string(), true),
            (1, "eng 'Signs'".to_string(), false),
            (2, "None".to_string(), false),
        ]
    );
    let audio = to_client_tracks(&tracks, TrackType::Audio);
    assert_eq!(audio.len(), 2);
    assert!(!audio[0].selected);
    assert!(audio[1].selected);
}
