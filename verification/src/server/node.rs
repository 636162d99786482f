//! The track list that the player reports, as a tree of plain values, and the
//! tracks read from it.
use vstd::prelude::*;
use crate::server::lang::{Lang, opt_view};
use crate::server::tracks::{Track, TrackType};
use crate::text::{trim, trimmed};

verus! {

/// A value reported by the player.
#[derive(Debug)]
pub enum Node {
    /// No value.
    Nothing,
    /// A string.
    Text(String),
    /// A flag.
    Flag(bool),
    /// An integer.
    Int64(i64),
    /// A value of another kind (a floating-point number or raw bytes), which
    /// no field of a track holds.
    Other,
    /// A list of values.
    Array(Vec<Node>),
    /// Values under string keys, each key once.
    Table(Vec<(String, Node)>),
}

/// The value under `key`: that of its first entry.
pub open spec fn lookup(map: Seq<(String, Node)>, key: Seq<char>) -> Option<Node>
    decreases map.len(),
{
    if map.len() == 0 {
        None
    } else if map[0].0@ == key {
        Some(map[0].1)
    } else {
        lookup(map.drop_first(), key)
    }
}

/// The value under `key`, if there is one.
pub fn get<'a>(map: &'a [(String, Node)], key: &str) -> (r: Option<&'a Node>)
    ensures
        match r {
            Some(n) => lookup(map@, key@) == Some(*n),
            None => lookup(map@, key@) is None,
        },
{
    let mut i: usize = 0;
    proof {
        assert(map@.skip(0) =~= map@);
    }
    while i < map.len()
        invariant
            i <= map@.len(),
            lookup(map@, key@) == lookup(map@.skip(i as int), key@),
        decreases map@.len() - i,
    {
        proof {
            assert(map@.skip(i as int).drop_first() =~= map@.skip(i + 1));
        }
        if crate::server::lang::str_eq(map[i].0.as_str(), key) {
            return Some(&map[i].1);
        }
        i += 1;
    }
    None
}

/// The integer that a value holds.
pub open spec fn node_int(n: Option<Node>) -> Option<i64> {
    match n {
        Some(Node::Int64(x)) => Some(x),
        _ => None,
    }
}

/// The string that a value holds.
pub open spec fn node_text(n: Option<Node>) -> Option<Seq<char>> {
    match n {
        Some(Node::Text(s)) => Some(s@),
        _ => None,
    }
}

/// The flag that a value holds.
pub open spec fn node_flag(n: Option<Node>) -> Option<bool> {
    match n {
        Some(Node::Flag(b)) => Some(b),
        _ => None,
    }
}

/// The kind of track that a type name stands for.
pub open spec fn type_named(name: Seq<char>) -> Option<TrackType> {
    if name == "audio"@ {
        Some(TrackType::Audio)
    } else if name == "video"@ {
        Some(TrackType::Video)
    } else if name == "sub"@ {
        Some(TrackType::Sub)
    } else {
        None
    }
}

/// A string with its surrounding white space trimmed, where anything is left.
pub open spec fn nonblank(s: Option<Seq<char>>) -> Option<Seq<char>> {
    match s {
        Some(t) => if trimmed(t).len() > 0 {
            Some(trimmed(t))
        } else {
            None
        },
        None => None,
    }
}

/// What a track is made of: its id, kind, title, language and whether it is
/// selected.
pub type TrackFields = (i64, TrackType, Option<Seq<char>>, Option<Seq<char>>, bool);

/// The fields of a track that a node of the track list describes: a map with an
/// integer `id`, a known `type` and a flag `selected`; `title` and `lang` are
/// kept where they are strings that are not blank.
pub open spec fn track_fields(n: Node) -> Option<TrackFields> {
    match n {
        Node::Table(m) => {
            let id = node_int(lookup(m@, "id"@));
            let ty = match node_text(lookup(m@, "type"@)) {
                Some(t) => type_named(t),
                None => None,
            };
            let sel = node_flag(lookup(m@, "selected"@));
            if id is Some && ty is Some && sel is Some {
                Some(
                    (
                        id->0,
                        ty->0,
                        nonblank(node_text(lookup(m@, "title"@))),
                        nonblank(node_text(lookup(m@, "lang"@))),
                        sel->0,
                    ),
                )
            } else {
                None
            }
        },
        _ => None,
    }
}

/// The fields of the tracks that the nodes describe, in order.
pub open spec fn tracks_in(nodes: Seq<Node>) -> Seq<TrackFields>
    decreases nodes.len(),
{
    if nodes.len() == 0 {
        Seq::empty()
    } else {
        let rest = tracks_in(nodes.drop_last());
        match track_fields(nodes.last()) {
            Some(f) => rest.push(f),
            None => rest,
        }
    }
}

/// The fields of the tracks of a track list: none unless it is an array.
pub open spec fn tracks_of(n: Node) -> Seq<TrackFields> {
    match n {
        Node::Array(nodes) => tracks_in(nodes@),
        _ => Seq::empty(),
    }
}

/// The fields of a track.
pub open spec fn fields_of(t: Track) -> TrackFields {
    (t.id, t.ttype, t.lang.title_of(), t.lang.lang_of(), t.selected)
}

fn get_int(map: &[(String, Node)], key: &str) -> (r: Option<i64>)
    ensures
        r == node_int(lookup(map@, key@)),
{
    match get(map, key) {
        Some(Node::Int64(x)) => Some(*x),
        _ => None,
    }
}

fn get_flag(map: &[(String, Node)], key: &str) -> (r: Option<bool>)
    ensures
        r == node_flag(lookup(map@, key@)),
{
    match get(map, key) {
        Some(Node::Flag(b)) => Some(*b),
        _ => None,
    }
}

fn get_text<'a>(map: &'a [(String, Node)], key: &str) -> (r: Option<&'a str>)
    ensures
        match r {
            Some(s) => node_text(lookup(map@, key@)) == Some(s@),
            None => node_text(lookup(map@, key@)) is None,
        },
{
    match get(map, key) {
        Some(Node::Text(s)) => Some(s.as_str()),
        _ => None,
    }
}

fn get_nonblank(map: &[(String, Node)], key: &str) -> (r: Option<String>)
    ensures
        opt_view(r) == nonblank(node_text(lookup(map@, key@))),
{
    match get_text(map, key) {
        Some(s) => {
            let t = trim(s);
            if t.unicode_len() > 0 {
                Some(t.to_string())
            } else {
                None
            }
        },
        None => None,
    }
}

fn type_from_name(name: &str) -> (r: Option<TrackType>)
    ensures
        r == type_named(name@),
{
    proof {
        reveal_strlit("audio");
        reveal_strlit("video");
        reveal_strlit("sub");
    }
    if crate::server::lang::str_eq(name, "audio") {
        Some(TrackType::Audio)
    } else if crate::server::lang::str_eq(name, "video") {
        Some(TrackType::Video)
    } else if crate::server::lang::str_eq(name, "sub") {
        Some(TrackType::Sub)
    } else {
        None
    }
}

fn node_to_track(node: &Node) -> (r: Option<Track>)
    ensures
        match r {
            Some(t) => track_fields(*node) == Some(fields_of(t)),
            None => track_fields(*node) is None,
        },
{
    match node {
        Node::Table(map) => {
            let id = match get_int(map.as_slice(), "id") {
                Some(id) => id,
                None => return None,
            };
            let ttype = match get_text(map.as_slice(), "type") {
                Some(t) => match type_from_name(t) {
                    Some(ty) => ty,
                    None => return None,
                },
                None => return None,
            };
            let selected = match get_flag(map.as_slice(), "selected") {
                Some(b) => b,
                None => return None,
            };
            let title = get_nonblank(map.as_slice(), "title");
            let lang = get_nonblank(map.as_slice(), "lang");
            Some(Track { id, ttype, lang: Lang::new(title, lang), selected })
        },
        _ => None,
    }
}

/// The tracks that the player's track list describes, in order: each entry
/// that is a map with an integer `id`, a `type` that names a kind of track and
/// a flag `selected` gives a track; its title and language are the trimmed
/// `title` and `lang` strings, where they are strings that are not blank.
pub fn node_to_tracks(node: &Node) -> (r: Vec<Track>)
    ensures
        r@.len() == tracks_of(*node).len(),
        forall|j: int| 0 <= j < r@.len() ==> fields_of(#[trigger] r@[j]) == tracks_of(*node)[j],
{
    let mut tracks: Vec<Track> = Vec::new();
    if let Node::Array(nodes) = node {
        let mut i: usize = 0;
        while i < nodes.len()
            invariant
                i <= nodes@.len(),
                tracks@.len() == tracks_in(nodes@.take(i as int)).len(),
                forall|j: int|
                    0 <= j < tracks@.len() ==> fields_of(#[trigger] tracks@[j]) == tracks_in(
                        nodes@.take(i as int),
                    )[j],
            decreases nodes@.len() - i,
        {
            proof {
                assert(nodes@.take(i + 1).drop_last() =~= nodes@.take(i as int));
                assert(nodes@.take(i + 1).last() == nodes@[i as int]);
            }
            if let Some(t) = node_to_track(&nodes[i]) {
                tracks.push(t);
            }
            i += 1;
        }
        proof {
            assert(nodes@.take(nodes@.len() as int) =~= nodes@);
        }
    }
    tracks
}

} // verus!
