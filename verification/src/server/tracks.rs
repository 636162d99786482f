//! The tracks of a playing file, as the player lists them and as the front end
//! shows them.
use vstd::prelude::*;
use crate::server::lang::{Lang, AsLang, lang_display};

verus! {

/// The kind of a track.
#[derive(Debug, Clone, Copy, PartialEq, Eq, Structural)]
pub enum TrackType {
    Audio,
    Video,
    Sub,
}

/// A track of the playing file.
#[derive(Debug, Clone, PartialEq, Eq)]
pub struct Track {
    pub id: i64,
    pub ttype: TrackType,
    pub lang: Lang,
    pub selected: bool,
}

impl AsLang for Track {
    open spec fn lang_view(&self) -> Lang {
        self.lang
    }

    fn as_lang(&self) -> (r: &Lang) {
        &self.lang
    }
}

impl<'a> AsLang for &'a Track {
    open spec fn lang_view(&self) -> Lang {
        self.lang
    }

    fn as_lang(&self) -> (r: &Lang) {
        &self.lang
    }
}

/// A track as the front end shows it.
#[derive(Debug, Clone, PartialEq, Eq)]
pub struct ClientTrack {
    pub id: i64,
    pub title: String,
    pub selected: bool,
}

/// The tracks of the given kind, in order.
pub open spec fn of_type(tracks: Seq<Track>, ttype: TrackType) -> Seq<Track> {
    tracks.filter(|t: Track| t.ttype == ttype)
}

/// The tracks of the given kind, in order.
pub fn tracks_of_type<'a>(tracks: &'a [Track], ttype: TrackType) -> (r: Vec<&'a Track>)
    ensures
        r@.len() == of_type(tracks@, ttype).len(),
        forall|j: int| 0 <= j < r@.len() ==> *(#[trigger] r@[j]) == of_type(tracks@, ttype)[j],
{
    let ghost pred = |t: Track| t.ttype == ttype;
    let mut r: Vec<&'a Track> = Vec::new();
    let mut i: usize = 0;
    while i < tracks.len()
        invariant
            i <= tracks@.len(),
            pred == (|t: Track| t.ttype == ttype),
            r@.len() == tracks@.take(i as int).filter(pred).len(),
            forall|j: int| 0 <= j < r@.len() ==> *(#[trigger] r@[j]) == tracks@.take(i as int).filter(pred)[j],
        decreases tracks@.len() - i,
    {
        proof {
            assert(tracks@.take(i + 1).drop_last() =~= tracks@.take(i as int));
            reveal_with_fuel(Seq::<_>::filter, 1);
        }
        if tracks[i].ttype == ttype {
            r.push(&tracks[i]);
        }
        i += 1;
    }
    proof {
        assert(tracks@.take(i as int) =~= tracks@);
    }
    r
}

/// The tracks of the given kind as the front end shows them: first a `None`
/// entry (id 0), selected when no track is, then every track of the kind in
/// order, titled as `Lang::to_string` shows it.
pub fn to_client_tracks(tracks: &[Track], ttype: TrackType) -> (r: Vec<ClientTrack>)
    ensures
        r@.len() == of_type(tracks@, ttype).len() + 1,
        r@[0].id == 0,
        r@[0].title@ == "None"@,
        r@[0].selected == forall|j: int|
            0 <= j < of_type(tracks@, ttype).len() ==> !(#[trigger] of_type(tracks@, ttype)[j]).selected,
        forall|j: int|
            0 <= j < of_type(tracks@, ttype).len() ==> {
                let t = #[trigger] of_type(tracks@, ttype)[j];
                &&& r@[j + 1].id == t.id
                &&& r@[j + 1].title@ == lang_display(t.lang.title_of(), t.lang.lang_of())
                &&& r@[j + 1].selected == t.selected
            },
{
    let ghost ft = of_type(tracks@, ttype);
    let of = tracks_of_type(tracks, ttype);
    let mut r: Vec<ClientTrack> = Vec::new();
    let mut none_selected = true;
    let mut i: usize = 0;
    while i < of.len()
        invariant
            ft == of_type(tracks@, ttype),
            of@.len() == ft.len(),
            forall|j: int| 0 <= j < of@.len() ==> *(#[trigger] of@[j]) == ft[j],
            i <= of@.len(),
            r@.len() == i,
            none_selected == forall|j: int| 0 <= j < i ==> !(#[trigger] ft[j]).selected,
            forall|j: int|
                0 <= j < i ==> {
                    let t = #[trigger] ft[j];
                    &&& r@[j].id == t.id
                    &&& r@[j].title@ == lang_display(t.lang.title_of(), t.lang.lang_of())
                    &&& r@[j].selected == t.selected
                },
        decreases of@.len() - i,
    {
        let t = of[i];
        if t.selected {
            none_selected = false;
        }
        r.push(ClientTrack { id: t.id, title: t.lang.to_string(), selected: t.selected });
        i += 1;
    }
    let none = String::from_str("None");
    proof {
        reveal_strlit("None");
    }
    r.insert(0, ClientTrack { id: 0, title: none, selected: none_selected });
    r
}

} // verus!
