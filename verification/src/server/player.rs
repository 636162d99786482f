//! The decisions of the video player's event loop: what each event that the
//! player reports does to the phase of playback, and what is to be done next.
//! The caller waits for the events, keeps the playing state and talks to the
//! player.
use vstd::prelude::*;
use crate::server::lang::{AutoLang, HumanLang, track_choice};
use crate::server::node::{Node, TrackFields, fields_of, node_to_tracks, tracks_of};
use crate::server::tracks::{Track, TrackType};

verus! {

/// Why the player stopped playing a file.
#[derive(Debug, Clone, Copy, PartialEq, Eq, Structural)]
pub enum EndReason {
    Eof,
    Stop,
    Quit,
    Error,
    Redirect,
}

/// The phase of playback.
#[derive(Debug, Clone, Copy, PartialEq, Eq, Structural)]
pub enum MpvPhase {
    /// The file is being loaded.
    Load,
    /// The file plays.
    Play,
    /// The player has ended, for the reason given.
    End(EndReason),
}

/// An event that the player reports.
#[derive(Debug, Clone, Copy, PartialEq, Eq, Structural)]
pub enum MpvEvent {
    Nothing,
    Shutdown,
    Log,
    QueueOverflow,
    /// An observed property changed: `changed` tells whether the playing state
    /// took a new value from it, `track_list` whether it is the track list.
    PropertyChange { track_list: bool, changed: bool },
    PropertyChangeError,
    StartFile,
    FileLoaded,
    /// The file ended, for the reason given, with an error or not.
    EndFile { reason: EndReason, error: bool },
    GetProperty,
    GetPropertyError,
    /// A property was set, with an error or not.
    SetProperty { error: bool },
    /// A command ran, with an error or not.
    Command { error: bool },
    Unsupported,
}

/// What the player reported as failed.
#[derive(Debug, Clone, Copy, PartialEq, Eq, Structural)]
pub enum MpvFailure {
    EndFile,
    GetProperty,
    SetProperty,
    Command,
}

/// What is to be done after an event.
#[derive(Debug, Clone, Copy, PartialEq, Eq, Structural)]
pub enum MpvOutcome {
    /// Wait for the next event.
    Wait,
    /// Select the subtitle and audio tracks given (where there is one), then
    /// report the playing state if `report`, or else wait.
    Choose { sub: Option<i64>, audio: Option<i64>, report: bool },
    /// Report the playing state.
    Report,
    /// Observe the properties of the file; once that succeeds, the file plays
    /// (see `MpvMachine::observed`) and the fresh playing state is reported. When
    /// observing fails, the phase stays as it was.
    ObserveThenReport,
    /// Playback is over: nothing more is reported.
    Finish,
    /// The player failed.
    Fail(MpvFailure),
}

/// The phase after an event, in the phase given.
pub open spec fn next_phase(phase: MpvPhase, event: MpvEvent) -> MpvPhase {
    match event {
        MpvEvent::Shutdown => MpvPhase::End(EndReason::Quit),
        MpvEvent::EndFile { reason, .. } => MpvPhase::End(reason),
        _ => phase,
    }
}

/// Whether the event makes the choice of tracks: a change of the track list
/// while the file plays and no choice is made yet.
pub open spec fn makes_choice(phase: MpvPhase, chosen: bool, event: MpvEvent) -> bool {
    phase == MpvPhase::Play && !chosen && (event matches MpvEvent::PropertyChange {
        track_list: true,
        ..
    })
}

/// What is to be done after an event, where the choice of tracks is not made by
/// it.
pub open spec fn plain_outcome(phase: MpvPhase, event: MpvEvent) -> MpvOutcome {
    match event {
        MpvEvent::Shutdown => MpvOutcome::Finish,
        MpvEvent::PropertyChange { changed, .. } => if phase == MpvPhase::Play && changed {
            MpvOutcome::Report
        } else {
            MpvOutcome::Wait
        },
        MpvEvent::FileLoaded => MpvOutcome::ObserveThenReport,
        MpvEvent::EndFile { error, .. } => if error {
            MpvOutcome::Fail(MpvFailure::EndFile)
        } else {
            MpvOutcome::Finish
        },
        MpvEvent::GetPropertyError => MpvOutcome::Fail(MpvFailure::GetProperty),
        MpvEvent::SetProperty { error } => if error {
            MpvOutcome::Fail(MpvFailure::SetProperty)
        } else {
            MpvOutcome::Wait
        },
        MpvEvent::Command { error } => if error {
            MpvOutcome::Fail(MpvFailure::Command)
        } else {
            MpvOutcome::Wait
        },
        _ => MpvOutcome::Wait,
    }
}

/// Every failure the player reports ends the wait with that failure, whatever
/// the phase and whether the tracks were chosen: a failed command, a failed
/// property set or get, and a file that ended with an error; shutdown and a
/// file that ended without error finish playback, and the other events are
/// waited past (apart from property changes, which report or choose tracks).
pub proof fn lemma_player_failures(phase: MpvPhase, chosen: bool, reason: EndReason)
    ensures
        !makes_choice(phase, chosen, MpvEvent::Command { error: true })
            && plain_outcome(phase, MpvEvent::Command { error: true }) == MpvOutcome::Fail(
            MpvFailure::Command,
        ),
        !makes_choice(phase, chosen, MpvEvent::SetProperty { error: true })
            && plain_outcome(phase, MpvEvent::SetProperty { error: true }) == MpvOutcome::Fail(
            MpvFailure::SetProperty,
        ),
        !makes_choice(phase, chosen, MpvEvent::GetPropertyError) && plain_outcome(
            phase,
            MpvEvent::GetPropertyError,
        ) == MpvOutcome::Fail(MpvFailure::GetProperty),
        !makes_choice(phase, chosen, MpvEvent::EndFile { reason, error: true }) && plain_outcome(
            phase,
            MpvEvent::EndFile { reason, error: true },
        ) == MpvOutcome::Fail(MpvFailure::EndFile),
        plain_outcome(phase, MpvEvent::Shutdown) == MpvOutcome::Finish,
        plain_outcome(phase, MpvEvent::EndFile { reason, error: false }) == MpvOutcome::Finish,
        plain_outcome(phase, MpvEvent::Command { error: false }) == MpvOutcome::Wait,
        plain_outcome(phase, MpvEvent::SetProperty { error: false }) == MpvOutcome::Wait,
        plain_outcome(phase, MpvEvent::Log) == MpvOutcome::Wait,
        plain_outcome(phase, MpvEvent::StartFile) == MpvOutcome::Wait,
{
}

/// The tracks are chosen at most once per file: once the choice is made, no
/// event makes it again.
pub proof fn lemma_choice_made_once(phase: MpvPhase, event: MpvEvent)
    ensures
        !makes_choice(phase, true, event),
{
}

/// The player's side of playback: its phase and the automatic choice of tracks.
pub struct MpvMachine {
    phase: MpvPhase,
    auto_lang: AutoLang,
}

impl MpvMachine {
    /// The phase of playback.
    pub closed spec fn phase(&self) -> MpvPhase {
        self.phase
    }

    /// The automatic choice of tracks.
    pub closed spec fn langs(&self) -> AutoLang {
        self.auto_lang
    }

    /// A file being loaded, with no choice of tracks made, English wanted for
    /// subtitles and Japanese for audio.
    pub fn new() -> (r: Self)
        ensures
            r.phase() == MpvPhase::Load,
            !r.langs().chosen(),
            r.langs().sub_lang() == HumanLang::English,
            r.langs().audio_lang() == HumanLang::Japanese,
    {
        MpvMachine {
            phase: MpvPhase::Load,
            auto_lang: AutoLang::new(HumanLang::English, HumanLang::Japanese),
        }
    }

    /// The phase of playback.
    pub fn get_phase(&self) -> (r: MpvPhase)
        ensures
            r == self.phase(),
    {
        self.phase
    }

    /// Whether playback is over, so that no event is waited for.
    pub fn is_over(&self) -> (b: bool)
        ensures
            b == (self.phase() is End),
    {
        matches!(self.phase, MpvPhase::End(_))
    }

    /// Why playback ended: the reason the player gave, or `Quit` where it is
    /// stopped before it ended.
    pub fn exit_reason(&self) -> (r: EndReason)
        ensures
            r == match self.phase() {
                MpvPhase::End(reason) => reason,
                _ => EndReason::Quit,
            },
    {
        match self.phase {
            MpvPhase::End(reason) => reason,
            _ => EndReason::Quit,
        }
    }

    /// The properties of the loaded file are observed: the file plays, with a
    /// fresh playing state.
    pub fn observed(&mut self)
        ensures
            final(self).phase() == MpvPhase::Play,
            final(self).langs() == old(self).langs(),
    {
        self.phase = MpvPhase::Play;
    }

    /// Takes an event: `tracks` are the tracks of the playing state once the
    /// event has updated it. A change of the track list while the file plays,
    /// before any choice, makes the choice (see `track_choice`); the state is
    /// reported where it changed while the file plays; a loaded file is to be
    /// observed, and plays only once that succeeds (see `observed`); shutdown and
    /// the end of the file end playback; errors fail.
    pub fn next_step(&mut self, event: MpvEvent, tracks: &[Track]) -> (r: MpvOutcome)
        ensures
            final(self).phase() == next_phase(old(self).phase(), event),
            final(self).langs().sub_lang() == old(self).langs().sub_lang(),
            final(self).langs().audio_lang() == old(self).langs().audio_lang(),
            final(self).langs().chosen() == (old(self).langs().chosen() || makes_choice(
                old(self).phase(),
                old(self).langs().chosen(),
                event,
            )),
            makes_choice(old(self).phase(), old(self).langs().chosen(), event) ==> r
                == (MpvOutcome::Choose {
                    sub: track_choice(tracks@, TrackType::Sub, old(self).langs().sub_lang()),
                    audio: track_choice(tracks@, TrackType::Audio, old(self).langs().audio_lang()),
                    report: event->changed,
                }),
            !makes_choice(old(self).phase(), old(self).langs().chosen(), event) ==> r
                == plain_outcome(old(self).phase(), event),
            event == (MpvEvent::Command { error: true }) ==> r == MpvOutcome::Fail(MpvFailure::Command),
            event == (MpvEvent::SetProperty { error: true }) ==> r == MpvOutcome::Fail(
                MpvFailure::SetProperty,
            ),
            event == MpvEvent::GetPropertyError ==> r == MpvOutcome::Fail(MpvFailure::GetProperty),
            (event matches MpvEvent::EndFile { error: true, .. }) ==> r == MpvOutcome::Fail(
                MpvFailure::EndFile,
            ),
            event == MpvEvent::Shutdown ==> r == MpvOutcome::Finish && final(self).phase() == MpvPhase::End(
                EndReason::Quit,
            ),
            event matches MpvEvent::EndFile { reason, error: false } ==> r == MpvOutcome::Finish
                && final(self).phase() == MpvPhase::End(reason),
            !(event is Shutdown) && !(event is EndFile) ==> final(self).phase() == old(self).phase(),
            event == (MpvEvent::Command { error: false }) ==> r == MpvOutcome::Wait,
            event == (MpvEvent::SetProperty { error: false }) ==> r == MpvOutcome::Wait,
    {
        match event {
            MpvEvent::Shutdown => {
                self.phase = MpvPhase::End(EndReason::Quit);
                MpvOutcome::Finish
            },
            MpvEvent::PropertyChange { track_list, changed } => {
                if self.phase == MpvPhase::Play {
                    if self.auto_lang.has_not_chosen() && track_list {
                        let (sub, audio) = self.auto_lang.auto_choose(tracks);
                        MpvOutcome::Choose { sub, audio, report: changed }
                    } else if changed {
                        MpvOutcome::Report
                    } else {
                        MpvOutcome::Wait
                    }
                } else {
                    MpvOutcome::Wait
                }
            },
            MpvEvent::FileLoaded => MpvOutcome::ObserveThenReport,
            MpvEvent::EndFile { reason, error } => {
                self.phase = MpvPhase::End(reason);
                if error {
                    MpvOutcome::Fail(MpvFailure::EndFile)
                } else {
                    MpvOutcome::Finish
                }
            },
            MpvEvent::GetPropertyError => MpvOutcome::Fail(MpvFailure::GetProperty),
            MpvEvent::SetProperty { error } => {
                if error {
                    MpvOutcome::Fail(MpvFailure::SetProperty)
                } else {
                    MpvOutcome::Wait
                }
            },
            MpvEvent::Command { error } => {
                if error {
                    MpvOutcome::Fail(MpvFailure::Command)
                } else {
                    MpvOutcome::Wait
                }
            },
            _ => MpvOutcome::Wait,
        }
    }
}

/// The fields of each track, in order.
pub open spec fn track_views(tracks: Seq<Track>) -> Seq<TrackFields> {
    tracks.map_values(|t: Track| fields_of(t))
}

/// Whether two tracks are the same.
fn same_track(a: &Track, b: &Track) -> (r: bool)
    ensures
        r == (fields_of(*a) == fields_of(*b)),
{
    a.id == b.id && a.ttype == b.ttype && a.lang.same_as(&b.lang) && a.selected == b.selected
}

/// Whether two lists of tracks are the same.
fn same_tracks(a: &[Track], b: &[Track]) -> (r: bool)
    ensures
        r == (track_views(a@) == track_views(b@)),
{
    if a.len() != b.len() {
        proof {
            assert(track_views(a@).len() != track_views(b@).len());
        }
        return false;
    }
    let mut i: usize = 0;
    while i < a.len()
        invariant
            a@.len() == b@.len(),
            i <= a@.len(),
            forall|j: int| 0 <= j < i ==> fields_of(#[trigger] a@[j]) == fields_of(b@[j]),
        decreases a@.len() - i,
    {
        if !same_track(&a[i], &b[i]) {
            proof {
                assert(track_views(a@)[i as int] != track_views(b@)[i as int]);
            }
            return false;
        }
        i += 1;
    }
    proof {
        assert(track_views(a@) =~= track_views(b@));
    }
    true
}

/// Replaces the tracks by those of the track list that the player reported
/// (see `node_to_tracks`), and tells whether they changed.
pub fn update_tracks(tracks: &mut Vec<Track>, node: &Node) -> (changed: bool)
    ensures
        track_views(final(tracks)@) == tracks_of(*node),
        changed == (track_views(old(tracks)@) != tracks_of(*node)),
{
    let new = node_to_tracks(node);
    proof {
        assert(track_views(new@) =~= tracks_of(*node));
    }
    let same = same_tracks(tracks.as_slice(), new.as_slice());
    *tracks = new;
    !same
}

/// The chapter shown for a file: the current one counted from one, and the
/// number of chapters, where there are any.
pub fn client_chapter(chapter: i64, chapters: i64) -> (r: Option<(i64, i64)>)
    requires
        chapters > 0 ==> chapter < i64::MAX,
    ensures
        chapters > 0 ==> r == Some(((chapter + 1) as i64, chapters)),
        chapters <= 0 ==> r is None,
{
    if chapters > 0 {
        Some((chapter + 1, chapters))
    } else {
        None
    }
}

} // verus!
