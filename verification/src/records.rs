//! Track records and the registry's merge-by-identity rule.
//!
//! Two records are the same logical track exactly when their
//! `(index, title, artist)` triples are equal.  When a triple recurs, its
//! duration is added onto the existing record (an absent duration counts as
//! zero, and the sum saturates at `u64::MAX` nanoseconds); the label code the
//! record was created with is kept.

use vstd::prelude::*;
use crate::chars::string_eq;

verus! {

/// One recovered track.  The duration, when present, is in nanoseconds.
pub struct TrackRecord {
    pub index: String,
    pub title: String,
    pub artist: String,
    pub duration: Option<u64>,
    pub label_code: String,
}

/// The mathematical image of a [`TrackRecord`].
#[verifier::ext_equal]
pub struct TrackView {
    pub index: Seq<char>,
    pub title: Seq<char>,
    pub artist: Seq<char>,
    pub duration: Option<u64>,
    pub label_code: Seq<char>,
}

impl View for TrackRecord {
    type V = TrackView;

    open spec fn view(&self) -> TrackView {
        TrackView {
            index: self.index@,
            title: self.title@,
            artist: self.artist@,
            duration: self.duration,
            label_code: self.label_code@,
        }
    }
}

impl DeepView for TrackRecord {
    type V = TrackView;

    open spec fn deep_view(&self) -> TrackView {
        self.view()
    }
}

impl TrackView {
    /// The identity triple of the track.
    pub open spec fn key(self) -> (Seq<char>, Seq<char>, Seq<char>) {
        (self.index, self.title, self.artist)
    }
}

/// A duration with `nanos` added on: an absent duration counts as zero, and
/// the sum saturates at `u64::MAX`.
pub open spec fn add_duration(d: Option<u64>, nanos: u64) -> u64 {
    let base: int = match d {
        Some(v) => v as int,
        None => 0,
    };
    if base + nanos > u64::MAX {
        u64::MAX
    } else {
        (base + nanos) as u64
    }
}

/// The registry after an upsert: the first record whose identity triple
/// equals `(index, title, artist)` gets `nanos` added onto its duration and
/// keeps its label code; when no record matches, a new record with duration
/// `Some(nanos)` and label code `code` is appended.
pub open spec fn upsert_view(
    tracks: Seq<TrackView>,
    index: Seq<char>,
    title: Seq<char>,
    artist: Seq<char>,
    nanos: u64,
    code: Seq<char>,
) -> Seq<TrackView>
    decreases tracks.len(),
{
    if tracks.len() == 0 {
        seq![
            TrackView {
                index: index,
                title: title,
                artist: artist,
                duration: Some(nanos),
                label_code: code,
            },
        ]
    } else if tracks[0].key() == (index, title, artist) {
        seq![
            TrackView {
                index: tracks[0].index,
                title: tracks[0].title,
                artist: tracks[0].artist,
                duration: Some(add_duration(tracks[0].duration, nanos)),
                label_code: tracks[0].label_code,
            },
        ] + tracks.drop_first()
    } else {
        seq![tracks[0]] + upsert_view(tracks.drop_first(), index, title, artist, nanos, code)
    }
}

proof fn lemma_upsert_appends(
    tracks: Seq<TrackView>,
    index: Seq<char>,
    title: Seq<char>,
    artist: Seq<char>,
    nanos: u64,
    code: Seq<char>,
)
    requires
        forall|j: int| 0 <= j < tracks.len() ==> (#[trigger] tracks[j]).key() != (index, title, artist),
    ensures
        upsert_view(tracks, index, title, artist, nanos, code) =~= tracks.push(
            TrackView {
                index: index,
                title: title,
                artist: artist,
                duration: Some(nanos),
                label_code: code,
            },
        ),
    decreases tracks.len(),
{
    if tracks.len() > 0 {
        assert(forall|j: int|
            0 <= j < tracks.drop_first().len() ==> tracks.drop_first()[j] == tracks[j + 1]);
        lemma_upsert_appends(tracks.drop_first(), index, title, artist, nanos, code);
    }
}

proof fn lemma_upsert_updates(
    tracks: Seq<TrackView>,
    index: Seq<char>,
    title: Seq<char>,
    artist: Seq<char>,
    nanos: u64,
    code: Seq<char>,
    fi: int,
)
    requires
        0 <= fi < tracks.len(),
        tracks[fi].key() == (index, title, artist),
        forall|j: int| 0 <= j < fi ==> (#[trigger] tracks[j]).key() != (index, title, artist),
    ensures
        upsert_view(tracks, index, title, artist, nanos, code) =~= tracks.update(
            fi,
            TrackView {
                index: tracks[fi].index,
                title: tracks[fi].title,
                artist: tracks[fi].artist,
                duration: Some(add_duration(tracks[fi].duration, nanos)),
                label_code: tracks[fi].label_code,
            },
        ),
    decreases tracks.len(),
{
    if fi == 0 {
    } else {
        assert(forall|j: int|
            0 <= j < tracks.drop_first().len() ==> tracks.drop_first()[j] == tracks[j + 1]);
        lemma_upsert_updates(tracks.drop_first(), index, title, artist, nanos, code, fi - 1);
    }
}

/// A duration, once present on a record, never decreases: an upsert leaves
/// every existing record's duration alone or adds onto it (saturating), and
/// never removes a record.
pub proof fn lemma_upsert_duration_monotone(
    tracks: Seq<TrackView>,
    index: Seq<char>,
    title: Seq<char>,
    artist: Seq<char>,
    nanos: u64,
    code: Seq<char>,
)
    ensures
        upsert_view(tracks, index, title, artist, nanos, code).len() >= tracks.len(),
        forall|j: int|
            0 <= j < tracks.len() ==> match (#[trigger] tracks[j]).duration {
                Some(d) => {
                    &&& upsert_view(tracks, index, title, artist, nanos, code)[j].duration is Some
                    &&& upsert_view(tracks, index, title, artist, nanos, code)[j].duration->0 >= d
                },
                None => true,
            },
    decreases tracks.len(),
{
    if tracks.len() > 0 {
        let r = upsert_view(tracks, index, title, artist, nanos, code);
        if tracks[0].key() == (index, title, artist) {
            assert(r[0].duration == Some(add_duration(tracks[0].duration, nanos)));
            assert(forall|j: int| 1 <= j < tracks.len() ==> r[j] == tracks[j]);
        } else {
            lemma_upsert_duration_monotone(tracks.drop_first(), index, title, artist, nanos, code);
            let rr = upsert_view(tracks.drop_first(), index, title, artist, nanos, code);
            assert(forall|j: int| 1 <= j < tracks.len() ==> tracks.drop_first()[j - 1] == tracks[j]);
            assert(forall|j: int| 1 <= j < r.len() ==> r[j] == rr[j - 1]);
        }
    }
}

/// Two upserts with the same identity triple onto a registry that does not
/// yet hold that triple leave exactly one record of it: the first upsert
/// appends the record, the second adds its duration onto the same record
/// (durations accumulate in encounter order) and keeps the first label code.
/// Nothing else in the registry moves or changes.
pub proof fn lemma_merge_accumulates(
    tracks: Seq<TrackView>,
    index: Seq<char>,
    title: Seq<char>,
    artist: Seq<char>,
    n1: u64,
    n2: u64,
    c1: Seq<char>,
    c2: Seq<char>,
)
    requires
        forall|j: int| 0 <= j < tracks.len() ==> (#[trigger] tracks[j]).key() != (index, title, artist),
    ensures
        ({
            let twice = upsert_view(
                upsert_view(tracks, index, title, artist, n1, c1),
                index,
                title,
                artist,
                n2,
                c2,
            );
            &&& twice.len() == tracks.len() + 1
            &&& twice[tracks.len() as int].key() == (index, title, artist)
            &&& twice[tracks.len() as int].duration == Some(add_duration(Some(n1), n2))
            &&& twice[tracks.len() as int].label_code == c1
            &&& forall|j: int| 0 <= j < tracks.len() ==> twice[j] == tracks[j]
        }),
{
    lemma_upsert_appends(tracks, index, title, artist, n1, c1);
    let once = upsert_view(tracks, index, title, artist, n1, c1);
    assert(forall|j: int| 0 <= j < tracks.len() ==> once[j] == tracks[j]);
    lemma_upsert_updates(once, index, title, artist, n2, c2, tracks.len() as int);
}

/// Upsert one recovered track into the registry, as [`upsert_view`] states:
/// merge into the first record with the same identity triple, else append.
pub fn upsert_track(
    tracks: &mut Vec<TrackRecord>,
    index: String,
    title: String,
    artist: String,
    nanos: u64,
    label_code: String,
)
    ensures
        final(tracks).deep_view() == upsert_view(
            old(tracks).deep_view(),
            index@,
            title@,
            artist@,
            nanos,
            label_code@,
        ),
{
    let ghost tv: Seq<TrackView> = old(tracks).deep_view();
    let mut i: usize = 0;
    while i < tracks.len()
        invariant
            i <= tv.len(),
            tv == old(tracks).deep_view(),
            tv == tracks.deep_view(),
            tracks@.len() == tv.len(),
            forall|j: int| 0 <= j < i ==> (#[trigger] tv[j]).key() != (index@, title@, artist@),
        decreases tv.len() - i,
    {
        let same = string_eq(&tracks[i].index, &index) && string_eq(&tracks[i].title, &title)
            && string_eq(&tracks[i].artist, &artist);
        if same {
            proof {
                assert(tv[i as int].key() == (index@, title@, artist@));
                lemma_upsert_updates(tv, index@, title@, artist@, nanos, label_code@, i as int);
                assert(i < tv.len());
            }
            let ghost pre = tracks@;
            let rec = tracks.remove(i);
            let added: u64 = match rec.duration {
                Some(v) => match v.checked_add(nanos) {
                    Some(s) => s,
                    None => u64::MAX,
                },
                None => nanos,
            };
            proof {
                assert(added == add_duration(tv[i as int].duration, nanos));
            }
            let updated = TrackRecord {
                index: rec.index,
                title: rec.title,
                artist: rec.artist,
                duration: Some(added),
                label_code: rec.label_code,
            };
            tracks.insert(i, updated);
            proof {
                let target = tv.update(
                    i as int,
                    TrackView {
                        index: tv[i as int].index,
                        title: tv[i as int].title,
                        artist: tv[i as int].artist,
                        duration: Some(add_duration(tv[i as int].duration, nanos)),
                        label_code: tv[i as int].label_code,
                    },
                );
                assert(upsert_view(tv, index@, title@, artist@, nanos, label_code@) == target);
                assert(tracks@.len() == tv.len());
                assert(updated@ == target[i as int]);
                pre.remove_ensures(i as int);
                pre.remove(i as int).insert_ensures(i as int, updated);
                assert forall|m: int| 0 <= m < tv.len() implies tracks.deep_view()[m] == target[m] by {
                    if m < i as int {
                        assert(tracks@[m] == pre.remove(i as int)[m]);
                        assert(pre.remove(i as int)[m] == pre[m]);
                    } else if m == i as int {
                        assert(tracks@[m] == updated);
                    } else {
                        assert(tracks@[m] == pre.remove(i as int)[m - 1]);
                        assert(pre.remove(i as int)[m - 1] == pre[m]);
                    }
                }
                assert(tracks.deep_view().len() == target.len());
                assert(tracks.deep_view() =~= target);
            }
            return ;
        }
        i = i + 1;
    }
    proof {
        lemma_upsert_appends(tv, index@, title@, artist@, nanos, label_code@);
    }
    let fresh = TrackRecord {
        index: index,
        title: title,
        artist: artist,
        duration: Some(nanos),
        label_code: label_code,
    };
    tracks.push(fresh);
    proof {
        assert(tracks.deep_view() =~~= tv.push(fresh@));
    }
}

} // verus!
