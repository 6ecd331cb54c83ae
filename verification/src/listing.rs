//! The listing-file parser's rules: which lines count, how the layout is
//! detected, how lines pair up, and what each pair does to the registry and
//! the diagnostic log.

use vstd::prelude::*;
use crate::chars::upper_of;
use crate::duration::duration_nanos_of;
use crate::labels::label_lookup;
use crate::records::{upsert_view, TrackView};
use crate::text::trimmed;
use crate::tokenizer::{group_text, Group};

verus! {

/// The lines that take part in parsing: those that are not blank
/// (whitespace-only lines are dropped).
pub open spec fn non_blank(lines: Seq<Seq<char>>) -> Seq<Seq<char>> {
    lines.filter(|l: Seq<char>| trimmed(l).len() != 0)
}

/// The alternating layout: an even number of lines, and every line at an odd
/// position holds a colon (the duration marker).
pub open spec fn alternating(ls: Seq<Seq<char>>) -> bool {
    &&& ls.len() % 2 == 0
    &&& forall|k: int| 0 <= k < ls.len() && k % 2 == 1 ==> (#[trigger] ls[k]).contains(':')
}

/// The (track text, duration text) pairs of a listing: alternating lines
/// pair each even line with the odd line after it; otherwise the first half
/// are tracks and the second half durations, paired by position.
pub open spec fn paired(ls: Seq<Seq<char>>) -> Seq<(Seq<char>, Seq<char>)> {
    if alternating(ls) {
        Seq::new((ls.len() / 2) as nat, |k: int| (ls[2 * k], ls[2 * k + 1]))
    } else {
        Seq::new((ls.len() / 2) as nat, |k: int| (ls[k], ls[ls.len() / 2 + k]))
    }
}

/// The diagnostic recorded for a pair whose duration does not parse.
pub open spec fn invalid_duration_msg(d: Seq<char>, t: Seq<char>) -> Seq<char> {
    "invalid duration '"@ + d + "' for track '"@ + t + "'"@
}

/// The diagnostic recorded for a listing with no usable lines.
pub open spec fn empty_listing_msg(path: Seq<char>) -> Seq<char> {
    "empty listing file: "@ + path
}

/// The diagnostic recorded when the two halves of a block listing differ in
/// length.
pub open spec fn mismatch_msg(path: Seq<char>) -> Seq<char> {
    "track/duration count mismatch in file: "@ + path
}

/// The diagnostic recorded for a direct file name of no recognized shape.
pub open spec fn unrecognized_msg(fname: Seq<char>) -> Seq<char> {
    "unrecognized format: "@ + fname
}

/// What one (track text, duration text) pair does to the registry and the
/// diagnostic log.  Both texts are trimmed; a duration that does not parse
/// records a diagnostic and leaves the registry alone; otherwise the track
/// text is classified into its triple, the label code is resolved from the
/// index, and the result is upserted.
pub open spec fn pair_outcome(
    tracks: Seq<TrackView>,
    errors: Seq<Seq<char>>,
    labels: Seq<(Seq<char>, Seq<char>)>,
    traw: Seq<char>,
    draw: Seq<char>,
) -> (Seq<TrackView>, Seq<Seq<char>>) {
    let tt = trimmed(traw);
    let dt = trimmed(draw);
    match duration_nanos_of(dt) {
        None => (tracks, errors.push(invalid_duration_msg(dt, tt))),
        Some(n) => {
            let idx = group_text(tt, Group::Index, '_');
            (
                upsert_view(
                    tracks,
                    idx,
                    group_text(tt, Group::Title, ' '),
                    group_text(tt, Group::Artist, ' '),
                    n,
                    label_lookup(labels, upper_of(idx)),
                ),
                errors,
            )
        },
    }
}

/// [`pair_outcome`] folded over a pair sequence, left to right.
pub open spec fn pairs_outcome(
    tracks: Seq<TrackView>,
    errors: Seq<Seq<char>>,
    labels: Seq<(Seq<char>, Seq<char>)>,
    pairs: Seq<(Seq<char>, Seq<char>)>,
) -> (Seq<TrackView>, Seq<Seq<char>>)
    decreases pairs.len(),
{
    if pairs.len() == 0 {
        (tracks, errors)
    } else {
        let o = pair_outcome(tracks, errors, labels, pairs[0].0, pairs[0].1);
        pairs_outcome(o.0, o.1, labels, pairs.drop_first())
    }
}

pub proof fn lemma_pairs_outcome_snoc(
    tracks: Seq<TrackView>,
    errors: Seq<Seq<char>>,
    labels: Seq<(Seq<char>, Seq<char>)>,
    pairs: Seq<(Seq<char>, Seq<char>)>,
    x: (Seq<char>, Seq<char>),
)
    ensures
        pairs_outcome(tracks, errors, labels, pairs.push(x)) == ({
            let o = pairs_outcome(tracks, errors, labels, pairs);
            pair_outcome(o.0, o.1, labels, x.0, x.1)
        }),
    decreases pairs.len(),
{
    reveal_with_fuel(pairs_outcome, 2);
    if pairs.len() == 0 {
        assert(pairs.push(x)[0] == x);
        assert(pairs.push(x).drop_first() =~= pairs);
    } else {
        assert(pairs.push(x)[0] == pairs[0]);
        assert(pairs.push(x).drop_first() =~= pairs.drop_first().push(x));
        let o = pair_outcome(tracks, errors, labels, pairs[0].0, pairs[0].1);
        lemma_pairs_outcome_snoc(o.0, o.1, labels, pairs.drop_first(), x);
    }
}

} // verus!
