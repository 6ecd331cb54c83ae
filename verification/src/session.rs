//! A parse session: the input set, the track registry, the diagnostic log
//! and the label table, with the per-file parsing passes over them.

use vstd::prelude::*;
use vstd::string::StringExecFns;
use crate::chars::{chars_of, string_eq, string_from_chars, upper_of};
use crate::direct::{direct_matches, match_direct, split_ok};
use crate::duration::{format_rep, format_duration};
use crate::labels::{find_label_code, label_lookup};
use crate::listing::{
    alternating, empty_listing_msg, invalid_duration_msg, mismatch_msg, non_blank, paired,
    pairs_outcome, lemma_pairs_outcome_snoc, unrecognized_msg,
};
use crate::paths::{file_name_chars, file_name_of, stem_chars, stem_of};
use crate::records::{upsert_track, TrackRecord, TrackView};
use crate::text::{contains_char_x, trim_x, trimmed};
use crate::tokenizer::parse_track_filename;

verus! {

/// The state a parse pass works on: the ordered, deduplicated input paths,
/// the recovered tracks, the diagnostic log, and the label table (read-only
/// for the life of the session).
pub struct ParseSession {
    pub filenames: Vec<String>,
    pub tracks: Vec<TrackRecord>,
    pub errors: Vec<String>,
    pub labels: Vec<(String, String)>,
}

/// Some string of `fs` holds exactly the characters `p`.
pub open spec fn has_string(fs: Seq<Seq<char>>, p: Seq<char>) -> bool {
    exists|k: int| 0 <= k < fs.len() && fs[k] == p
}

fn contains_string(v: &Vec<String>, p: &String) -> (r: bool)
    ensures
        r == has_string(v.deep_view(), p@),
{
    let mut i: usize = 0;
    while i < v.len()
        invariant
            i <= v@.len(),
            forall|k: int| 0 <= k < i ==> v.deep_view()[k] != p@,
        decreases v@.len() - i,
    {
        if string_eq(&v[i], p) {
            assert(v.deep_view()[i as int] == p@);
            return true;
        }
        i = i + 1;
    }
    false
}

impl ParseSession {
    /// A fresh session over the given label table: no inputs, no tracks, no
    /// diagnostics yet.
    pub fn new(labels: Vec<(String, String)>) -> (r: ParseSession)
        ensures
            r.labels == labels,
            r.filenames@.len() == 0,
            r.tracks@.len() == 0,
            r.errors@.len() == 0,
    {
        ParseSession { filenames: Vec::new(), tracks: Vec::new(), errors: Vec::new(), labels }
    }

    /// Add a path to the input set; a path already present is left alone, in
    /// its place.
    pub fn add_file(&mut self, path: String)
        ensures
            final(self).tracks == old(self).tracks,
            final(self).errors == old(self).errors,
            final(self).labels == old(self).labels,
            has_string(old(self).filenames.deep_view(), path@)
                ==> final(self).filenames == old(self).filenames,
            !has_string(old(self).filenames.deep_view(), path@)
                ==> final(self).filenames.deep_view()
                == old(self).filenames.deep_view().push(path@),
    {
        let present = contains_string(&self.filenames, &path);
        if !present {
            let ghost pre = self.filenames.deep_view();
            self.filenames.push(path);
            proof {
                assert(self.filenames.deep_view() =~~= pre.push(self.filenames@.last()@));
            }
        }
    }

    /// Start a parse pass: the registry and the diagnostic log are cleared
    /// wholesale; the input set and the label table stay.
    pub fn begin_pass(&mut self)
        ensures
            final(self).tracks@.len() == 0,
            final(self).errors@.len() == 0,
            final(self).filenames == old(self).filenames,
            final(self).labels == old(self).labels,
    {
        self.tracks = Vec::new();
        self.errors = Vec::new();
    }

    /// Append one diagnostic to the log (for conditions the caller detects,
    /// such as an unreadable file).
    pub fn record_error(&mut self, msg: String)
        ensures
            final(self).tracks == old(self).tracks,
            final(self).filenames == old(self).filenames,
            final(self).labels == old(self).labels,
            final(self).errors.deep_view() == old(self).errors.deep_view().push(msg@),
    {
        let ghost pre = self.errors.deep_view();
        self.errors.push(msg);
        proof {
            assert(self.errors.deep_view() =~~= pre.push(self.errors@.last()@));
        }
    }

    /// Parse one direct audio file name: when the name has the recognized
    /// shape, the captured index (original case) resolves the label code and
    /// a record without a duration is appended; otherwise a diagnostic is
    /// recorded and nothing else changes.
    pub fn parse_direct(&mut self, path: &str)
        ensures
            final(self).filenames == old(self).filenames,
            final(self).labels == old(self).labels,
            ({
                let fname = file_name_of(path@);
                if direct_matches(fname) {
                    &&& final(self).errors == old(self).errors
                    &&& exists|i: int, j: int|
                        {
                            &&& split_ok(fname, i, j)
                            &&& (forall|i2: int, j2: int| 0 <= i2 < i ==> !split_ok(fname, i2, j2))
                            &&& (forall|j2: int| j2 > j ==> !split_ok(fname, i, j2))
                            &&& final(self).tracks.deep_view() == old(self).tracks.deep_view().push(
                                TrackView {
                                    index: fname.take(i),
                                    title: fname.subrange(i, j),
                                    artist: fname.subrange(j + 1, fname.len() - 4),
                                    duration: None,
                                    label_code: label_lookup(
                                        old(self).labels.deep_view(),
                                        upper_of(fname.take(i)),
                                    ),
                                },
                            )
                        }
                } else {
                    &&& final(self).tracks == old(self).tracks
                    &&& final(self).errors.deep_view() == old(self).errors.deep_view().push(
                        unrecognized_msg(fname),
                    )
                }
            }),
    {
        let cs = chars_of(path);
        let f = file_name_chars(&cs);
        match match_direct(&f) {
            Some(split) => {
                let i = split.0;
                let j = split.1;
                let n = f.len();
                let idx = string_from_chars(&crate::text::subvec(&f, 0, i));
                let ttl = string_from_chars(&crate::text::subvec(&f, i, j));
                let art = string_from_chars(&crate::text::subvec(&f, j + 1, n - 4));
                let code = find_label_code(&self.labels, idx.as_str());
                let ghost pre = self.tracks.deep_view();
                proof {
                    assert(idx@ =~= f@.take(i as int));
                }
                self.tracks.push(
                    TrackRecord {
                        index: idx,
                        title: ttl,
                        artist: art,
                        duration: None,
                        label_code: code,
                    },
                );
                proof {
                    assert(self.tracks.deep_view() =~~= pre.push(self.tracks@.last()@));
                }
            },
            None => {
                let mut m = String::new();
                m.append("unrecognized format: ");
                let fs = string_from_chars(&f);
                m.append(fs.as_str());
                proof {
                    assert(m@ =~= unrecognized_msg(f@));
                }
                let ghost pre = self.errors.deep_view();
                self.errors.push(m);
                proof {
                    assert(self.errors.deep_view() =~~= pre.push(self.errors@.last()@));
                }
            },
        }
    }

    /// Parse one listing file, given its readable lines in order.  Blank
    /// lines are dropped; an empty listing or a track/duration count
    /// mismatch records one diagnostic and adds no track; otherwise the
    /// detected layout pairs each track text with a duration text and every
    /// pair is folded into the registry as [`pairs_outcome`] states.
    pub fn parse_listing(&mut self, path: &str, lines: Vec<String>)
        ensures
            final(self).filenames == old(self).filenames,
            final(self).labels == old(self).labels,
            ({
                let nb = non_blank(lines.deep_view());
                if nb.len() == 0 {
                    &&& final(self).tracks == old(self).tracks
                    &&& final(self).errors.deep_view() == old(self).errors.deep_view().push(
                        empty_listing_msg(path@),
                    )
                } else if !alternating(nb) && nb.len() % 2 == 1 {
                    &&& final(self).tracks == old(self).tracks
                    &&& final(self).errors.deep_view() == old(self).errors.deep_view().push(
                        mismatch_msg(path@),
                    )
                } else {
                    (final(self).tracks.deep_view(), final(self).errors.deep_view())
                        == pairs_outcome(
                        old(self).tracks.deep_view(),
                        old(self).errors.deep_view(),
                        old(self).labels.deep_view(),
                        paired(nb),
                    )
                }
            }),
    {
        let ghost lsv: Seq<Seq<char>> = lines.deep_view();
        let mut kept: Vec<String> = Vec::new();
        let mut i: usize = 0;
        proof {
            reveal(Seq::filter);
            assert(lsv.take(0) =~= Seq::<Seq<char>>::empty());
            assert(kept.deep_view() =~= non_blank(lsv.take(0)));
        }
        while i < lines.len()
            invariant
                i <= lsv.len(),
                lsv == lines.deep_view(),
                lines@.len() == lsv.len(),
                kept.deep_view() == non_blank(lsv.take(i as int)),
            decreases lsv.len() - i,
        {
            let lc = chars_of(lines[i].as_str());
            let tl = trim_x(&lc);
            let ghost pre = kept.deep_view();
            proof {
                assert(lsv[i as int] == lines@[i as int]@);
            }
            if tl.len() > 0 {
                kept.push(lines[i].clone());
                proof {
                    assert(kept.deep_view() =~~= pre.push(lsv[i as int]));
                }
            }
            proof {
                reveal(Seq::filter);
                assert(lsv.take(i as int + 1).drop_last() =~= lsv.take(i as int));
                assert(lsv.take(i as int + 1).last() == lsv[i as int]);
                assert(trimmed(lsv[i as int]) == tl@);
                assert(kept.deep_view() == non_blank(lsv.take(i as int + 1)));
            }
            i = i + 1;
        }
        proof {
            assert(lsv.take(lsv.len() as int) =~= lsv);
        }
        let ghost nb = non_blank(lsv);
        let nlen = kept.len();
        if nlen == 0 {
            let mut m = String::new();
            m.append("empty listing file: ");
            m.append(path);
            proof {
                assert(m@ =~= empty_listing_msg(path@));
            }
            let ghost pre = self.errors.deep_view();
            self.errors.push(m);
            proof {
                assert(self.errors.deep_view() =~~= pre.push(self.errors@.last()@));
            }
            return ;
        }
        let mut all_odd = true;
        let mut k: usize = 0;
        while k < nlen
            invariant
                k <= nlen,
                nlen == kept@.len(),
                kept.deep_view() == nb,
                nb.len() == nlen,
                all_odd == (forall|k2: int|
                    0 <= k2 < k && k2 % 2 == 1 ==> (#[trigger] nb[k2]).contains(':')),
            decreases nlen - k,
        {
            if k % 2 == 1 {
                let cs = chars_of(kept[k].as_str());
                let found_colon = contains_char_x(&cs, ':');
                proof {
                    assert(nb[k as int] == kept@[k as int]@);
                }
                if !found_colon {
                    all_odd = false;
                }
            }
            k = k + 1;
        }
        let alt = nlen % 2 == 0 && all_odd;
        proof {
            assert(alt == alternating(nb));
        }
        if !alt && nlen % 2 == 1 {
            let mut m = String::new();
            m.append("track/duration count mismatch in file: ");
            m.append(path);
            proof {
                assert(m@ =~= mismatch_msg(path@));
            }
            let ghost pre = self.errors.deep_view();
            self.errors.push(m);
            proof {
                assert(self.errors.deep_view() =~~= pre.push(self.errors@.last()@));
            }
            return ;
        }
        let half = nlen / 2;
        let mut pv: Vec<(String, String)> = Vec::new();
        if alt {
            let mut q: usize = 0;
            while q < half
                invariant
                    q <= half,
                    half == nlen / 2,
                    nlen == kept@.len(),
                    kept.deep_view() == nb,
                    nb.len() == nlen,
                    nlen % 2 == 0,
                    pv@.len() == q,
                    forall|k2: int|
                        0 <= k2 < q ==> pv.deep_view()[k2] == (nb[2 * k2], nb[2 * k2 + 1]),
                decreases half - q,
            {
                let a = kept[2 * q].clone();
                let b = kept[2 * q + 1].clone();
                let ghost prev = pv.deep_view();
                pv.push((a, b));
                proof {
                    assert(pv.deep_view() =~~= prev.push((a@, b@)));
                    assert(a@ == nb[2 * (q as int)]);
                    assert(b@ == nb[2 * (q as int) + 1]);
                    assert forall|k2: int|
                        0 <= k2 < q + 1 implies pv.deep_view()[k2] == (nb[2 * k2], nb[2 * k2 + 1]) by {
                        if k2 < q {
                            assert(pv.deep_view()[k2] == prev[k2]);
                        }
                    }
                }
                q = q + 1;
            }
        } else {
            let mut q: usize = 0;
            while q < half
                invariant
                    q <= half,
                    half == nlen / 2,
                    nlen == kept@.len(),
                    kept.deep_view() == nb,
                    nb.len() == nlen,
                    nlen % 2 == 0,
                    pv@.len() == q,
                    forall|k2: int|
                        0 <= k2 < q ==> pv.deep_view()[k2] == (nb[k2], nb[nb.len() / 2 + k2]),
                decreases half - q,
            {
                let a = kept[q].clone();
                let b = kept[half + q].clone();
                let ghost prev = pv.deep_view();
                pv.push((a, b));
                proof {
                    assert(pv.deep_view() =~~= prev.push((a@, b@)));
                    assert(a@ == nb[q as int]);
                    assert(b@ == nb[nb.len() / 2 + q as int]);
                    assert forall|k2: int|
                        0 <= k2 < q + 1 implies pv.deep_view()[k2] == (nb[k2], nb[nb.len() / 2 + k2]) by {
                        if k2 < q {
                            assert(pv.deep_view()[k2] == prev[k2]);
                        }
                    }
                }
                q = q + 1;
            }
        }
        proof {
            assert(pv.deep_view() =~~= paired(nb));
        }
        let ghost tv0: Seq<TrackView> = old(self).tracks.deep_view();
        let ghost ev0: Seq<Seq<char>> = old(self).errors.deep_view();
        let ghost lv: Seq<(Seq<char>, Seq<char>)> = old(self).labels.deep_view();
        let ghost pw: Seq<(Seq<char>, Seq<char>)> = pv.deep_view();
        let mut p: usize = 0;
        proof {
            assert(pw.take(0) =~= Seq::<(Seq<char>, Seq<char>)>::empty());
        }
        while p < pv.len()
            invariant
                p <= pw.len(),
                pw == pv.deep_view(),
                pv@.len() == pw.len(),
                self.filenames == old(self).filenames,
                self.labels == old(self).labels,
                lv == self.labels.deep_view(),
                lv == old(self).labels.deep_view(),
                tv0 == old(self).tracks.deep_view(),
                ev0 == old(self).errors.deep_view(),
                (self.tracks.deep_view(), self.errors.deep_view()) == pairs_outcome(
                    tv0,
                    ev0,
                    lv,
                    pw.take(p as int),
                ),
            decreases pw.len() - p,
        {
            let tchars = chars_of(pv[p].0.as_str());
            let tt = trim_x(&tchars);
            let tt_s = string_from_chars(&tt);
            let dchars = chars_of(pv[p].1.as_str());
            let dt = trim_x(&dchars);
            let dt_s = string_from_chars(&dt);
            proof {
                assert(pw[p as int] == (pv@[p as int].0@, pv@[p as int].1@));
                assert(tt_s@ == trimmed(pw[p as int].0));
                assert(dt_s@ == trimmed(pw[p as int].1));
            }
            let dur = crate::duration::parse_duration(dt_s.as_str());
            match dur {
                None => {
                    let mut m = String::new();
                    m.append("invalid duration '");
                    m.append(dt_s.as_str());
                    m.append("' for track '");
                    m.append(tt_s.as_str());
                    m.append("'");
                    proof {
                        assert(m@ =~= invalid_duration_msg(dt_s@, tt_s@));
                    }
                    let ghost pre = self.errors.deep_view();
                    self.errors.push(m);
                    proof {
                        assert(self.errors.deep_view() =~~= pre.push(self.errors@.last()@));
                    }
                },
                Some(nanos) => {
                    let triple = parse_track_filename(tt_s.as_str());
                    let code = find_label_code(&self.labels, triple.0.as_str());
                    upsert_track(&mut self.tracks, triple.0, triple.1, triple.2, nanos, code);
                },
            }
            proof {
                lemma_pairs_outcome_snoc(tv0, ev0, lv, pw.take(p as int), pw[p as int]);
                assert(pw.take(p as int + 1) =~= pw.take(p as int).push(pw[p as int]));
                assert((self.tracks.deep_view(), self.errors.deep_view()) == pairs_outcome(
                    tv0,
                    ev0,
                    lv,
                    pw.take(p as int + 1),
                ));
            }
            p = p + 1;
        }
        proof {
            assert(pw.take(pw.len() as int) =~= pw);
        }
    }

    /// The CSV cell text of a duration: the formatted value, or nothing
    /// while the duration is unknown.
    pub fn duration_cell(d: Option<u64>) -> (r: String)
        ensures
            r@ == duration_text(d),
    {
        match d {
            Some(n) => format_duration(n),
            None => String::new(),
        }
    }

    /// The rows to export: the five-column header and one row per track, in
    /// registry order — or nothing at all when there are no tracks, so that
    /// no file is produced for an empty registry.
    pub fn export_rows(&self) -> (r: Option<Vec<Vec<String>>>)
        ensures
            match r {
                None => self.tracks@.len() == 0,
                Some(rows) => self.tracks@.len() > 0 && rows.deep_view() == export_view(
                    self.tracks.deep_view(),
                ),
            },
    {
        if self.tracks.len() == 0 {
            return None;
        }
        let mut rows: Vec<Vec<String>> = Vec::new();
        let mut hdr: Vec<String> = Vec::new();
        hdr.push(String::from_str("Index"));
        hdr.push(String::from_str("Titel"));
        hdr.push(String::from_str("Künstler"));
        hdr.push(String::from_str("Dauer"));
        hdr.push(String::from_str("Labelcode"));
        proof {
            assert(hdr.deep_view() =~~= header_view());
        }
        rows.push(hdr);
        let ghost tv = self.tracks.deep_view();
        let mut i: usize = 0;
        proof {
            assert(rows.deep_view() =~~= seq![header_view()]);
        }
        while i < self.tracks.len()
            invariant
                i <= tv.len(),
                tv == self.tracks.deep_view(),
                self.tracks@.len() == tv.len(),
                rows@.len() == i + 1,
                rows.deep_view()[0] == header_view(),
                forall|k: int| 0 <= k < i ==> rows.deep_view()[k + 1] == row_view(tv[k]),
            decreases tv.len() - i,
        {
            let t = &self.tracks[i];
            let mut row: Vec<String> = Vec::new();
            row.push(t.index.clone());
            row.push(t.title.clone());
            row.push(t.artist.clone());
            row.push(Self::duration_cell(t.duration));
            row.push(t.label_code.clone());
            proof {
                assert(row.deep_view() =~~= row_view(tv[i as int]));
            }
            let ghost prev = rows.deep_view();
            rows.push(row);
            proof {
                assert(rows.deep_view() =~~= prev.push(row_view(tv[i as int])));
                assert forall|k: int| 0 <= k < i + 1 implies rows.deep_view()[k + 1] == row_view(
                    tv[k],
                ) by {
                    if k < i {
                        assert(rows.deep_view()[k + 1] == prev[k + 1]);
                    }
                }
            }
            i = i + 1;
        }
        proof {
            assert(rows.deep_view() =~~= export_view(tv));
        }
        Some(rows)
    }

    /// The file name to offer for the export, derived from the first input
    /// path: its stem with `_formatted.csv` appended.  Nothing is offered
    /// while the input set is empty.
    pub fn suggested_export_name(&self) -> (r: Option<String>)
        ensures
            match r {
                None => self.filenames@.len() == 0,
                Some(s) => self.filenames@.len() > 0 && s@ == stem_of(
                    file_name_of(self.filenames@[0]@),
                ) + "_formatted.csv"@,
            },
    {
        if self.filenames.len() == 0 {
            return None;
        }
        let cs = chars_of(self.filenames[0].as_str());
        let f = file_name_chars(&cs);
        let st = stem_chars(&f);
        let mut s = string_from_chars(&st);
        s.append("_formatted.csv");
        Some(s)
    }
}

/// The CSV text of a duration cell: the formatted duration, or empty while
/// none is known.
pub open spec fn duration_text(d: Option<u64>) -> Seq<char> {
    match d {
        Some(n) => format_rep(n),
        None => Seq::empty(),
    }
}

/// The five cells of one exported row: index, title, artist, duration text,
/// label code.
pub open spec fn row_view(t: TrackView) -> Seq<Seq<char>> {
    seq![t.index, t.title, t.artist, duration_text(t.duration), t.label_code]
}

/// The header row of the export.
pub open spec fn header_view() -> Seq<Seq<char>> {
    seq!["Index"@, "Titel"@, "Künstler"@, "Dauer"@, "Labelcode"@]
}

/// The whole export: the header row, then one row per track in order.
pub open spec fn export_view(ts: Seq<TrackView>) -> Seq<Seq<Seq<char>>> {
    seq![header_view()] + ts.map_values(|t: TrackView| row_view(t))
}

} // verus!
