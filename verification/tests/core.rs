use gema_tracks::duration::{format_duration, parse_duration};
use gema_tracks::labels::find_label_code;
use gema_tracks::session::ParseSession;
use gema_tracks::tokenizer::parse_track_filename;

fn lines(texts: &[&str]) -> Vec<String> {
    texts.iter().map(|t| t.to_string()).collect()
}

#[test]
fn tokenizer_index_title_artist() {
    let (i, t, a) = parse_track_filename("07_MY_SONG_john doe.mp3");
    assert_eq!(i, "07");
    assert_eq!(t, "my song");
    assert_eq!(a, "john doe");
}

#[test]
fn tokenizer_no_digit_all_index() {
    let (i, t, a) = parse_track_filename("hello world");
    assert_eq!(i, "hello_world");
    assert_eq!(t, "");
    assert_eq!(a, "");
}

#[test]
fn tokenizer_digit_bearing_token_mixed() {
    let (i, t, a) = parse_track_filename("ab1 TITLE x");
    assert_eq!(i, "ab1");
    assert_eq!(t, "title");
    assert_eq!(a, "x");
}

#[test]
fn tokenizer_pure_digit_breaks_title() {
    // A digit-only token is not an upper token, so it ends the title group
    // and starts the artist group.
    let (i, t, a) = parse_track_filename("1 AA 22 BB");
    assert_eq!(i, "1");
    assert_eq!(t, "aa");
    assert_eq!(a, "22 bb");
}

#[test]
fn tokenizer_multi_token_index_after_digit() {
    let (i, t, a) = parse_track_filename("cd 3 xx TITLE artist");
    assert_eq!(i, "cd_3_xx");
    assert_eq!(t, "title");
    assert_eq!(a, "artist");
}

#[test]
fn tokenizer_tab_separated() {
    let (i, t, a) = parse_track_filename("9\tSONG\tme");
    assert_eq!(i, "9");
    assert_eq!(t, "song");
    assert_eq!(a, "me");
}

#[test]
fn tokenizer_extension_cut_at_first_dot() {
    let (i, t, a) = parse_track_filename("1.b.txt");
    assert_eq!(i, "1");
    assert_eq!(t, "");
    assert_eq!(a, "");
}

#[test]
fn duration_colon_fraction_verbatim() {
    assert_eq!(parse_duration("3:7"), Some(3_700_000_000));
}

#[test]
fn duration_rejects_letters() {
    assert_eq!(parse_duration("abc"), None);
}

#[test]
fn duration_extra_parts_ignored() {
    assert_eq!(parse_duration("3.14.15"), Some(3_140_000_000));
}

#[test]
fn duration_no_separator_fails() {
    assert_eq!(parse_duration("42"), None);
    assert_eq!(parse_duration(""), None);
}

#[test]
fn duration_empty_sides() {
    assert_eq!(parse_duration(".5"), Some(500_000_000));
    assert_eq!(parse_duration("3."), Some(3_000_000_000));
    assert_eq!(parse_duration(":"), None);
}

#[test]
fn duration_minute_like_input_is_seconds() {
    assert_eq!(parse_duration("1:30"), Some(1_300_000_000));
}

#[test]
fn format_rounds_to_hundredths() {
    assert_eq!(format_duration(3_700_000_000), "3:70");
    assert_eq!(format_duration(0), "0:00");
    assert_eq!(format_duration(1_005_000_000), "1:01");
    assert_eq!(format_duration(1_004_999_999), "1:00");
}

#[test]
fn format_parse_round_trip_on_canonical_shape() {
    for s in ["12:34", "0:00", "3:07", "100:99"] {
        let v = parse_duration(s).unwrap();
        assert_eq!(format_duration(v), s);
    }
}

#[test]
fn round_trip_not_exact_in_general() {
    let v = parse_duration("3:7").unwrap();
    assert_eq!(format_duration(v), "3:70");
}

#[test]
fn label_no_match_is_empty_not_error() {
    let table = vec![("AB".to_string(), "LC1".to_string())];
    assert_eq!(find_label_code(&table, "zz99"), "");
    assert_eq!(find_label_code(&table, ""), "");
}

#[test]
fn label_match_is_case_insensitive() {
    let table = vec![("AB".to_string(), "LC1".to_string())];
    assert_eq!(find_label_code(&table, "ab12"), "LC1");
}

#[test]
fn label_first_entry_wins() {
    let table = vec![
        ("A".to_string(), "first".to_string()),
        ("AB".to_string(), "second".to_string()),
    ];
    assert_eq!(find_label_code(&table, "abc"), "first");
}

#[test]
fn alternating_layout_two_pairs() {
    let mut s = ParseSession::new(Vec::new());
    s.parse_listing("l.txt", lines(&["TrackA", "1:30", "TrackB", "2:00"]));
    assert_eq!(s.errors.len(), 0);
    assert_eq!(s.tracks.len(), 2);
    assert_eq!(s.tracks[0].index, "tracka");
    assert_eq!(s.tracks[0].duration, Some(1_300_000_000));
    assert_eq!(s.tracks[1].index, "trackb");
    assert_eq!(s.tracks[1].duration, Some(2_000_000_000));
}

#[test]
fn block_layout_fallback() {
    let mut s = ParseSession::new(Vec::new());
    s.parse_listing("l.txt", lines(&["TrackA", "TrackB", "1:30", "2:00"]));
    assert_eq!(s.errors.len(), 0);
    assert_eq!(s.tracks.len(), 2);
    assert_eq!(s.tracks[0].index, "tracka");
    assert_eq!(s.tracks[0].duration, Some(1_300_000_000));
    assert_eq!(s.tracks[1].index, "trackb");
    assert_eq!(s.tracks[1].duration, Some(2_000_000_000));
}

#[test]
fn merging_sums_durations() {
    let mut s = ParseSession::new(Vec::new());
    s.parse_listing("l.txt", lines(&["TrackA", "1:30", "TrackA", "2:00"]));
    assert_eq!(s.errors.len(), 0);
    assert_eq!(s.tracks.len(), 1);
    assert_eq!(s.tracks[0].duration, Some(3_300_000_000));
}

#[test]
fn empty_listing_records_diagnostic() {
    let mut s = ParseSession::new(Vec::new());
    s.parse_listing("e.txt", lines(&["", "   "]));
    assert_eq!(s.tracks.len(), 0);
    assert_eq!(s.errors.len(), 1);
    assert_eq!(s.errors[0], "empty listing file: e.txt");
}

#[test]
fn block_mismatch_skips_file() {
    let mut s = ParseSession::new(Vec::new());
    s.parse_listing("m.txt", lines(&["A", "B", "1:30"]));
    assert_eq!(s.tracks.len(), 0);
    assert_eq!(s.errors.len(), 1);
    assert_eq!(s.errors[0], "track/duration count mismatch in file: m.txt");
}

#[test]
fn invalid_duration_skips_pair_only() {
    let mut s = ParseSession::new(Vec::new());
    s.parse_listing("l.txt", lines(&["TrackA", "0:xx", "TrackB", "2:00"]));
    assert_eq!(s.tracks.len(), 1);
    assert_eq!(s.tracks[0].index, "trackb");
    assert_eq!(s.errors.len(), 1);
    assert_eq!(s.errors[0], "invalid duration '0:xx' for track 'TrackA'");
}

#[test]
fn listing_lines_are_trimmed() {
    let mut s = ParseSession::new(Vec::new());
    s.parse_listing("l.txt", lines(&["  TrackA  ", " 1:30 "]));
    assert_eq!(s.tracks.len(), 1);
    assert_eq!(s.tracks[0].index, "tracka");
    assert_eq!(s.tracks[0].duration, Some(1_300_000_000));
}

#[test]
fn direct_filename_keeps_original_case() {
    let table = vec![("AB".to_string(), "LC9".to_string())];
    let mut s = ParseSession::new(table);
    s.parse_direct("music/AB12_SONG_artist.wav");
    assert_eq!(s.errors.len(), 0);
    assert_eq!(s.tracks.len(), 1);
    assert_eq!(s.tracks[0].index, "AB12");
    assert_eq!(s.tracks[0].title, "_SONG");
    assert_eq!(s.tracks[0].artist, "artist");
    assert_eq!(s.tracks[0].duration, None);
    assert_eq!(s.tracks[0].label_code, "LC9");
}

#[test]
fn direct_filename_lazy_index_greedy_title() {
    let mut s = ParseSession::new(Vec::new());
    s.parse_direct("01_TITLE_artist.mp3");
    assert_eq!(s.tracks.len(), 1);
    assert_eq!(s.tracks[0].index, "01");
    assert_eq!(s.tracks[0].title, "_TITLE");
    assert_eq!(s.tracks[0].artist, "artist");
}

#[test]
fn direct_filename_unrecognized_shape() {
    let mut s = ParseSession::new(Vec::new());
    s.parse_direct("noformat.mp3");
    assert_eq!(s.tracks.len(), 0);
    assert_eq!(s.errors.len(), 1);
    assert_eq!(s.errors[0], "unrecognized format: noformat.mp3");
}

#[test]
fn add_file_deduplicates() {
    let mut s = ParseSession::new(Vec::new());
    s.add_file("a.wav".to_string());
    s.add_file("b.txt".to_string());
    s.add_file("a.wav".to_string());
    assert_eq!(s.filenames, vec!["a.wav".to_string(), "b.txt".to_string()]);
}

#[test]
fn begin_pass_clears_tracks_and_errors() {
    let mut s = ParseSession::new(Vec::new());
    s.parse_listing("l.txt", lines(&["TrackA", "1:30"]));
    s.record_error("boom".to_string());
    s.begin_pass();
    assert_eq!(s.tracks.len(), 0);
    assert_eq!(s.errors.len(), 0);
}

#[test]
fn export_with_zero_tracks_yields_nothing() {
    let s = ParseSession::new(Vec::new());
    assert!(s.export_rows().is_none());
}

#[test]
fn export_rows_have_header_and_five_columns() {
    let mut s = ParseSession::new(Vec::new());
    s.parse_listing("l.txt", lines(&["TrackA", "1:30"]));
    let rows = s.export_rows().unwrap();
    assert_eq!(rows.len(), 2);
    assert_eq!(rows[0], vec!["Index", "Titel", "Künstler", "Dauer", "Labelcode"]);
    assert_eq!(rows[1], vec!["tracka", "", "", "1:30", ""]);
}

#[test]
fn export_name_from_first_input() {
    let mut s = ParseSession::new(Vec::new());
    assert!(s.suggested_export_name().is_none());
    s.add_file("dir/album.txt".to_string());
    assert_eq!(s.suggested_export_name().unwrap(), "album_formatted.csv");
}

#[test]
fn listing_path_detection() {
    assert!(gema_tracks::paths::is_listing_path_x("dir/list.txt"));
    assert!(!gema_tracks::paths::is_listing_path_x("dir/song.wav"));
    assert!(!gema_tracks::paths::is_listing_path_x(".txt"));
}

#[test]
fn direct_filename_index_may_hold_dots() {
    let mut s = ParseSession::new(Vec::new());
    s.parse_direct("1.2_SONG_artist.wav");
    assert_eq!(s.tracks.len(), 1);
    assert_eq!(s.tracks[0].index, "1.2");
    assert_eq!(s.tracks[0].title, "_SONG");
    assert_eq!(s.tracks[0].artist, "artist");
}

#[test]
fn direct_filename_artist_must_not_hold_dots() {
    let mut s = ParseSession::new(Vec::new());
    s.parse_direct("01_TITLE_ar.tist.wav");
    assert_eq!(s.tracks.len(), 0);
    assert_eq!(s.errors.len(), 1);
}

#[test]
fn tokenizer_uppercase_beyond_ascii() {
    let (i, t, a) = parse_track_filename("1 ÄÖÜ x");
    assert_eq!(i, "1");
    assert_eq!(t, "äöü");
    assert_eq!(a, "x");
}

#[test]
fn format_large_value() {
    assert_eq!(format_duration(3_600_000_000_000), "3600:00");
}
