use listen_log::artist::{get_artists, ARTIST_JOINER, ENTRY_SEPARATOR};
use listen_log::counter::Counter;
use listen_log::freq::FreqEntry;
use listen_log::line::{LineError, ParsedLine};
use listen_log::log::AlbumLog;
use listen_log::rank::RankedEntry;
use listen_log::ranking::{rank_artists, rank_totals};
use listen_log::report::{build_report, digit_count, prompt_answer};
use listen_log::text::{text_cmp, trimmed};
use std::cmp::Ordering;

fn lines(v: &[&str]) -> Vec<String> {
    v.iter().map(|s| s.to_string()).collect()
}

fn entry(line: &str) -> (String, u64) {
    match ParsedLine::from_str(line) {
        Ok(ParsedLine::Entry(e)) => (e.value, e.freq),
        Ok(ParsedLine::Date(d)) => panic!("read as date {d:?}"),
        Err(e) => panic!("not read: {e:?}"),
    }
}

fn date(line: &str) -> String {
    match ParsedLine::from_str(line) {
        Ok(ParsedLine::Date(d)) => d,
        Ok(ParsedLine::Entry(e)) => panic!("read as entry {:?}", e.value),
        Err(e) => panic!("not read: {e:?}"),
    }
}

fn ranked(pairs: &[(&str, u64)]) -> Vec<RankedEntry> {
    let entries: Vec<FreqEntry> =
        pairs.iter().map(|(v, f)| FreqEntry::new(*f, v.to_string())).collect();
    rank_totals(&entries).unwrap()
}

fn summary(r: &[RankedEntry]) -> Vec<(usize, usize, String, u64)> {
    r.iter()
        .map(|e| (e.idx, e.rank, e.freq_entry.value.clone(), e.freq_entry.freq))
        .collect()
}

#[test]
fn date_line_is_read() {
    assert_eq!(date("→ 2024-01-01"), "2024-01-01");
    assert_eq!(date("  →2024-01-02   "), "2024-01-02");
    assert_eq!(date("→"), "");
}

#[test]
fn date_wins_over_entry() {
    assert_eq!(date("→ Artist – Album (2x)"), "Artist – Album (2x)");
}

#[test]
fn entry_without_suffix_counts_once() {
    assert_eq!(entry("Abbey Road"), ("Abbey Road".to_string(), 1));
    assert_eq!(entry("  The Beatles – Abbey Road  "), ("The Beatles – Abbey Road".to_string(), 1));
}

#[test]
fn entry_with_suffix_counts_given_times() {
    assert_eq!(entry("Abbey Road (3x)"), ("Abbey Road".to_string(), 3));
    assert_eq!(entry("Abbey Road(12x)"), ("Abbey Road".to_string(), 12));
    assert_eq!(entry("Abbey Road (3x)  "), ("Abbey Road".to_string(), 3));
    assert_eq!(entry("A (3x)(4x)"), ("A (3x)".to_string(), 4));
    assert_eq!(entry("Abbey Road (0x)"), ("Abbey Road".to_string(), 0));
}

#[test]
fn suffix_alone_is_the_value() {
    assert_eq!(entry("(3x)"), ("(3x)".to_string(), 1));
    assert_eq!(entry("Abbey Road (x)"), ("Abbey Road (x)".to_string(), 1));
    assert_eq!(entry("Abbey Road (3)"), ("Abbey Road (3)".to_string(), 1));
}

#[test]
fn count_too_large_is_an_error() {
    assert!(matches!(ParsedLine::from_str("Album (4294967296x)"), Err(LineError::BadCount)));
    assert_eq!(entry("Album (4294967295x)"), ("Album".to_string(), 4294967295));
}

#[test]
fn blank_or_broken_lines_are_errors() {
    assert!(matches!(ParsedLine::from_str("   "), Err(LineError::Malformed)));
    assert!(matches!(ParsedLine::from_str(""), Err(LineError::Malformed)));
    assert!(matches!(ParsedLine::from_str("A\nB"), Err(LineError::Malformed)));
}

#[test]
fn trimming_uses_unicode_white_space() {
    assert_eq!(trimmed("\u{3000} a b\t\u{a0}"), "a b");
    assert_eq!(trimmed(""), "");
}

#[test]
fn text_order_is_lexical() {
    assert_eq!(text_cmp("abc", "abd"), Ordering::Less);
    assert_eq!(text_cmp("ab", "abc"), Ordering::Less);
    assert_eq!(text_cmp("b", "abc"), Ordering::Greater);
    assert_eq!(text_cmp("é", "é"), Ordering::Equal);
    assert_eq!(text_cmp("Z", "a"), Ordering::Less);
}

#[test]
fn entries_before_first_date_are_dropped() {
    let log = AlbumLog::from_lines(&lines(&["Early (5x)", "→ d1", "Album"])).unwrap();
    let flat = log.flattened_album_entries();
    assert_eq!(flat.len(), 1);
    assert_eq!(flat[0].value, "Album");
    assert_eq!(flat[0].freq, 1);
}

#[test]
fn repeated_dates_share_a_bucket() {
    let log =
        AlbumLog::from_lines(&lines(&["→ d1", "A", "→ d2", "B (2x)", "→ d1", "A (4x)", ""]))
            .unwrap();
    let r = rank_totals(&log.flattened_album_entries()).unwrap();
    assert_eq!(
        summary(&r),
        vec![(0, 1, "A".to_string(), 5), (1, 2, "B".to_string(), 2)]
    );
}

#[test]
fn feed_line_tracks_current_date() {
    let mut log = AlbumLog::new();
    log.feed_line(ParsedLine::Entry(FreqEntry::new(2, "X".to_string())));
    log.feed_line(ParsedLine::Date("d".to_string()));
    log.feed_line(ParsedLine::Entry(FreqEntry::new(3, "Y".to_string())));
    let flat = log.flattened_album_entries();
    assert_eq!(flat.len(), 1);
    assert_eq!((flat[0].value.as_str(), flat[0].freq), ("Y", 3));
}

#[test]
fn first_bad_line_is_reported() {
    let r = AlbumLog::from_lines(&lines(&["→ d1", "A", " ", "B (99999999999x)", "C\nD"]));
    assert!(matches!(r, Err((3, LineError::BadCount))));
}

#[test]
fn counter_adds_per_value() {
    let mut c = Counter::new();
    c.add("a".to_string(), 2);
    c.add("b".to_string(), 1);
    c.add("a".to_string(), 5);
    assert_eq!(c.count("a"), 7);
    assert_eq!(c.count("b"), 1);
    assert_eq!(c.count("c"), 0);
    let mut v: Vec<(String, u64)> =
        c.to_freq_entries().into_iter().map(|e| (e.value, e.freq)).collect();
    v.sort();
    assert_eq!(v, vec![("a".to_string(), 7), ("b".to_string(), 1)]);
}

#[test]
fn totals_do_not_depend_on_order() {
    let a = ranked(&[("x", 1), ("y", 2), ("x", 3), ("z", 1)]);
    let b = ranked(&[("z", 1), ("x", 3), ("y", 2), ("x", 1)]);
    assert_eq!(summary(&a), summary(&b));
    assert_eq!(
        summary(&a),
        vec![
            (0, 1, "x".to_string(), 4),
            (1, 2, "y".to_string(), 2),
            (2, 3, "z".to_string(), 1)
        ]
    );
}

#[test]
fn total_overflow_gives_none() {
    let entries = vec![FreqEntry::new(u64::MAX, "a".to_string()), FreqEntry::new(1, "a".to_string())];
    assert!(rank_totals(&entries).is_none());
    let entries = vec![FreqEntry::new(u64::MAX, "a".to_string()), FreqEntry::new(1, "b".to_string())];
    assert!(rank_totals(&entries).is_some());
}

#[test]
fn equal_frequencies_share_rank_in_lexical_order() {
    let r = ranked(&[("c", 2), ("b", 5), ("a", 2), ("d", 1), ("e", 1)]);
    assert_eq!(
        summary(&r),
        vec![
            (0, 1, "b".to_string(), 5),
            (1, 2, "a".to_string(), 2),
            (2, 2, "c".to_string(), 2),
            (3, 3, "d".to_string(), 1),
            (4, 3, "e".to_string(), 1)
        ]
    );
}

#[test]
fn ranking_from_freq_entries_sorts() {
    let r = RankedEntry::from_freq_entries(vec![
        FreqEntry::new(1, "b".to_string()),
        FreqEntry::new(1, "a".to_string()),
        FreqEntry::new(9, "z".to_string()),
    ]);
    assert_eq!(
        summary(&r),
        vec![
            (0, 1, "z".to_string(), 9),
            (1, 2, "a".to_string(), 1),
            (2, 2, "b".to_string(), 1)
        ]
    );
    assert!(RankedEntry::from_freq_entries(vec![]).is_empty());
}

#[test]
fn artists_are_split() {
    assert_eq!(ENTRY_SEPARATOR, '–');
    assert_eq!(ARTIST_JOINER, '/');
    assert_eq!(get_artists("A / B – Album X").unwrap(), vec!["A".to_string(), "B".to_string()]);
    assert_eq!(get_artists("Artist A – Album X").unwrap(), vec!["Artist A".to_string()]);
    assert_eq!(get_artists("A – B – C").unwrap(), vec!["A".to_string()]);
    assert_eq!(get_artists(" – Album").unwrap(), vec!["".to_string()]);
    assert!(get_artists("Artist - Album").is_err());
}

#[test]
fn collaboration_credits_each_artist_in_full() {
    let log = AlbumLog::from_lines(&lines(&["→ d", "A / B – Album X (2x)"])).unwrap();
    let albums = rank_totals(&log.flattened_album_entries()).unwrap();
    let artists = rank_artists(&albums).unwrap();
    assert_eq!(
        summary(&artists),
        vec![(0, 1, "A".to_string(), 2), (1, 1, "B".to_string(), 2)]
    );
}

#[test]
fn albums_without_artist_give_no_credit() {
    let albums = ranked(&[("Untitled", 4), ("C – Z", 1)]);
    let artists = rank_artists(&albums).unwrap();
    assert_eq!(summary(&artists), vec![(0, 1, "C".to_string(), 1)]);
}

#[test]
fn entry_line_format() {
    let e = RankedEntry::new(0, 1, FreqEntry::new(3, "Album Y".to_string()));
    assert_eq!(e.to_string(1), "#1 1. Album Y (x3)");
    assert_eq!(e.to_string(3), "#001 1. Album Y (x3)");
    let e = RankedEntry::new(11, 4, FreqEntry::new(120, "Z".to_string()));
    assert_eq!(e.to_string(1), "#12 4. Z (x120)");
    assert_eq!(e.to_string(0), "#12 4. Z (x120)");
}

#[test]
fn width_is_digit_count() {
    assert_eq!(digit_count(0), 1);
    assert_eq!(digit_count(9), 1);
    assert_eq!(digit_count(10), 2);
    assert_eq!(digit_count(100), 3);
    assert_eq!(digit_count(u128::MAX), 39);
}

#[test]
fn report_within_cutoff_has_no_prompt() {
    let r = ranked(&[("a", 3), ("b", 2)]);
    let rep = build_report(&r, 20);
    assert_eq!(rep.head, vec!["#1 1. a (x3)".to_string(), "#2 2. b (x2)".to_string()]);
    assert!(rep.rest.is_empty());
    assert!(!rep.needs_prompt());
    assert_eq!((rep.unique, rep.total), (2, 5));
    let rep = build_report(&r, 2);
    assert!(!rep.needs_prompt());
}

#[test]
fn report_beyond_cutoff_holds_back() {
    let pairs: Vec<(String, u64)> = (1..=12u64).map(|i| (format!("v{i:02}"), 13 - i)).collect();
    let refs: Vec<(&str, u64)> = pairs.iter().map(|(s, f)| (s.as_str(), *f)).collect();
    let r = ranked(&refs);
    let rep = build_report(&r, 10);
    assert_eq!(rep.head.len(), 10);
    assert_eq!(rep.rest, vec!["#11 11. v11 (x2)".to_string(), "#12 12. v12 (x1)".to_string()]);
    assert_eq!(rep.head[0], "#01 1. v01 (x12)");
    assert!(rep.needs_prompt());
    assert_eq!((rep.unique, rep.total), (12, 78));
}

#[test]
fn empty_report() {
    let rep = build_report(&vec![], 10);
    assert!(rep.head.is_empty() && rep.rest.is_empty());
    assert_eq!((rep.unique, rep.total), (0, 0));
}

#[test]
fn prompt_answers() {
    assert_eq!(prompt_answer("y\n"), Some(true));
    assert_eq!(prompt_answer(" Y "), Some(true));
    assert_eq!(prompt_answer("\n"), Some(true));
    assert_eq!(prompt_answer("n"), Some(false));
    assert_eq!(prompt_answer("N\r\n"), Some(false));
    assert_eq!(prompt_answer("yes"), None);
    assert_eq!(prompt_answer("x"), None);
}

#[test]
fn end_to_end_example() {
    let log = AlbumLog::from_lines(&lines(&[
        "→ 2024-01-01",
        "Artist A – Album X",
        "Artist A – Album X",
        "→ 2024-01-02",
        "Artist B – Album Y (3x)",
    ]))
    .unwrap();
    let albums = rank_totals(&log.flattened_album_entries()).unwrap();
    assert_eq!(
        summary(&albums),
        vec![
            (0, 1, "Artist B – Album Y".to_string(), 3),
            (1, 2, "Artist A – Album X".to_string(), 2)
        ]
    );
    let artists = rank_artists(&albums).unwrap();
    assert_eq!(
        summary(&artists),
        vec![(0, 1, "Artist B".to_string(), 3), (1, 2, "Artist A".to_string(), 2)]
    );
    let rep = build_report(&artists, 10);
    assert_eq!(rep.head, vec!["#1 1. Artist B (x3)".to_string(), "#2 2. Artist A (x2)".to_string()]);
}
