use bw::serie::Serie;
use bw::serie::SerieParseError;
use bw::serie::season::Season;

#[test]
fn round_trip_parse_serialize() {
    // Parsing the serialization restores the seasons and the cursor; the
    // name is not stored in the text.
    let serie = Serie::parse("10/20\n0/20\n7/7").unwrap();
    let back = Serie::parse(&serie.serialize()).unwrap();
    assert_eq!(back.seasons, serie.seasons);
    assert_eq!(back.current_season, serie.current_season);
}

#[test]
fn round_trip_single_season() {
    let serie = Serie::parse("3/9").unwrap();
    let back = Serie::parse(&serie.serialize()).unwrap();
    assert_eq!(back.seasons, serie.seasons);
    assert_eq!(back.current_season, serie.current_season);
}

#[test]
fn watch_zero_keeps_record_identical() {
    let mut serie = Serie::parse("10/20\n0/20").unwrap();
    let before = serie.serialize();
    let left = serie.watch(0);
    assert_eq!(left, 0);
    assert_eq!(serie.serialize(), before);
}

#[test]
fn unwatch_zero_keeps_record_identical() {
    let mut serie = Serie::parse("10/20\n0/20").unwrap();
    let before = serie.serialize();
    let left = serie.unwatch(0);
    assert_eq!(left, 0);
    assert_eq!(serie.serialize(), before);
}

#[test]
fn fully_watched_series_is_finished() {
    // Every season fully watched: finished, the sentinel label, and any
    // watch request comes back whole with nothing changed.
    let mut serie = Serie::parse("20/20\n7/7").unwrap();
    assert!(serie.is_finished());
    assert_eq!(serie.current_season, None);
    assert_eq!(serie.next_episode_str(), None);
    assert_eq!(serie.next_episode_flat(), "FINISHED");
    let before = serie.serialize();
    let left = serie.watch(5);
    assert_eq!(left, 5);
    assert_eq!(serie.serialize(), before);
}

#[test]
fn unwatch_beyond_total_clamps_at_first_season() {
    let mut serie = Serie::parse("10/20\n4/20").unwrap();
    // The cursor sits on season one, which has 10 watched episodes in
    // reach of the backwards walk.
    let left = serie.unwatch(100);
    assert_eq!(left, 90);
    assert_eq!(serie.seasons[0].watched, 0);
    assert_eq!(serie.current_season, Some(0));
}

#[test]
fn unwatch_beyond_total_from_finished() {
    let mut serie = Serie::parse("2/2\n3/3").unwrap();
    let left = serie.unwatch(10);
    assert_eq!(left, 5);
    assert_eq!(serie.seasons[0].watched, 0);
    assert_eq!(serie.seasons[1].watched, 0);
}

#[test]
fn scenario_watch_across_boundary() {
    // From "10/20\n0/20": watching 9 stays in season one; 11 more fill it
    // and spill 10 into season two.
    let mut serie = Serie::parse("10/20\n0/20").unwrap();
    serie.watch(9);
    assert_eq!(serie.current_season, Some(0));
    assert_eq!(serie.seasons[0].watched, 19);
    serie.watch(11);
    assert_eq!(serie.seasons[0].watched, 20);
    assert_eq!(serie.seasons[1].watched, 10);
    assert_eq!(serie.current_season, Some(1));
    assert_eq!(serie.total_watched(), 30);
}

#[test]
fn scenario_watch_past_the_end() {
    // Continuing: 20 more fill season two and 10 come back; the series is
    // finished and the cursor is gone.
    let mut serie = Serie::parse("10/20\n0/20").unwrap();
    serie.watch(9);
    serie.watch(11);
    let left = serie.watch(20);
    assert_eq!(left, 10);
    assert_eq!(serie.seasons[1].watched, 20);
    assert_eq!(serie.current_season, None);
    assert!(serie.is_finished());
}

#[test]
fn scenario_merge_grown_last_season() {
    let mut serie = Serie::parse("10/20\n2/20").unwrap();
    serie.merge_serie(&Serie::parse("0/20\n0/22").unwrap());
    assert_eq!(serie.serialize(), "10/20\n2/22\n");
}

#[test]
fn scenario_merge_appends_new_seasons() {
    let mut serie = Serie::parse("10/20\n2/20").unwrap();
    serie.merge_serie(&Serie::parse("0/20\n0/20\n0/10\n0/10").unwrap());
    assert_eq!(serie.serialize(), "10/20\n2/20\n0/10\n0/10\n");
}

#[test]
fn scenario_next_episode_label() {
    let serie = Serie::parse("9/20").unwrap();
    assert_eq!(serie.next_episode_str().unwrap(), "S01E10");
}

#[test]
fn merge_never_shrinks_last_season() {
    let mut serie = Serie::parse("10/20\n2/20").unwrap();
    serie.merge_serie(&Serie::parse("0/20\n0/15").unwrap());
    assert_eq!(serie.serialize(), "10/20\n2/20\n");
}

#[test]
fn merge_ignores_other_watched_counts() {
    // Only the fetched episode totals matter: appended seasons start
    // unwatched even if the fetched record claims watched episodes.
    let mut serie = Serie::parse("5/5").unwrap();
    serie.merge_serie(&Serie::parse("0/5\n4/8").unwrap());
    assert_eq!(serie.serialize(), "5/5\n0/8\n");
}

#[test]
fn default_serie_is_finished() {
    let serie = Serie::default();
    assert!(serie.is_finished());
    assert_eq!(serie.current_season, None);
    assert_eq!(serie.total_episodes(), 0);
    assert_eq!(serie.name, "");
}

#[test]
fn watch_on_empty_serie_changes_nothing() {
    let mut serie = Serie::default();
    assert_eq!(serie.watch(7), 7);
    assert_eq!(serie.serialize(), "");
}

#[test]
fn parse_skips_empty_lines() {
    let serie = Serie::parse("10/20\n\n\n0/20\n").unwrap();
    assert_eq!(serie.seasons.len(), 2);
    assert_eq!(serie.serialize(), "10/20\n0/20\n");
}

#[test]
fn parse_empty_record_is_an_error() {
    assert!(matches!(Serie::parse(""), Err(SerieParseError::EmptyFile)));
    assert!(matches!(Serie::parse("\n\n"), Err(SerieParseError::EmptyFile)));
}

#[test]
fn parse_malformed_record_is_an_error() {
    assert!(matches!(Serie::parse("10/20\nbad"), Err(SerieParseError::ParseFailed)));
    assert!(matches!(Serie::parse("10:20"), Err(SerieParseError::ParseFailed)));
}

#[test]
fn matches_is_case_insensitive() {
    let serie = Serie { name: "Breaking Bad".to_string(), ..Default::default() };
    assert!(serie.matches("breaking"));
    assert!(serie.matches("BAD"));
    assert!(serie.matches("ing ba"));
    assert!(!serie.matches("better call"));
    assert!(serie.matches(""));
}

#[test]
fn totals_fit_detects_overflow() {
    let huge = Season { episodes: usize::MAX, watched: usize::MAX };
    let serie = Serie::new(vec![huge, huge], "too much".to_string());
    assert!(!serie.totals_fit());
    let small = Serie::parse("10/20\n0/20").unwrap();
    assert!(small.totals_fit());
}

#[test]
fn number_width_is_floored_at_two() {
    assert_eq!(bw::digits::number_width(0), 2);
    assert_eq!(bw::digits::number_width(9), 2);
    assert_eq!(bw::digits::number_width(10), 2);
    assert_eq!(bw::digits::number_width(100), 3);
    assert_eq!(bw::digits::number_width(12345), 5);
}

#[test]
fn label_widths_follow_counts() {
    // A hundred seasons widen the season field; a season of a hundred
    // episodes widens the episode field.
    let mut seasons = vec![Season { episodes: 1, watched: 1 }; 99];
    seasons.push(Season::new(1));
    let serie = Serie::new(seasons, String::new());
    assert_eq!(serie.next_episode_str().unwrap(), "S100E01");

    let serie = Serie::parse("9/100").unwrap();
    assert_eq!(serie.next_episode_str().unwrap(), "S01E010");
}

#[test]
fn next_season_and_episode_numbers() {
    let serie = Serie::parse("10/20\n0/20").unwrap();
    assert_eq!(serie.next_season(), 1);
    assert_eq!(serie.next_episode(), 11);
    let finished = Serie::parse("20/20").unwrap();
    assert_eq!(finished.next_season(), 0);
    assert_eq!(finished.next_episode(), 1);
    assert_eq!(finished.current_season(), None);
    let current = serie.current_season().unwrap();
    assert_eq!(current.watched, 10);
    assert_eq!(current.episodes, 20);
}
