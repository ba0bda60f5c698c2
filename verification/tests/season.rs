use bw::serie::season::Season;
use bw::serie::season::SeasonError;

#[test]
fn season_new_starts_unwatched() {
    let s = Season::new(12);
    assert_eq!(s.episodes, 12);
    assert_eq!(s.watched, 0);
    assert!(s.is_not_finished());
}

#[test]
fn season_watch_accounting() {
    // Watching never passes the episode total, and what was consumed plus
    // the leftover is exactly the request.
    let mut s = Season { episodes: 20, watched: 10 };
    let before = s.watched;
    let left = s.watch(25);
    assert!(s.watched <= s.episodes);
    assert_eq!(before + 25 - left, s.watched);
    assert_eq!(s.watched, 20);
    assert_eq!(left, 15);
}

#[test]
fn season_watch_within_capacity() {
    let mut s = Season { episodes: 20, watched: 10 };
    let left = s.watch(5);
    assert_eq!(left, 0);
    assert_eq!(s.watched, 15);
}

#[test]
fn season_unwatch_clamps_at_zero() {
    let mut s = Season { episodes: 20, watched: 3 };
    let left = s.unwatch(10);
    assert_eq!(left, 7);
    assert_eq!(s.watched, 0);
}

#[test]
fn season_watch_then_unwatch_restores() {
    // Unwatching exactly what a watch consumed restores the original count.
    let mut s = Season { episodes: 20, watched: 7 };
    let left = s.watch(9);
    let consumed = 9 - left;
    s.unwatch(consumed);
    assert_eq!(s.watched, 7);

    // The same holds when the watch was clamped.
    let mut s = Season { episodes: 20, watched: 18 };
    let left = s.watch(50);
    let consumed = 50 - left;
    assert_eq!(consumed, 2);
    s.unwatch(consumed);
    assert_eq!(s.watched, 18);
}

#[test]
fn season_parse_line() {
    let s = Season::parse("10/20").unwrap();
    assert_eq!(s.watched, 10);
    assert_eq!(s.episodes, 20);
}

#[test]
fn season_parse_empty_line() {
    assert!(matches!(Season::parse(""), Err(SeasonError::EmptySeason)));
}

#[test]
fn season_parse_malformed() {
    assert!(matches!(Season::parse("10-20"), Err(SeasonError::MalformedSeason)));
    assert!(matches!(Season::parse("/20"), Err(SeasonError::MalformedSeason)));
    assert!(matches!(Season::parse("10/"), Err(SeasonError::MalformedSeason)));
    assert!(matches!(Season::parse("a/20"), Err(SeasonError::MalformedSeason)));
    assert!(matches!(Season::parse("10/2b"), Err(SeasonError::MalformedSeason)));
    assert!(matches!(Season::parse("10/2/3"), Err(SeasonError::MalformedSeason)));
    // A count too large for the machine is malformed.
    assert!(matches!(
        Season::parse("99999999999999999999999999/7"),
        Err(SeasonError::MalformedSeason)
    ));
}

#[test]
fn season_line_round_trip() {
    let s = Season { episodes: 20, watched: 10 };
    assert_eq!(s.to_line(), "10/20");
    let back = Season::parse(&s.to_line()).unwrap();
    assert_eq!(back, s);

    let zero = Season::new(0);
    assert_eq!(zero.to_line(), "0/0");
    assert_eq!(Season::parse("0/0").unwrap(), zero);
}
