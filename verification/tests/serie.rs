use bw::serie::Serie;

fn get_test_serie() -> Serie {
    Serie::parse("10/20\n0/20").unwrap()
}

#[test]
fn test_name() {
    let test = Serie { name: "Breaking Bad".to_string(), ..Default::default() };
    assert_eq!(test.name, "Breaking Bad")
}

#[test]
fn test_filename() {
    let test = Serie { name: "Breaking Bad".to_string(), ..Default::default() };
    assert_eq!(test.filename(), "Breaking Bad.bw")
}

#[test]
fn test_episodes() {
    let test = get_test_serie();
    assert_eq!(test.total_episodes(), 40);
}

#[test]
fn test_watched() {
    let test = get_test_serie();
    assert_eq!(test.total_watched(), 10);
}

#[test]
fn test_display() {
    let test = get_test_serie();
    let result = test.serialize();
    let expected = "10/20\n0/20\n";
    assert_eq!(result, expected);
}

#[test]
fn test_watch() {
    let mut test = get_test_serie();
    test.watch(9);
    assert_eq!(test.current_season.unwrap(), 0);
    test.watch(11);
    assert_eq!(test.total_episodes(), 40);
    assert_eq!(test.total_watched(), 30);
    assert_eq!(test.seasons[0].watched, 20);
    assert_eq!(test.seasons[1].watched, 10);
    assert_eq!(test.current_season.unwrap(), 1);
    let left = test.watch(20);
    assert_eq!(left, 10);
    let left = test.watch(20);
    assert_eq!(left, 20);
    assert_eq!(test.seasons[1].watched, 20);
    assert_eq!(test.current_season, None);
}

#[test]
fn test_watch_edge() {
    let mut test = get_test_serie();
    test.watch(10);
    assert_eq!(test.next_episode_str().unwrap().as_str(), "S02E01");
    assert_eq!(test.total_watched(), 20);
    test.watch(10);
    assert_eq!(test.next_episode_str().unwrap().as_str(), "S02E11");
    assert_eq!(test.total_watched(), 30);
    test.watch(10);
    assert_eq!(test.next_episode_str(), None);
    assert_eq!(test.total_watched(), 40);
}

#[test]
fn test_unwatch_edge() {
    let mut test = get_test_serie();
    test.watch(10);
    assert_eq!(test.next_episode_str().unwrap().as_str(), "S02E01");
    assert_eq!(test.total_watched(), 20);
    test.unwatch(20);
    assert_eq!(test.next_episode_str().unwrap().as_str(), "S01E01");
    assert_eq!(test.total_watched(), 0);
}

#[test]
fn test_unwatch_finished() {
    let mut test = get_test_serie();
    test.watch(30);
    assert!(test.is_finished());
    test.unwatch(20);
    assert_eq!(test.next_episode_str().unwrap().as_str(), "S02E01");
    assert_eq!(test.total_watched(), 20);
}

#[test]
fn test_unwatch() {
    let mut test = get_test_serie();
    test.watch(20);
    test.unwatch(6);
    assert_eq!(test.current_season.unwrap(), 1);

    assert_eq!(test.total_episodes(), 40);
    assert_eq!(test.total_watched(), 24);
    assert_eq!(test.seasons[0].watched, 20);
    assert_eq!(test.seasons[1].watched, 4);
    test.unwatch(6);
    assert_eq!(test.current_season.unwrap(), 0);
    test.watch(6);
    assert_eq!(test.current_season.unwrap(), 1);
    test.unwatch(6);

    assert_eq!(test.seasons[0].watched, 18);
    assert_eq!(test.seasons[1].watched, 0);
}

#[test]
fn test_next_episode() {
    let mut test = get_test_serie();
    let expected = "S01E11";
    assert_eq!(test.next_episode_str().unwrap(), expected);

    test.unwatch(6);
    let expected = "S01E05";
    assert_eq!(test.next_episode_str().unwrap(), expected);

    test.watch(6);
    let expected = "S01E11";
    assert_eq!(test.next_episode_str().unwrap(), expected);
}

#[test]
fn test_finished() {
    let mut test: Serie = Serie::parse("10/20\n0/20").unwrap();
    test.watch(10);
    assert!(test.is_not_finished());
    test.watch(20);
    assert!(test.is_finished());
}

#[test]
fn test_merge_series_basic() {
    let mut test: Serie = Serie::parse("10/20\n2/20").unwrap();
    test.merge_serie(&Serie::parse("0/20\n0/20\n0/10\n0/10").unwrap());
    let expected: Serie = Serie::parse("10/20\n2/20\n0/10\n0/10").unwrap();
    assert_eq!(test.seasons, expected.seasons)
}

#[test]
fn test_merge_series_last_season_changed() {
    let mut test: Serie = Serie::parse("10/20\n2/20").unwrap();
    test.merge_serie(&Serie::parse("0/20\n0/22").unwrap());
    let expected: Serie = Serie::parse("10/20\n2/22").unwrap();
    assert_eq!(test.seasons, expected.seasons)
}
