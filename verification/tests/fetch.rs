use bw::episodate;
use bw::onlineserie;

#[test]
fn detail_to_serie_counts_episodes_per_season() {
    let details = episodate::TvShowDetails {
        episodes: vec![
            episodate::EpisodeData { season: 1, episode: 1 },
            episodate::EpisodeData { season: 1, episode: 2 },
            episodate::EpisodeData { season: 2, episode: 1 },
            episodate::EpisodeData { season: 2, episode: 2 },
            episodate::EpisodeData { season: 2, episode: 3 },
        ],
        name: "Some Show".to_string(),
    };
    let serie = episodate::serie_from_details(details);
    assert_eq!(serie.name, "Some Show");
    assert_eq!(serie.serialize(), "0/2\n0/3\n");
    assert_eq!(serie.current_season, Some(0));
}

#[test]
fn detail_to_serie_fills_season_gaps() {
    // An episode list that starts at season three yields two empty seasons
    // before it.
    let details = episodate::TvShowDetails {
        episodes: vec![episodate::EpisodeData { season: 3, episode: 1 }],
        name: "Late Start".to_string(),
    };
    let serie = episodate::serie_from_details(details);
    assert_eq!(serie.serialize(), "0/0\n0/0\n0/1\n");
}

#[test]
fn detail_to_serie_empty_list() {
    let details = episodate::TvShowDetails { episodes: vec![], name: "Nothing".to_string() };
    let serie = episodate::serie_from_details(details);
    assert_eq!(serie.seasons.len(), 0);
    assert!(serie.is_finished());
}

#[test]
fn online_detail_to_serie() {
    let details = onlineserie::TvShowDetails {
        episodes: vec![
            onlineserie::EpisodeData { season: 1, episode: 1 },
            onlineserie::EpisodeData { season: 2, episode: 1 },
            onlineserie::EpisodeData { season: 2, episode: 2 },
        ],
        name: "Old Path".to_string(),
    };
    let serie = onlineserie::serie_from_details(details);
    assert_eq!(serie.name, "Old Path");
    assert_eq!(serie.serialize(), "0/1\n0/2\n");
}

#[test]
fn search_response_shapes_hold_plain_values() {
    let page = episodate::Response {
        pages: 2,
        tv_shows: vec![episodate::TvShow {
            name: "Breaking Bad".to_string(),
            start_date: Some("2008-01-20".to_string()),
            permalink: "breaking-bad".to_string(),
        }],
        is_selected: None,
    };
    assert_eq!(page.pages, 2);
    assert_eq!(page.tv_shows[0].permalink, "breaking-bad");
}
