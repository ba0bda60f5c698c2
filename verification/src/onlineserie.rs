//! Data shapes of the older, asynchronous show-catalog path. Its fetch
//! lives outside the library; the series construction from a fetched detail
//! record is shared with the current path.

use vstd::prelude::*;
use crate::episodate::count_in_season;
use crate::episodate::max_season;
use crate::episodate::seasons_from_episodes;
use crate::serie::Serie;

verus! {

/// One page of search results as the catalog returns it.
#[derive(Debug)]
pub struct Response {
    pub pages: usize,
    pub tv_shows: Vec<TvShow>,
    pub is_selected: Option<bool>,
}

/// One show in a search-result page.
#[derive(Debug)]
pub struct TvShow {
    pub name: String,
    pub start_date: Option<String>,
    pub permalink: String,
}

/// The detail record of one show: its name and its full episode list.
#[derive(Debug)]
pub struct TvShowDetails {
    pub episodes: Vec<EpisodeData>,
    pub name: String,
}

/// One episode of the detail record; season numbers are one-based.
#[derive(Debug, Clone, Copy, PartialEq, Eq, Structural)]
pub struct EpisodeData {
    pub season: usize,
    pub episode: usize,
}

/// The season number of each episode, in episode order.
pub open spec fn episode_seasons(eps: Seq<EpisodeData>) -> Seq<usize> {
    eps.map_values(|e: EpisodeData| e.season)
}

/// Build a series from a fetched detail record, exactly as the current
/// catalog path does.
pub fn serie_from_details(details: TvShowDetails) -> (serie: Serie)
    requires
        forall|i: int|
            0 <= i < details.episodes@.len() ==> 1 <= (#[trigger] details.episodes@[i]).season,
    ensures
        serie.name == details.name,
        serie.cursor_ok(),
        serie.seasons@.len() == max_season(episode_seasons(details.episodes@)),
        forall|k: int|
            0 <= k < serie.seasons@.len() ==> (#[trigger] serie.seasons@[k]).episodes
                == count_in_season(episode_seasons(details.episodes@), k + 1)
                && serie.seasons@[k].watched == 0,
{
    let n = details.episodes.len();
    let mut nums: Vec<usize> = Vec::new();
    let mut i: usize = 0;
    proof {
        assert(episode_seasons(details.episodes@.subrange(0, 0)) =~= Seq::<usize>::empty());
    }
    while i < n
        invariant
            0 <= i <= n,
            n == details.episodes@.len(),
            nums@ == episode_seasons(details.episodes@.subrange(0, i as int)),
        decreases n - i,
    {
        nums.push(details.episodes[i].season);
        proof {
            assert(nums@ =~= episode_seasons(details.episodes@.subrange(0, i as int + 1)));
        }
        i = i + 1;
    }
    proof {
        assert(details.episodes@.subrange(0, n as int) =~= details.episodes@);
    }
    let seasons = seasons_from_episodes(&nums);
    Serie::new(seasons, details.name)
}

} // verus!
