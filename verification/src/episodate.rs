//! Data shapes of the show-catalog API, and the verified construction of a
//! series from a fetched episode list. The HTTP fetch and the JSON decoding
//! live outside the library; what arrives here are plain values.

use vstd::prelude::*;
use crate::serie::Season;
use crate::serie::Serie;

verus! {

/// One page of search results as the catalog returns it.
#[derive(Debug)]
pub struct Response {
    pub pages: usize,
    pub tv_shows: Vec<TvShow>,
    pub is_selected: Option<bool>,
}

/// One show in a search-result page.
#[derive(Debug)]
pub struct TvShow {
    pub name: String,
    pub start_date: Option<String>,
    pub permalink: String,
}

/// The detail record of one show: its name and its full episode list.
#[derive(Debug)]
pub struct TvShowDetails {
    pub episodes: Vec<EpisodeData>,
    pub name: String,
}

/// One episode of the detail record; season numbers are one-based.
#[derive(Debug, Clone, Copy, PartialEq, Eq, Structural)]
pub struct EpisodeData {
    pub season: usize,
    pub episode: usize,
}

/// How many entries of `nums` equal `k`.
pub open spec fn count_in_season(nums: Seq<usize>, k: int) -> int
    decreases nums.len(),
{
    if nums.len() == 0 {
        0
    } else {
        count_in_season(nums.drop_last(), k) + if nums.last() as int == k {
            1int
        } else {
            0int
        }
    }
}

/// The largest season number in `nums`, 0 when there is none.
pub open spec fn max_season(nums: Seq<usize>) -> int
    decreases nums.len(),
{
    if nums.len() == 0 {
        0
    } else {
        let m = max_season(nums.drop_last());
        if nums.last() as int > m {
            nums.last() as int
        } else {
            m
        }
    }
}

/// The season number of each episode, in episode order.
pub open spec fn season_numbers(eps: Seq<EpisodeData>) -> Seq<usize> {
    eps.map_values(|e: EpisodeData| e.season)
}

/// A season number never counts more episodes than there are entries.
pub proof fn lemma_count_le_len(nums: Seq<usize>, k: int)
    ensures
        0 <= count_in_season(nums, k) <= nums.len(),
    decreases nums.len(),
{
    if nums.len() > 0 {
        lemma_count_le_len(nums.drop_last(), k);
    }
}

/// Nothing is counted beyond the largest season number.
pub proof fn lemma_count_above_max(nums: Seq<usize>, k: int)
    requires
        k > max_season(nums),
    ensures
        count_in_season(nums, k) == 0,
    decreases nums.len(),
{
    if nums.len() > 0 {
        lemma_count_above_max(nums.drop_last(), k);
    }
}

/// Build the season list of a fetched show: one season per season number up
/// to the largest that occurs, each holding as episode total the number of
/// episodes the list has for it, and nothing watched yet.
pub fn seasons_from_episodes(nums: &Vec<usize>) -> (seasons: Vec<Season>)
    requires
        forall|i: int| 0 <= i < nums@.len() ==> 1 <= #[trigger] nums@[i],
    ensures
        seasons@.len() == max_season(nums@),
        forall|k: int|
            0 <= k < seasons@.len() ==> (#[trigger] seasons@[k]).episodes == count_in_season(
                nums@,
                k + 1,
            ) && seasons@[k].watched == 0,
{
    let n = nums.len();
    let mut seasons: Vec<Season> = Vec::new();
    let mut i: usize = 0;
    proof {
        assert(nums@.subrange(0, 0) =~= Seq::<usize>::empty());
    }
    while i < n
        invariant
            0 <= i <= n,
            n == nums@.len(),
            forall|j: int| 0 <= j < n ==> 1 <= #[trigger] nums@[j],
            seasons@.len() == max_season(nums@.subrange(0, i as int)),
            seasons@.len() <= usize::MAX,
            forall|k: int|
                0 <= k < seasons@.len() ==> (#[trigger] seasons@[k]).episodes == count_in_season(
                    nums@.subrange(0, i as int),
                    k + 1,
                ) && seasons@[k].watched == 0,
        decreases n - i,
    {
        let ghost prefix = nums@.subrange(0, i as int);
        let num = nums[i];
        while seasons.len() < num
            invariant
                max_season(prefix) <= seasons@.len(),
                seasons@.len() <= num || seasons@.len() == max_season(prefix),
                forall|k: int|
                    0 <= k < seasons@.len() ==> (#[trigger] seasons@[k]).episodes
                        == count_in_season(prefix, k + 1) && seasons@[k].watched == 0,
            decreases num - seasons.len(),
        {
            proof {
                lemma_count_above_max(prefix, seasons@.len() as int + 1);
            }
            seasons.push(Season::new(0));
        }
        let mut sea = seasons[num - 1];
        proof {
            lemma_count_le_len(prefix, num as int);
            assert(nums@.subrange(0, i as int + 1).drop_last() =~= prefix);
        }
        sea.episodes = sea.episodes + 1;
        seasons.set(num - 1, sea);
        proof {
            assert forall|k: int| 0 <= k < seasons@.len() implies (
            #[trigger] seasons@[k]).episodes == count_in_season(
                nums@.subrange(0, i as int + 1),
                k + 1,
            ) && seasons@[k].watched == 0 by {
                if k + 1 > max_season(prefix) && k != num - 1 {
                    lemma_count_above_max(prefix, k + 1);
                }
            }
        }
        i = i + 1;
    }
    proof {
        assert(nums@.subrange(0, n as int) =~= nums@);
    }
    seasons
}

/// Build a series from a fetched detail record: the seasons from its
/// episode list, its name, nothing watched, and a computed cursor.
pub fn serie_from_details(details: TvShowDetails) -> (serie: Serie)
    requires
        forall|i: int|
            0 <= i < details.episodes@.len() ==> 1 <= (#[trigger] details.episodes@[i]).season,
    ensures
        serie.name == details.name,
        serie.cursor_ok(),
        serie.seasons@.len() == max_season(season_numbers(details.episodes@)),
        forall|k: int|
            0 <= k < serie.seasons@.len() ==> (#[trigger] serie.seasons@[k]).episodes
                == count_in_season(season_numbers(details.episodes@), k + 1)
                && serie.seasons@[k].watched == 0,
{
    let n = details.episodes.len();
    let mut nums: Vec<usize> = Vec::new();
    let mut i: usize = 0;
    proof {
        assert(season_numbers(details.episodes@.subrange(0, 0)) =~= Seq::<usize>::empty());
    }
    while i < n
        invariant
            0 <= i <= n,
            n == details.episodes@.len(),
            nums@ == season_numbers(details.episodes@.subrange(0, i as int)),
        decreases n - i,
    {
        nums.push(details.episodes[i].season);
        proof {
            assert(nums@ =~= season_numbers(details.episodes@.subrange(0, i as int + 1)));
        }
        i = i + 1;
    }
    proof {
        assert(details.episodes@.subrange(0, n as int) =~= details.episodes@);
    }
    let seasons = seasons_from_episodes(&nums);
    Serie::new(seasons, details.name)
}

} // verus!
