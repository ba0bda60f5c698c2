//! One season of a series: how many episodes it has and how many of them
//! have been watched.

use vstd::prelude::*;
use crate::digits::all_digits;
use crate::digits::dec_digits;
use crate::digits::dec_val;
use crate::digits::find_char;
use crate::digits::first_index_of;
use crate::digits::fmt_usize;
use crate::digits::is_dec_number;
use crate::digits::is_digit;
use crate::digits::lemma_dec_digits_roundtrip;
use crate::digits::lemma_dec_val_nonneg;
use crate::digits::lemma_first_index_of;
use crate::digits::parse_usize;

verus! {

/// Episode counts of a single season. The pair is well formed when no more
/// episodes are watched than the season has.
#[derive(Debug, Clone, Copy, PartialEq, Eq, Structural)]
pub struct Season {
    pub episodes: usize,
    pub watched: usize,
}

/// How reading one record line can fail: the line is empty (callers skip it),
/// or it does not spell `watched/episodes` (callers abort the whole record).
#[derive(Debug, Clone, Copy, PartialEq, Eq, Structural)]
pub enum SeasonError {
    MalformedSeason,
    EmptySeason,
}

/// The separator between the watched count and the episode count.
pub open spec fn separator() -> char {
    '/'
}

impl Season {
    /// No more episodes watched than the season has.
    pub open spec fn wf(self) -> bool {
        self.watched <= self.episodes
    }

    /// Every episode of the season has been watched.
    pub open spec fn spec_is_finished(self) -> bool {
        self.episodes == self.watched
    }

    /// The one-line text form of the season: `watched/episodes`.
    pub open spec fn spec_line(self) -> Seq<char> {
        dec_digits(self.watched as int) + seq![separator()] + dec_digits(self.episodes as int)
    }

    /// What parsing one line yields: the line split at its first separator,
    /// both sides read as decimal counts. An empty line is reported apart
    /// from a malformed one, so that callers can skip blank lines.
    pub open spec fn spec_parse(line: Seq<char>) -> Result<Season, SeasonError> {
        if line.len() == 0 {
            Err(SeasonError::EmptySeason)
        } else {
            let i = first_index_of(line, separator());
            let w = line.subrange(0, i);
            let e = line.subrange(i + 1, line.len() as int);
            if i < line.len() && is_dec_number(w) && is_dec_number(e) {
                Ok(
                    Season {
                        episodes: dec_val(e) as usize,
                        watched: dec_val(w) as usize,
                    },
                )
            } else {
                Err(SeasonError::MalformedSeason)
            }
        }
    }

    /// A fresh, wholly unwatched season.
    pub fn new(episodes: usize) -> (season: Season)
        ensures
            season.episodes == episodes,
            season.watched == 0,
            season.wf(),
    {
        Season { episodes, watched: 0 }
    }

    /// Read one record line.
    pub fn parse(line: &str) -> (r: Result<Season, SeasonError>)
        ensures
            r == Season::spec_parse(line@),
    {
        let n = line.unicode_len();
        if n == 0 {
            return Err(SeasonError::EmptySeason);
        }
        let i = find_char(line, '/');
        if i == n {
            return Err(SeasonError::MalformedSeason);
        }
        proof {
            lemma_first_index_of(line@, separator());
        }
        let w_part = line.substring_char(0, i);
        let e_part = line.substring_char(i + 1, n);
        match (parse_usize(w_part), parse_usize(e_part)) {
            (Some(watched), Some(episodes)) => {
                proof {
                    lemma_dec_val_nonneg(line@.subrange(0, i as int));
                    lemma_dec_val_nonneg(line@.subrange(i + 1, n as int));
                }
                Ok(Season { episodes, watched })
            },
            _ => Err(SeasonError::MalformedSeason),
        }
    }

    /// Render the season as its one record line.
    pub fn to_line(&self) -> (r: String)
        ensures
            r@ == self.spec_line(),
    {
        let mut r = fmt_usize(self.watched);
        r.append("/");
        let e = fmt_usize(self.episodes);
        r.append(e.as_str());
        proof {
            reveal_strlit("/");
            assert(r@ =~= self.spec_line());
        }
        r
    }

    /// Episodes of this season still unwatched.
    fn not_watched(&self) -> (r: usize)
        requires
            self.wf(),
        ensures
            r == self.episodes - self.watched,
    {
        self.episodes - self.watched
    }

    /// Whether every episode has been watched.
    pub fn is_finished(&self) -> (r: bool)
        ensures
            r == self.spec_is_finished(),
    {
        self.episodes == self.watched
    }

    /// Whether some episode is still unwatched.
    pub fn is_not_finished(&self) -> (r: bool)
        ensures
            r == !self.spec_is_finished(),
    {
        !self.is_finished()
    }

    /// How much of a requested count this season can still absorb.
    pub open spec fn watch_applied(self, count: int) -> int {
        if count <= self.episodes - self.watched {
            count
        } else {
            self.episodes - self.watched
        }
    }

    /// How much of a requested count this season can give back.
    pub open spec fn unwatch_applied(self, count: int) -> int {
        if count <= self.watched {
            count
        } else {
            self.watched as int
        }
    }

    /// Watch up to `count` episodes, never beyond the season's total, and
    /// hand back the part of the request that did not fit.
    pub fn watch(&mut self, count: usize) -> (left: usize)
        requires
            old(self).wf(),
        ensures
            final(self).episodes == old(self).episodes,
            final(self).watched == old(self).watched + old(self).watch_applied(count as int),
            left == count - old(self).watch_applied(count as int),
            old(self).watched + count - left == final(self).watched,
            final(self).watched <= final(self).episodes,
            final(self).wf(),
    {
        let watch_count = if count <= self.not_watched() {
            count
        } else {
            self.not_watched()
        };
        self.watched = self.watched + watch_count;
        count - watch_count
    }

    /// Unwatch up to `count` episodes, never below zero, and hand back the
    /// part of the request that was not there to remove.
    pub fn unwatch(&mut self, count: usize) -> (left: usize)
        ensures
            final(self).episodes == old(self).episodes,
            final(self).watched == old(self).watched - old(self).unwatch_applied(count as int),
            left == count - old(self).unwatch_applied(count as int),
            old(self).wf() ==> final(self).wf(),
    {
        let unwatch_count = if count <= self.watched {
            count
        } else {
            self.watched
        };
        self.watched = self.watched - unwatch_count;
        count - unwatch_count
    }
}

/// Watching and then unwatching exactly what that watch consumed restores
/// the original watched count, whatever amount was requested.
pub proof fn lemma_watch_then_unwatch_restores(s: Season, k: usize)
    requires
        s.wf(),
    ensures
        ({
            let consumed = s.watch_applied(k as int);
            let after = (Season { episodes: s.episodes, watched: (s.watched + consumed) as usize });
            &&& 0 <= consumed <= k
            &&& after.unwatch_applied(consumed) == consumed
            &&& (Season {
                episodes: after.episodes,
                watched: (after.watched - after.unwatch_applied(consumed)) as usize,
            }) == s
        }),
{
}

/// A season line never holds a line break, and parsing it back restores the
/// season exactly.
pub proof fn lemma_season_line_roundtrip(s: Season)
    ensures
        Season::spec_parse(s.spec_line()) == Ok::<Season, SeasonError>(s),
        s.spec_line().len() >= 3,
        forall|j: int| 0 <= j < s.spec_line().len() ==> s.spec_line()[j] != '\n',
{
    let dw = dec_digits(s.watched as int);
    let de = dec_digits(s.episodes as int);
    let line = s.spec_line();
    lemma_dec_digits_roundtrip(s.watched as int);
    lemma_dec_digits_roundtrip(s.episodes as int);
    lemma_first_index_of(line, separator());
    let i = first_index_of(line, separator());
    assert(line[dw.len() as int] == separator());
    assert(forall|j: int| 0 <= j < dw.len() ==> is_digit(#[trigger] line[j]) && line[j]
        != separator());
    assert(i == dw.len()) by {
        if i < dw.len() {
            assert(line[i] == separator());
        }
    }
    assert(line.subrange(0, i) =~= dw);
    assert(line.subrange(i + 1, line.len() as int) =~= de);
    assert forall|j: int| 0 <= j < line.len() implies line[j] != '\n' by {
        if j < dw.len() {
            assert(is_digit(line[j]));
        } else if j > dw.len() {
            assert(line[j] == de[j - dw.len() - 1]);
            assert(is_digit(line[j]));
        }
    }
}

} // verus!
