//! A tracked series: an ordered list of seasons, a name, and the cursor that
//! marks the first season still being watched.
//!
//! The cursor is pure cache: every operation that can change watch state
//! recomputes it as the index of the first season that is not fully watched,
//! or `None` when every season is done. The watch and unwatch walks spill
//! whatever one season cannot absorb into the next (respectively previous)
//! season, exactly as the record format orders them.

use vstd::prelude::*;
use crate::digits::find_char;
use crate::digits::first_index_of;
use crate::digits::fmt_padded;
use crate::digits::lemma_first_index_of;
use crate::digits::number_width;
use crate::digits::padded_digits;
use crate::digits::spec_number_width;

pub mod season;

pub use season::Season;
pub use season::SeasonError;

verus! {

/// How a record text can fail to parse: it held no season line at all, or
/// some non-empty line was not a season.
#[derive(Debug, Clone, Copy, PartialEq, Eq, Structural)]
pub enum SerieParseError {
    EmptyFile,
    ParseFailed,
}

/// How a series is rendered when listed; only `Content` and the episode
/// labels are computed here, the rest is plain field access by the caller.
#[derive(Debug)]
pub enum PrintMode {
    Normal,
    Extended,
    NextEpisode,
    Season,
    Episode,
    Path,
    Name,
    Content,
}

/// One tracked series. The fields are open; `wf` says when a value is
/// sound (each season well formed, the cursor cache in agreement with the
/// seasons), and `check_wf` decides it at run time. Every constructor of
/// this module establishes `wf`, and every mutating operation keeps it.
#[derive(Debug, PartialEq)]
pub struct Serie {
    pub seasons: Vec<Season>,
    pub name: String,
    pub current_season: Option<usize>,
}

/// Index of the first season that still has unwatched episodes, or `None`
/// when every season is finished (and for an empty list).
pub open spec fn first_unfinished(seasons: Seq<Season>) -> Option<int>
    decreases seasons.len(),
{
    if seasons.len() == 0 {
        None
    } else if !seasons[0].spec_is_finished() {
        Some(0)
    } else {
        match first_unfinished(seasons.drop_first()) {
            None => None,
            Some(i) => Some(i + 1),
        }
    }
}

/// `first_unfinished`, carried to the width the cursor field stores.
pub open spec fn cursor_of(seasons: Seq<Season>) -> Option<usize> {
    match first_unfinished(seasons) {
        None => None,
        Some(i) => Some(i as usize),
    }
}

/// Episodes still unwatched, summed over the seasons with index in `a..b`.
pub open spec fn free_between(s: Seq<Season>, a: int, b: int) -> int
    decreases b - a,
{
    if a >= b {
        0
    } else {
        free_between(s, a, b - 1) + (s[b - 1].episodes - s[b - 1].watched)
    }
}

/// Episodes already watched, summed over the seasons with index in `a..b`.
pub open spec fn watched_between(s: Seq<Season>, a: int, b: int) -> int
    decreases b - a,
{
    if a >= b {
        0
    } else {
        s[a].watched + watched_between(s, a + 1, b)
    }
}

/// How much of a request fits into an available amount: the request clamped
/// into `0..=avail`.
pub open spec fn clamped_take(avail: int, request: int) -> int {
    if request <= 0 {
        0
    } else if request <= avail {
        request
    } else {
        avail
    }
}

/// Episodes the watch walk adds to season `j` when it starts at season
/// `start` with `count` episodes to place: whatever part of the request the
/// seasons before `j` could not hold, clamped to what `j` itself can hold.
pub open spec fn watch_take(s: Seq<Season>, start: int, count: int, j: int) -> int {
    clamped_take(s[j].episodes - s[j].watched, count - free_between(s, start, j))
}

/// Episodes the unwatch walk removes from season `j` when it starts at
/// season `start` with `count` episodes to remove, walking backwards.
pub open spec fn unwatch_take(s: Seq<Season>, start: int, count: int, j: int) -> int {
    clamped_take(s[j].watched as int, count - watched_between(s, j + 1, start + 1))
}

/// Watched episodes summed over the whole series.
pub open spec fn spec_total_watched(s: Seq<Season>) -> int
    decreases s.len(),
{
    if s.len() == 0 {
        0
    } else {
        spec_total_watched(s.drop_last()) + s.last().watched
    }
}

/// Episodes summed over the whole series.
pub open spec fn spec_total_episodes(s: Seq<Season>) -> int
    decreases s.len(),
{
    if s.len() == 0 {
        0
    } else {
        spec_total_episodes(s.drop_last()) + s.last().episodes
    }
}

/// A prefix never sums to more than the whole.
pub proof fn lemma_total_watched_prefix(s: Seq<Season>, j: int)
    requires
        0 <= j <= s.len(),
    ensures
        spec_total_watched(s.subrange(0, j)) <= spec_total_watched(s),
    decreases s.len() - j,
{
    if j == s.len() {
        assert(s.subrange(0, j) =~= s);
    } else {
        lemma_total_watched_prefix(s, j + 1);
        assert(s.subrange(0, j + 1).drop_last() =~= s.subrange(0, j));
    }
}

/// A prefix never sums to more than the whole.
pub proof fn lemma_total_episodes_prefix(s: Seq<Season>, j: int)
    requires
        0 <= j <= s.len(),
    ensures
        spec_total_episodes(s.subrange(0, j)) <= spec_total_episodes(s),
    decreases s.len() - j,
{
    if j == s.len() {
        assert(s.subrange(0, j) =~= s);
    } else {
        lemma_total_episodes_prefix(s, j + 1);
        assert(s.subrange(0, j + 1).drop_last() =~= s.subrange(0, j));
    }
}

/// `needle` occurs contiguously somewhere in `hay`.
pub open spec fn is_substring(hay: Seq<char>, needle: Seq<char>) -> bool {
    exists|k: int|
        0 <= k <= hay.len() - needle.len() && #[trigger] hay.subrange(k, k + needle.len() as int)
            == needle
}

/// What lowercasing a string yields. The mapping depends on the characters
/// alone, so it can bear a name; nothing more is assumed of it.
pub uninterp spec fn lower_of(s: Seq<char>) -> Seq<char>;

/// Relies on str::to_lowercase: the result is the lowercase mapping of the
/// input characters and depends on them alone.
#[verifier::external_body]
fn to_lowercase(s: &str) -> (r: String)
    ensures
        r@ == lower_of(s@),
{
    s.to_lowercase()
}

/// Relies on str::contains with a string pattern: true exactly when the
/// pattern occurs as a substring. UTF-8 is self-synchronizing, so byte-level
/// containment coincides with character-level containment.
#[verifier::external_body]
fn contains_str(hay: &str, needle: &str) -> (r: bool)
    ensures
        r == is_substring(hay@, needle@),
{
    hay.contains(needle)
}

/// How `watch` rewrites the season list: the walk that starts at `start`
/// with `count` episodes leaves everything before `start` alone and adds
/// `watch_take` episodes to each season from `start` on.
pub open spec fn watch_post(s0: Seq<Season>, s1: Seq<Season>, start: int, count: int) -> bool {
    &&& s1.len() == s0.len()
    &&& forall|j: int| 0 <= j < start ==> s1[j] == s0[j]
    &&& forall|j: int|
        start <= j < s0.len() ==> (#[trigger] s1[j]).episodes == s0[j].episodes && s1[j].watched
            == s0[j].watched + watch_take(s0, start, count, j)
}

/// What `watch` hands back: the part of the request that exceeds the free
/// room of the seasons from `start` on.
pub open spec fn watch_leftover(s0: Seq<Season>, start: int, count: int) -> int {
    count - clamped_take(free_between(s0, start, s0.len() as int), count)
}

/// How `unwatch` rewrites the season list: the walk that starts at `start`
/// with `count` episodes leaves everything after `start` alone and removes
/// `unwatch_take` episodes from each season up to `start`.
pub open spec fn unwatch_post(s0: Seq<Season>, s1: Seq<Season>, start: int, count: int) -> bool {
    &&& s1.len() == s0.len()
    &&& forall|j: int| start < j < s0.len() ==> s1[j] == s0[j]
    &&& forall|j: int|
        0 <= j <= start ==> (#[trigger] s1[j]).episodes == s0[j].episodes && s1[j].watched
            == s0[j].watched - unwatch_take(s0, start, count, j)
}

/// What `unwatch` hands back: the part of the request that exceeds what the
/// seasons up to `start` had watched.
pub open spec fn unwatch_leftover(s0: Seq<Season>, start: int, count: int) -> int {
    count - clamped_take(watched_between(s0, 0, start + 1), count)
}

/// Growing the summed range cannot shrink the free sum, as long as the newly
/// covered seasons are well formed.
pub proof fn lemma_free_between_monotone(s: Seq<Season>, a: int, b1: int, b2: int)
    requires
        a <= b1 <= b2,
        forall|j: int| b1 <= j < b2 ==> (#[trigger] s[j]).wf(),
    ensures
        free_between(s, a, b1) <= free_between(s, a, b2),
    decreases b2 - b1,
{
    if b1 < b2 {
        lemma_free_between_monotone(s, a, b1, b2 - 1);
    }
}

/// Growing the summed range at its lower end cannot shrink the watched sum.
pub proof fn lemma_watched_between_monotone(s: Seq<Season>, a1: int, a2: int, b: int)
    requires
        a1 <= a2 <= b,
    ensures
        watched_between(s, a2, b) <= watched_between(s, a1, b),
    decreases a2 - a1,
{
    if a1 < a2 {
        lemma_watched_between_monotone(s, a1 + 1, a2, b);
    }
}

/// The record text of a season list: each season's line followed by a line
/// break, in season order, nothing else.
pub open spec fn spec_serialize(seasons: Seq<Season>) -> Seq<char>
    decreases seasons.len(),
{
    if seasons.len() == 0 {
        Seq::empty()
    } else {
        seasons[0].spec_line() + seq!['\n'] + spec_serialize(seasons.drop_first())
    }
}

/// Serializing one more season appends its line and a line break.
pub proof fn lemma_serialize_snoc(seasons: Seq<Season>, sea: Season)
    ensures
        spec_serialize(seasons.push(sea)) == spec_serialize(seasons) + sea.spec_line()
            + seq!['\n'],
    decreases seasons.len(),
{
    if seasons.len() == 0 {
        let p = seasons.push(sea);
        assert(p.drop_first() =~= Seq::<Season>::empty());
        assert(p[0] == sea);
        assert(spec_serialize(p) == p[0].spec_line() + seq!['\n'] + spec_serialize(p.drop_first()));
        assert(spec_serialize(p.drop_first()) =~= Seq::<char>::empty());
        assert(spec_serialize(p) =~= spec_serialize(seasons) + sea.spec_line() + seq!['\n']);
    } else {
        lemma_serialize_snoc(seasons.drop_first(), sea);
        let p = seasons.push(sea);
        assert(p.drop_first() =~= seasons.drop_first().push(sea));
        assert(p[0] == seasons[0]);
        assert(spec_serialize(p) == p[0].spec_line() + seq!['\n'] + spec_serialize(p.drop_first()));
        assert(spec_serialize(p) =~= spec_serialize(seasons) + sea.spec_line() + seq!['\n']);
    }
}

/// What parsing a record text yields: the text split at line breaks, each
/// non-empty line read as a season, `None` as soon as one line is malformed.
pub open spec fn parse_lines(t: Seq<char>) -> Option<Seq<Season>>
    decreases t.len(),
{
    if t.len() == 0 {
        Some(Seq::empty())
    } else {
        let i = first_index_of(t, '\n');
        if 0 <= i < t.len() {
            let rest = parse_lines(t.subrange(i + 1, t.len() as int));
            match Season::spec_parse(t.subrange(0, i)) {
                Ok(sea) => match rest {
                    None => None,
                    Some(r) => Some(seq![sea] + r),
                },
                Err(SeasonError::EmptySeason) => rest,
                Err(SeasonError::MalformedSeason) => None,
            }
        } else {
            match Season::spec_parse(t) {
                Ok(sea) => Some(seq![sea]),
                Err(SeasonError::EmptySeason) => Some(Seq::empty()),
                Err(SeasonError::MalformedSeason) => None,
            }
        }
    }
}

/// Parsing a serialized season list restores the seasons exactly: the record
/// text format loses nothing.
pub proof fn lemma_serialize_parse_roundtrip(seasons: Seq<Season>)
    ensures
        parse_lines(spec_serialize(seasons)) == Some(seasons),
    decreases seasons.len(),
{
    if seasons.len() == 0 {
        assert(Some(Seq::<Season>::empty()) == Some(seasons)) by {
            assert(seasons =~= Seq::<Season>::empty());
        }
    } else {
        let sea = seasons[0];
        let rest = seasons.drop_first();
        lemma_serialize_parse_roundtrip(rest);
        crate::serie::season::lemma_season_line_roundtrip(sea);
        let line = sea.spec_line();
        let t = spec_serialize(seasons);
        assert(t == line + seq!['\n'] + spec_serialize(rest));
        lemma_first_index_of(t, '\n');
        let i = first_index_of(t, '\n');
        assert(t[line.len() as int] == '\n');
        assert(forall|j: int| 0 <= j < line.len() ==> t[j] == line[j]);
        assert(i == line.len()) by {
            if i < line.len() {
                assert(t[i] == line[i]);
            }
        }
        assert(t.subrange(0, i) =~= line);
        assert(t.subrange(i + 1, t.len() as int) =~= spec_serialize(rest));
        assert(seq![sea] + rest =~= seasons);
    }
}

/// What `first_unfinished` finds: an in-range index of an unfinished season
/// preceded only by finished ones, or `None` exactly when all are finished.
pub proof fn lemma_first_unfinished(seasons: Seq<Season>)
    ensures
        match first_unfinished(seasons) {
            None => forall|j: int|
                0 <= j < seasons.len() ==> (#[trigger] seasons[j]).spec_is_finished(),
            Some(i) => 0 <= i < seasons.len() && !seasons[i].spec_is_finished() && forall|j: int|
                0 <= j < i ==> (#[trigger] seasons[j]).spec_is_finished(),
        },
    decreases seasons.len(),
{
    if seasons.len() > 0 && seasons[0].spec_is_finished() {
        lemma_first_unfinished(seasons.drop_first());
        let rest = seasons.drop_first();
        match first_unfinished(rest) {
            None => {
                assert forall|j: int| 0 <= j < seasons.len() implies (
                #[trigger] seasons[j]).spec_is_finished() by {
                    if j > 0 {
                        assert(rest[j - 1] == seasons[j]);
                    }
                }
            },
            Some(i) => {
                assert(rest[i] == seasons[i + 1]);
                assert forall|j: int| 0 <= j < i + 1 implies (
                #[trigger] seasons[j]).spec_is_finished() by {
                    if j > 0 {
                        assert(rest[j - 1] == seasons[j]);
                    }
                }
            },
        }
    }
}

/// Scan for the first season that is not fully watched.
fn first_unfinished_index(seasons: &Vec<Season>) -> (r: Option<usize>)
    ensures
        r == cursor_of(seasons@),
{
    let n = seasons.len();
    let mut i: usize = 0;
    while i < n
        invariant
            0 <= i <= n,
            n == seasons@.len(),
            forall|j: int| 0 <= j < i ==> (#[trigger] seasons@[j]).spec_is_finished(),
        decreases n - i,
    {
        if seasons[i].is_not_finished() {
            proof {
                lemma_first_unfinished(seasons@);
            }
            return Some(i);
        }
        i = i + 1;
    }
    proof {
        lemma_first_unfinished(seasons@);
    }
    None
}

impl Serie {
    /// Every season of the series is well formed.
    pub open spec fn seasons_wf(self) -> bool {
        forall|i: int| 0 <= i < self.seasons@.len() ==> (#[trigger] self.seasons@[i]).wf()
    }

    /// The cached cursor is what recomputing it would yield.
    pub open spec fn cursor_ok(self) -> bool {
        self.current_season == cursor_of(self.seasons@)
    }

    /// Well-formed series: sound seasons and a sound cursor cache.
    pub open spec fn wf(self) -> bool {
        self.seasons_wf() && self.cursor_ok()
    }

    /// Either there are no seasons, or the last season is fully watched.
    /// Deliberate policy: only the last season decides, so that a partially
    /// watched earlier season does not keep an otherwise-finished series in
    /// every listing.
    pub open spec fn spec_is_finished(self) -> bool {
        self.seasons@.len() == 0 || self.seasons@[self.seasons@.len() - 1].spec_is_finished()
    }

    /// Build a series from seasons and a name; the cursor is computed, never
    /// taken on faith.
    pub fn new(seasons: Vec<Season>, name: String) -> (serie: Serie)
        ensures
            serie.seasons == seasons,
            serie.name == name,
            serie.cursor_ok(),
    {
        let current_season = first_unfinished_index(&seasons);
        Serie { current_season, seasons, name }
    }

    /// The season the unwatch walk starts from: the cursor season, or the
    /// last season when the series is finished.
    pub open spec fn unwatch_start(self) -> int {
        match self.current_season {
            Some(i) => i as int,
            None => self.seasons@.len() - 1,
        }
    }

    /// Watch `count` episodes, spilling past every season boundary: the walk
    /// starts at the cursor season and fills each season in turn until the
    /// request is used up or the series runs out of seasons. Whatever the
    /// whole series could not absorb comes back; on a finished series the
    /// full request comes back and nothing changes.
    pub fn watch(&mut self, count: usize) -> (left: usize)
        requires
            old(self).wf(),
        ensures
            final(self).wf(),
            final(self).name == old(self).name,
            final(self).seasons@.len() == old(self).seasons@.len(),
            match old(self).current_season {
                None => *final(self) == *old(self) && left == count,
                Some(start) => watch_post(
                    old(self).seasons@,
                    final(self).seasons@,
                    start as int,
                    count as int,
                ) && left == watch_leftover(old(self).seasons@, start as int, count as int),
            },
    {
        let start = match self.current_season {
            Some(i) => i,
            None => {
                return count;
            },
        };
        proof {
            lemma_first_unfinished(self.seasons@);
        }
        let ghost s0 = self.seasons@;
        let ghost name0 = self.name;
        let ghost cursor0 = self.current_season;
        let n = self.seasons.len();
        let mut index = start;
        let mut watch_count = count;
        while index < n && watch_count > 0
            invariant
                start <= index <= n,
                n == self.seasons@.len(),
                s0.len() == n,
                self.name == name0,
                self.current_season == cursor0,
                forall|j: int| 0 <= j < start ==> self.seasons@[j] == s0[j],
                forall|j: int| index <= j < n ==> self.seasons@[j] == s0[j],
                forall|j: int|
                    start <= j < index ==> (#[trigger] self.seasons@[j]).episodes
                        == s0[j].episodes && self.seasons@[j].watched == s0[j].watched
                        + watch_take(s0, start as int, count as int, j),
                watch_count == count - clamped_take(
                    free_between(s0, start as int, index as int),
                    count as int,
                ),
                forall|j: int| 0 <= j < n ==> (#[trigger] self.seasons@[j]).wf(),
                forall|j: int| 0 <= j < n ==> (#[trigger] s0[j]).wf(),
            decreases n - index,
        {
            let mut sea = self.seasons[index];
            let l = sea.watch(watch_count);
            self.seasons.set(index, sea);
            watch_count = l;
            index = index + 1;
        }
        proof {
            if watch_count == 0 && index < n {
                lemma_free_between_monotone(s0, start as int, index as int, n as int);
                assert forall|j: int| index <= j < n implies watch_take(
                    s0,
                    start as int,
                    count as int,
                    j,
                ) == 0 by {
                    lemma_free_between_monotone(s0, start as int, index as int, j);
                    lemma_free_between_monotone(s0, start as int, start as int, j);
                }
            }
        }
        let cur = first_unfinished_index(&self.seasons);
        self.current_season = cur;
        watch_count
    }

    /// Unwatch `count` episodes, spilling backwards: the walk starts at the
    /// cursor season (or the last season when the series is finished) and
    /// drains each season in turn towards season one. Whatever those seasons
    /// did not hold comes back.
    pub fn unwatch(&mut self, count: usize) -> (left: usize)
        requires
            old(self).wf(),
            old(self).seasons@.len() > 0,
        ensures
            final(self).wf(),
            final(self).name == old(self).name,
            final(self).seasons@.len() == old(self).seasons@.len(),
            unwatch_post(
                old(self).seasons@,
                final(self).seasons@,
                old(self).unwatch_start(),
                count as int,
            ),
            left == unwatch_leftover(old(self).seasons@, old(self).unwatch_start(), count as int),
    {
        proof {
            lemma_first_unfinished(self.seasons@);
        }
        let start = match self.current_season {
            Some(i) => i,
            None => self.seasons.len() - 1,
        };
        let ghost s0 = self.seasons@;
        let ghost name0 = self.name;
        let ghost cursor0 = self.current_season;
        let n = self.seasons.len();
        let mut index = start;
        let mut wc = count;
        let mut sea = self.seasons[index];
        let l = sea.unwatch(wc);
        self.seasons.set(index, sea);
        wc = l;
        proof {
            assert(watched_between(s0, start as int + 1, start as int + 1) == 0);
            assert(watched_between(s0, start as int, start as int + 1) == s0[start as int].watched);
        }
        while wc > 0 && index > 0
            invariant
                0 <= index <= start < n,
                n == self.seasons@.len(),
                s0.len() == n,
                self.name == name0,
                self.current_season == cursor0,
                forall|j: int| 0 <= j < index ==> self.seasons@[j] == s0[j],
                forall|j: int| start < j < n ==> self.seasons@[j] == s0[j],
                forall|j: int|
                    index <= j <= start ==> (#[trigger] self.seasons@[j]).episodes
                        == s0[j].episodes && self.seasons@[j].watched == s0[j].watched
                        - unwatch_take(s0, start as int, count as int, j),
                wc == count - clamped_take(
                    watched_between(s0, index as int, start as int + 1),
                    count as int,
                ),
                forall|j: int| 0 <= j < n ==> (#[trigger] s0[j]).wf(),
                forall|j: int| 0 <= j < n ==> (#[trigger] self.seasons@[j]).wf(),
            decreases index,
        {
            index = index - 1;
            let mut sea = self.seasons[index];
            let l = sea.unwatch(wc);
            self.seasons.set(index, sea);
            wc = l;
        }
        proof {
            if wc == 0 && index > 0 {
                lemma_watched_between_monotone(s0, 0, index as int, start as int + 1);
                assert forall|j: int| 0 <= j < index implies unwatch_take(
                    s0,
                    start as int,
                    count as int,
                    j,
                ) == 0 by {
                    lemma_watched_between_monotone(s0, j + 1, index as int, start as int + 1);
                    lemma_watched_between_monotone(s0, j + 1, start as int + 1, start as int + 1);
                    assert(watched_between(s0, start as int + 1, start as int + 1) == 0);
                }
            }
        }
        let cur = first_unfinished_index(&self.seasons);
        self.current_season = cur;
        wc
    }

    /// Render the whole record: one line per season, each closed by a line
    /// break.
    pub fn serialize(&self) -> (r: String)
        ensures
            r@ == spec_serialize(self.seasons@),
    {
        let mut r = String::new();
        let n = self.seasons.len();
        let mut i: usize = 0;
        proof {
            assert(self.seasons@.subrange(0, 0) =~= Seq::<Season>::empty());
        }
        while i < n
            invariant
                0 <= i <= n,
                n == self.seasons@.len(),
                r@ == spec_serialize(self.seasons@.subrange(0, i as int)),
            decreases n - i,
        {
            let line = self.seasons[i].to_line();
            r.append(line.as_str());
            r.append("\n");
            proof {
                reveal_strlit("\n");
                let prefix = self.seasons@.subrange(0, i as int);
                lemma_serialize_snoc(prefix, self.seasons@[i as int]);
                assert(self.seasons@.subrange(0, i as int + 1) =~= prefix.push(
                    self.seasons@[i as int],
                ));
                assert("\n"@ =~= seq!['\n']);
                assert(r@ =~= spec_serialize(self.seasons@.subrange(0, i as int + 1)));
            }
            i = i + 1;
        }
        proof {
            assert(self.seasons@.subrange(0, n as int) =~= self.seasons@);
        }
        r
    }

    /// Read a whole record text: split into lines, skip the empty ones,
    /// abort on a malformed one, and refuse a record with no season at all.
    /// The name is not stored in the text, so the parsed series has none.
    pub fn parse(text: &str) -> (r: Result<Serie, SerieParseError>)
        ensures
            match r {
                Ok(serie) => ({
                    &&& parse_lines(text@) == Some(serie.seasons@)
                    &&& serie.seasons@.len() > 0
                    &&& serie.name@ == Seq::<char>::empty()
                    &&& serie.cursor_ok()
                }),
                Err(SerieParseError::EmptyFile) => parse_lines(text@) == Some(
                    Seq::<Season>::empty(),
                ),
                Err(SerieParseError::ParseFailed) => parse_lines(text@) == None::<Seq<Season>>,
            },
    {
        let n = text.unicode_len();
        let mut pos: usize = 0;
        let mut seasons: Vec<Season> = Vec::new();
        proof {
            assert(text@.subrange(0, n as int) =~= text@);
            if let Some(rest) = parse_lines(text@) {
                assert(seasons@ + rest =~= rest);
            }
        }
        while pos < n
            invariant
                0 <= pos <= n,
                n == text@.len(),
                match parse_lines(text@.subrange(pos as int, n as int)) {
                    Some(rest) => parse_lines(text@) == Some(seasons@ + rest),
                    None => parse_lines(text@) == None::<Seq<Season>>,
                },
            decreases n - pos,
        {
            let ghost suffix0 = text@.subrange(pos as int, n as int);
            let suffix = text.substring_char(pos, n);
            let i = find_char(suffix, '\n');
            proof {
                lemma_first_index_of(suffix@, '\n');
            }
            let line_end = pos + i;
            let line = text.substring_char(pos, line_end);
            proof {
                assert(line@ =~= suffix0.subrange(0, i as int));
            }
            let parsed = Season::parse(line);
            let ghost seasons0 = seasons@;
            match parsed {
                Ok(sea) => {
                    seasons.push(sea);
                },
                Err(SeasonError::EmptySeason) => {},
                Err(SeasonError::MalformedSeason) => {
                    proof {
                        if i < n - pos {
                            assert(parse_lines(suffix0) == None::<Seq<Season>>);
                        } else {
                            assert(line@ =~= suffix0);
                        }
                    }
                    return Err(SerieParseError::ParseFailed);
                },
            }
            if line_end < n {
                pos = line_end + 1;
                proof {
                    assert(suffix0.subrange(i as int + 1, suffix0.len() as int) =~= text@.subrange(
                        pos as int,
                        n as int,
                    ));
                    if let Some(rest) = parse_lines(text@.subrange(pos as int, n as int)) {
                        if let Ok(sea) = Season::spec_parse(suffix0.subrange(0, i as int)) {
                            assert(seasons0 + (seq![sea] + rest) =~= seasons@ + rest);
                        }
                    }
                }
            } else {
                pos = n;
                proof {
                    assert(line@ =~= suffix0);
                    assert(text@.subrange(pos as int, n as int) =~= Seq::<char>::empty());
                    if let Ok(sea) = Season::spec_parse(suffix0) {
                        assert(seasons0 + seq![sea] =~= seasons@);
                        assert(seasons@ + Seq::<Season>::empty() =~= seasons@);
                    } else {
                        assert(seasons@ + Seq::<Season>::empty() =~= seasons@);
                    }
                }
            }
        }
        proof {
            assert(text@.subrange(pos as int, n as int) =~= Seq::<char>::empty());
            assert(seasons@ + Seq::<Season>::empty() =~= seasons@);
        }
        if seasons.len() == 0 {
            proof {
                assert(seasons@ =~= Seq::<Season>::empty());
            }
            return Err(SerieParseError::EmptyFile);
        }
        Ok(Serie::new(seasons, String::new()))
    }

    /// Decide well-formedness at run time, for callers that obtained the
    /// value from outside the library: every season sound and the cursor
    /// cache in agreement with the seasons.
    pub fn check_wf(&self) -> (b: bool)
        ensures
            b == self.wf(),
    {
        let n = self.seasons.len();
        let mut i: usize = 0;
        while i < n
            invariant
                0 <= i <= n,
                n == self.seasons@.len(),
                forall|j: int| 0 <= j < i ==> (#[trigger] self.seasons@[j]).wf(),
            decreases n - i,
        {
            let sea = self.seasons[i];
            if sea.watched > sea.episodes {
                return false;
            }
            i = i + 1;
        }
        let cursor = first_unfinished_index(&self.seasons);
        match (cursor, self.current_season) {
            (Some(a), Some(b)) => a == b,
            (None, None) => true,
            _ => false,
        }
    }

    /// Whether the series counts as finished (see `spec_is_finished`).
    pub fn is_finished(&self) -> (r: bool)
        ensures
            r == self.spec_is_finished(),
    {
        if self.seasons.len() == 0 {
            true
        } else {
            self.seasons[self.seasons.len() - 1].is_finished()
        }
    }

    /// Whether some episode in the last season is still unwatched.
    pub fn is_not_finished(&self) -> (r: bool)
        ensures
            r == !self.spec_is_finished(),
    {
        !self.is_finished()
    }

    /// Whether the lowercased name contains the lowercased query.
    pub open spec fn spec_matches(name: Seq<char>, search: Seq<char>) -> bool {
        is_substring(lower_of(name), lower_of(search))
    }

    /// Case-insensitive substring search of the series name.
    pub fn matches(&self, search: &str) -> (r: bool)
        ensures
            r == Self::spec_matches(self.name@, search@),
    {
        let lname = to_lowercase(self.name.as_str());
        let lsearch = to_lowercase(search);
        contains_str(lname.as_str(), lsearch.as_str())
    }

    /// The file the series is stored under: its name plus the record suffix.
    pub fn filename(&self) -> (r: String)
        ensures
            r@ == self.name@ + ".bw"@,
    {
        let mut r = self.name.clone();
        r.append(".bw");
        r
    }

    /// One-based number of the season to watch next; 0 when finished.
    pub fn next_season(&self) -> (r: usize)
        requires
            self.wf(),
        ensures
            r == match first_unfinished(self.seasons@) {
                Some(i) => i + 1,
                None => 0,
            },
    {
        let _n = self.seasons.len();
        proof {
            lemma_first_unfinished(self.seasons@);
        }
        match self.current_season {
            Some(i) => i + 1,
            None => 0,
        }
    }

    /// One-based number of the episode to watch next in the cursor season;
    /// 1 when finished.
    pub fn next_episode(&self) -> (r: usize)
        requires
            self.wf(),
        ensures
            r == match first_unfinished(self.seasons@) {
                Some(i) => self.seasons@[i].watched + 1,
                None => 1,
            },
    {
        let _n = self.seasons.len();
        proof {
            lemma_first_unfinished(self.seasons@);
        }
        match self.current_season {
            Some(i) => self.seasons[i].watched + 1,
            None => 1,
        }
    }

    /// The season under the cursor, if any.
    pub fn current_season(&self) -> (r: Option<Season>)
        requires
            self.wf(),
        ensures
            r == match first_unfinished(self.seasons@) {
                Some(i) => Some(self.seasons@[i]),
                None => None::<Season>,
            },
    {
        let _n = self.seasons.len();
        proof {
            lemma_first_unfinished(self.seasons@);
        }
        match self.current_season {
            Some(i) => Some(self.seasons[i]),
            None => None,
        }
    }

    /// The label of the next episode: `S` and the one-based season number,
    /// `E` and the one-based episode number, both zero-padded (the season
    /// field to the width of the season count, the episode field to the
    /// width of the cursor season's episode count, two columns at least);
    /// nothing when the series is finished.
    pub open spec fn spec_next_episode_str(self) -> Option<Seq<char>> {
        match first_unfinished(self.seasons@) {
            None => None,
            Some(i) => Some(
                seq!['S'] + padded_digits(i + 1, spec_number_width(self.seasons@.len() as int))
                    + seq!['E'] + padded_digits(
                    self.seasons@[i].watched + 1,
                    spec_number_width(self.seasons@[i].episodes as int),
                ),
            ),
        }
    }

    /// Format the label of the next episode, `None` when finished.
    pub fn next_episode_str(&self) -> (r: Option<String>)
        requires
            self.wf(),
        ensures
            match r {
                Some(st) => self.spec_next_episode_str() == Some(st@),
                None => self.spec_next_episode_str() == None::<Seq<char>>,
            },
    {
        proof {
            lemma_first_unfinished(self.seasons@);
        }
        let i = match self.current_season {
            Some(i) => i,
            None => {
                return None;
            },
        };
        let season = self.seasons[i];
        let season_width = number_width(self.seasons.len());
        let episode_width = number_width(season.episodes);
        let mut r = String::from_str("S");
        r.append(fmt_padded(i + 1, season_width).as_str());
        r.append("E");
        r.append(fmt_padded(season.watched + 1, episode_width).as_str());
        proof {
            reveal_strlit("S");
            reveal_strlit("E");
            assert(Some(r@) =~= self.spec_next_episode_str());
        }
        Some(r)
    }

    /// The label of the next episode, or the sentinel for a finished series.
    pub fn next_episode_flat(&self) -> (r: String)
        requires
            self.wf(),
        ensures
            r@ == match self.spec_next_episode_str() {
                Some(st) => st,
                None => "FINISHED"@,
            },
    {
        match self.next_episode_str() {
            Some(st) => st,
            None => String::from_str("FINISHED"),
        }
    }

    /// Episodes watched across all seasons.
    pub fn total_watched(&self) -> (r: usize)
        requires
            spec_total_watched(self.seasons@) <= usize::MAX,
        ensures
            r == spec_total_watched(self.seasons@),
    {
        let n = self.seasons.len();
        let mut acc: usize = 0;
        let mut i: usize = 0;
        proof {
            assert(self.seasons@.subrange(0, 0) =~= Seq::<Season>::empty());
        }
        while i < n
            invariant
                0 <= i <= n,
                n == self.seasons@.len(),
                spec_total_watched(self.seasons@) <= usize::MAX,
                acc == spec_total_watched(self.seasons@.subrange(0, i as int)),
            decreases n - i,
        {
            proof {
                lemma_total_watched_prefix(self.seasons@, i as int + 1);
                assert(self.seasons@.subrange(0, i as int + 1).drop_last() =~= self.seasons@
                    .subrange(0, i as int));
            }
            acc = acc + self.seasons[i].watched;
            i = i + 1;
        }
        proof {
            assert(self.seasons@.subrange(0, n as int) =~= self.seasons@);
        }
        acc
    }

    /// Episodes across all seasons.
    pub fn total_episodes(&self) -> (r: usize)
        requires
            spec_total_episodes(self.seasons@) <= usize::MAX,
        ensures
            r == spec_total_episodes(self.seasons@),
    {
        let n = self.seasons.len();
        let mut acc: usize = 0;
        let mut i: usize = 0;
        proof {
            assert(self.seasons@.subrange(0, 0) =~= Seq::<Season>::empty());
        }
        while i < n
            invariant
                0 <= i <= n,
                n == self.seasons@.len(),
                spec_total_episodes(self.seasons@) <= usize::MAX,
                acc == spec_total_episodes(self.seasons@.subrange(0, i as int)),
            decreases n - i,
        {
            proof {
                lemma_total_episodes_prefix(self.seasons@, i as int + 1);
                assert(self.seasons@.subrange(0, i as int + 1).drop_last() =~= self.seasons@
                    .subrange(0, i as int));
            }
            acc = acc + self.seasons[i].episodes;
            i = i + 1;
        }
        proof {
            assert(self.seasons@.subrange(0, n as int) =~= self.seasons@);
        }
        acc
    }

    /// Whether both totals fit in a machine count, so that `total_watched`
    /// and `total_episodes` can be called.
    pub fn totals_fit(&self) -> (b: bool)
        ensures
            b == (spec_total_episodes(self.seasons@) <= usize::MAX && spec_total_watched(
                self.seasons@,
            ) <= usize::MAX),
    {
        let n = self.seasons.len();
        let mut te: usize = 0;
        let mut tw: usize = 0;
        let mut i: usize = 0;
        proof {
            assert(self.seasons@.subrange(0, 0) =~= Seq::<Season>::empty());
        }
        while i < n
            invariant
                0 <= i <= n,
                n == self.seasons@.len(),
                te == spec_total_episodes(self.seasons@.subrange(0, i as int)),
                tw == spec_total_watched(self.seasons@.subrange(0, i as int)),
            decreases n - i,
        {
            proof {
                lemma_total_episodes_prefix(self.seasons@, i as int + 1);
                lemma_total_watched_prefix(self.seasons@, i as int + 1);
                assert(self.seasons@.subrange(0, i as int + 1).drop_last() =~= self.seasons@
                    .subrange(0, i as int));
            }
            let sea = self.seasons[i];
            if sea.episodes > usize::MAX - te {
                return false;
            }
            if sea.watched > usize::MAX - tw {
                return false;
            }
            te = te + sea.episodes;
            tw = tw + sea.watched;
            i = i + 1;
        }
        proof {
            assert(self.seasons@.subrange(0, n as int) =~= self.seasons@);
        }
        true
    }

    /// Fold freshly fetched season data into this record. Only the episode
    /// totals of `other` matter: the last tracked season's total is raised
    /// if the fetched data shows it grew (never lowered), and any season
    /// beyond the tracked ones is appended wholly unwatched.
    pub fn merge_serie(&mut self, other: &Serie)
        requires
            old(self).wf(),
            old(self).seasons@.len() > 0,
        ensures
            final(self).wf(),
            final(self).name == old(self).name,
            ({
                let s0 = old(self).seasons@;
                let so = other.seasons@;
                let last = s0.len() - 1;
                let s1 = final(self).seasons@;
                &&& s1.len() == (if so.len() > s0.len() {
                    so.len()
                } else {
                    s0.len()
                })
                &&& forall|j: int| 0 <= j < last ==> s1[j] == s0[j]
                &&& s1[last].watched == s0[last].watched
                &&& s1[last].episodes == (if so.len() > last && so[last].episodes
                    > s0[last].episodes {
                    so[last].episodes
                } else {
                    s0[last].episodes
                })
                &&& forall|j: int|
                    s0.len() <= j < so.len() ==> (#[trigger] s1[j]).episodes == so[j].episodes
                        && s1[j].watched == 0
            }),
    {
        let ghost s0 = self.seasons@;
        let ghost name0 = self.name;
        let last_index = self.seasons.len() - 1;
        if other.seasons.len() > last_index {
            let o_eps = other.seasons[last_index].episodes;
            if o_eps > self.seasons[last_index].episodes {
                let mut sea = self.seasons[last_index];
                sea.episodes = o_eps;
                self.seasons.set(last_index, sea);
            }
        }
        let ghost s_mid = self.seasons@;
        let mut j = last_index + 1;
        while j < other.seasons.len()
            invariant
                s0.len() <= j,
                s0.len() == last_index + 1,
                j == s0.len() || j <= other.seasons@.len(),
                self.seasons@.len() == j,
                self.name == name0,
                forall|k: int| 0 <= k < s0.len() ==> self.seasons@[k] == s_mid[k],
                s_mid.len() == s0.len(),
                forall|k: int|
                    s0.len() <= k < j ==> (#[trigger] self.seasons@[k]).episodes
                        == other.seasons@[k].episodes && self.seasons@[k].watched == 0,
                forall|k: int| 0 <= k < j ==> (#[trigger] self.seasons@[k]).wf(),
            decreases other.seasons@.len() - j,
        {
            self.seasons.push(Season::new(other.seasons[j].episodes));
            j = j + 1;
        }
        proof {
            let s1 = self.seasons@;
            assert(forall|k: int| 0 <= k < s0.len() ==> s1[k] == s_mid[k]);
            assert(forall|k: int| 0 <= k < s0.len() - 1 ==> s_mid[k] == s0[k]);
            assert(s_mid[s0.len() - 1].watched == s0[s0.len() - 1].watched);
        }
        let cur = first_unfinished_index(&self.seasons);
        self.current_season = cur;
    }
}

/// Round trip: serializing a series and parsing the text back restores the
/// seasons exactly, and a parser that recomputes the cursor recovers the
/// same cursor; only the name is not stored in the text.
pub proof fn lemma_round_trip(serie: Serie)
    requires
        serie.cursor_ok(),
        serie.seasons@.len() > 0,
    ensures
        parse_lines(spec_serialize(serie.seasons@)) == Some(serie.seasons@),
        cursor_of(serie.seasons@) == serie.current_season,
{
    lemma_serialize_parse_roundtrip(serie.seasons@);
}

/// Watching zero episodes changes nothing: season for season the series
/// stays as it was, so its record text stays identical, and nothing is
/// handed back.
pub proof fn lemma_watch_zero(s0: Seq<Season>, s1: Seq<Season>, start: int)
    requires
        0 <= start <= s0.len(),
        forall|j: int| 0 <= j < s0.len() ==> (#[trigger] s0[j]).wf(),
        watch_post(s0, s1, start, 0),
    ensures
        s1 == s0,
        spec_serialize(s1) == spec_serialize(s0),
        watch_leftover(s0, start, 0) == 0,
{
    assert forall|j: int| start <= j < s0.len() implies watch_take(s0, start, 0, j) == 0 by {
        lemma_free_between_monotone(s0, start, start, j);
    }
    lemma_free_between_monotone(s0, start, start, s0.len() as int);
    assert(s1 =~= s0);
}

/// Unwatching zero episodes changes nothing either.
pub proof fn lemma_unwatch_zero(s0: Seq<Season>, s1: Seq<Season>, start: int)
    requires
        0 <= start < s0.len(),
        unwatch_post(s0, s1, start, 0),
    ensures
        s1 == s0,
        spec_serialize(s1) == spec_serialize(s0),
        unwatch_leftover(s0, start, 0) == 0,
{
    assert forall|j: int| 0 <= j <= start implies unwatch_take(s0, start, 0, j) == 0 by {
        lemma_watched_between_monotone(s0, j + 1, start + 1, start + 1);
        assert(watched_between(s0, start + 1, start + 1) == 0);
    }
    assert(s1 =~= s0);
}

/// A series whose every season is fully watched is finished: the cursor is
/// gone and the next-episode label is the sentinel. By `watch`'s contract, a
/// series without a cursor returns any watch request untouched.
pub proof fn lemma_finished_series(serie: Serie)
    requires
        serie.wf(),
        forall|j: int|
            0 <= j < serie.seasons@.len() ==> (#[trigger] serie.seasons@[j]).spec_is_finished(),
    ensures
        serie.spec_is_finished(),
        serie.current_season == None::<usize>,
        serie.spec_next_episode_str() == None::<Seq<char>>,
{
    lemma_first_unfinished(serie.seasons@);
    if serie.seasons@.len() > 0 {
        assert(serie.seasons@[serie.seasons@.len() - 1].spec_is_finished());
    }
}

/// Unwatching more than the walk can reach clamps at season one: every
/// season from the start of the walk down to the first is drained to zero
/// watched episodes, and exactly the excess comes back.
pub proof fn lemma_unwatch_clamps(s0: Seq<Season>, s1: Seq<Season>, start: int, count: int)
    requires
        0 <= start < s0.len(),
        count >= watched_between(s0, 0, start + 1),
        unwatch_post(s0, s1, start, count),
    ensures
        forall|j: int| 0 <= j <= start ==> (#[trigger] s1[j]).watched == 0,
        unwatch_leftover(s0, start, count) == count - watched_between(s0, 0, start + 1),
{
    assert forall|j: int| 0 <= j <= start implies unwatch_take(s0, start, count, j)
        == s0[j].watched by {
        lemma_watched_between_monotone(s0, 0, j, start + 1);
    }
    lemma_watched_between_monotone(s0, 0, start + 1, start + 1);
    assert(watched_between(s0, start + 1, start + 1) == 0);
}

impl Default for Serie {
    /// The empty series with an empty name; by convention it is finished.
    fn default() -> (serie: Serie)
        ensures
            serie.seasons@.len() == 0,
            serie.name@.len() == 0,
            serie.current_season == None::<usize>,
            serie.wf(),
    {
        Serie { seasons: Vec::new(), name: String::new(), current_season: None }
    }
}

} // verus!
