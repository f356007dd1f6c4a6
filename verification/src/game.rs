//! The per-game notification state machine.
//!
//! A `Game` owns one tracked game's lifecycle, score, known goals and
//! notified-highlight set. Each poll of the content feed is handed to it as
//! a list of plain `MilestoneItem` records; the game parses them into
//! candidate goals, diffs the candidates against the known set, updates the
//! score, composes every notification text, and decides the lifecycle
//! transitions. The runtime around it only fetches, sends and sleeps.

use vstd::prelude::*;
use vstd::string::StringExecFns;

use std::collections::HashMap;

use crate::model::ScheduleGame;
use crate::model::Team;
use crate::numerals::all_dec_digits;
use crate::numerals::dec_digits;
use crate::numerals::dec_value;
use crate::numerals::format_mmss;
use crate::numerals::mmss_seconds;
use crate::numerals::numeral_digits;
use crate::numerals::mmss_text;
use crate::numerals::parse_mmss;
use crate::numerals::parse_u32;
use crate::numerals::spec_time_remaining;
use crate::numerals::time_remaining;
use crate::numerals::u32_to_string;
use crate::numerals::valid_mmss;
use crate::text::str_eq;

verus! {

/// Lifecycle of a tracked game. Transitions only ever move forward:
/// `Scheduled` to `Live` to `Ended`.
#[derive(Clone, Copy, PartialEq, Eq, Structural, Debug)]
pub enum GameStatus {
    Scheduled,
    Live,
    Ended,
}

/// Position of a status on the one-way lifecycle.
pub open spec fn status_rank(s: GameStatus) -> int {
    match s {
        GameStatus::Scheduled => 0,
        GameStatus::Live => 1,
        GameStatus::Ended => 2,
    }
}

/// The running score: how many known goals each side has.
#[derive(Clone, Copy, PartialEq, Eq, Structural, Debug)]
pub struct GameScore {
    pub home: u8,
    pub away: u8,
}

impl GameScore {
    pub fn new() -> (s: GameScore)
        ensures
            s.home == 0,
            s.away == 0,
    {
        GameScore { home: 0, away: 0 }
    }
}

/// One playback rendition of a highlight clip, as the feed lists them.
#[derive(Debug)]
pub struct Playback {
    pub name: String,
    pub url: String,
}

/// A highlight attached to a milestone record: a description and the
/// renditions on offer.
#[derive(Debug)]
pub struct Highlight {
    pub description: String,
    pub playbacks: Option<Vec<Playback>>,
}

/// One event record from the content feed's milestone list.
#[derive(Debug)]
pub struct MilestoneItem {
    pub item_type: String,
    pub description: String,
    pub ordinal_num: String,
    pub period_time: String,
    pub stats_event_id: String,
    pub team_id: String,
    pub highlight: Option<Highlight>,
}

/// What a goal keeps of its highlight: the description, and the URL of the
/// one playback rendition notifications use, when the feed offers it.
#[derive(Debug)]
pub struct GoalHighlight {
    pub description: String,
    pub clip_url: Option<String>,
}

/// A canonical goal, built from one well-formed goal milestone record.
/// `period_time` is the seconds remaining in the period when it was scored.
#[derive(Debug)]
pub struct Goal {
    pub event_id: u32,
    pub team_id: u32,
    pub description: String,
    pub ordinal_num: String,
    pub period_time: u32,
    pub highlight: Option<GoalHighlight>,
}

impl Goal {
    /// A value-identical copy.
    pub fn duplicate(&self) -> (g: Goal)
        ensures
            g == *self,
    {
        let highlight = match &self.highlight {
            Some(h) => Some(
                GoalHighlight {
                    description: h.description.clone(),
                    clip_url: match &h.clip_url {
                        Some(u) => Some(u.clone()),
                        None => None,
                    },
                },
            ),
            None => None,
        };
        Goal {
            event_id: self.event_id,
            team_id: self.team_id,
            description: self.description.clone(),
            ordinal_num: self.ordinal_num.clone(),
            period_time: self.period_time,
            highlight,
        }
    }
}

/// No two goals share an event id.
pub open spec fn unique_ids(s: Seq<Goal>) -> bool {
    forall|i: int, j: int| 0 <= i < j < s.len() ==> s[i].event_id != s[j].event_id
}

/// Some goal in the sequence carries this event id.
pub open spec fn has_event_id(s: Seq<Goal>, id: u32) -> bool {
    exists|i: int| 0 <= i < s.len() && (#[trigger] s[i]).event_id == id
}

/// How many goals the home side scored.
pub open spec fn home_goal_count(s: Seq<Goal>, home_id: u32) -> nat
    decreases s.len(),
{
    if s.len() == 0 {
        0
    } else {
        home_goal_count(s.drop_last(), home_id) + if s.last().team_id == home_id {
            1nat
        } else {
            0nat
        }
    }
}

/// How many goals the away side scored; every goal not credited to the
/// home side counts for the away side.
pub open spec fn away_goal_count(s: Seq<Goal>, home_id: u32) -> nat
    decreases s.len(),
{
    if s.len() == 0 {
        0
    } else {
        away_goal_count(s.drop_last(), home_id) + if s.last().team_id == home_id {
            0nat
        } else {
            1nat
        }
    }
}

/// Every goal counts for exactly one side, so the two tallies always sum
/// to the number of goals.
pub proof fn lemma_goal_counts_sum(s: Seq<Goal>, home_id: u32)
    ensures
        home_goal_count(s, home_id) + away_goal_count(s, home_id) == s.len(),
    decreases s.len(),
{
    if s.len() > 0 {
        lemma_goal_counts_sum(s.drop_last(), home_id);
    }
}

/// Replaces the first goal with a matching event id, or appends when no
/// goal matches: a later record for a known event supersedes it.
pub open spec fn upsert_goal(s: Seq<Goal>, g: Goal) -> Seq<Goal>
    decreases s.len(),
{
    if s.len() == 0 {
        seq![g]
    } else if s[0].event_id == g.event_id {
        seq![g] + s.drop_first()
    } else {
        seq![s[0]] + upsert_goal(s.drop_first(), g)
    }
}

proof fn lemma_upsert_at(s: Seq<Goal>, g: Goal, i: int)
    requires
        0 <= i < s.len(),
        s[i].event_id == g.event_id,
        forall|j: int| 0 <= j < i ==> s[j].event_id != g.event_id,
    ensures
        upsert_goal(s, g) == s.update(i, g),
    decreases s.len(),
{
    if i == 0 {
        assert(upsert_goal(s, g) =~= s.update(0, g));
    } else {
        lemma_upsert_at(s.drop_first(), g, i - 1);
        assert(upsert_goal(s, g) =~= s.update(i, g));
    }
}

proof fn lemma_upsert_absent(s: Seq<Goal>, g: Goal)
    requires
        !has_event_id(s, g.event_id),
    ensures
        upsert_goal(s, g) == s.push(g),
    decreases s.len(),
{
    if s.len() == 0 {
        assert(upsert_goal(s, g) =~= s.push(g));
    } else {
        assert(!has_event_id(s.drop_first(), g.event_id));
        lemma_upsert_absent(s.drop_first(), g);
        assert(upsert_goal(s, g) =~= s.push(g));
    }
}

proof fn lemma_upsert_props(s: Seq<Goal>, g: Goal)
    requires
        unique_ids(s),
    ensures
        unique_ids(upsert_goal(s, g)),
        s.len() <= upsert_goal(s, g).len() <= s.len() + 1,
        forall|id: u32| #[trigger]
            has_event_id(upsert_goal(s, g), id) <==> (has_event_id(s, id) || id == g.event_id),
    decreases s.len(),
{
    let r = upsert_goal(s, g);
    if s.len() == 0 {
        assert(forall|id: u32|
            has_event_id(r, id) <==> (has_event_id(s, id) || id == g.event_id)) by {
            assert(r[0] == g);
        }
    } else if s[0].event_id == g.event_id {
        assert(forall|j: int| 0 < j < s.len() ==> s[j].event_id != g.event_id);
        assert(forall|id: u32|
            has_event_id(r, id) <==> (has_event_id(s, id) || id == g.event_id)) by {
            assert(forall|id: u32| #[trigger] has_event_id(s, id) ==> has_event_id(r, id)) by {
                assert forall|id: u32| has_event_id(s, id) implies has_event_id(r, id) by {
                    let w = choose|w: int| 0 <= w < s.len() && (#[trigger] s[w]).event_id == id;
                    if w == 0 {
                        assert(r[0].event_id == id);
                    } else {
                        assert(r[w] == s[w]);
                    }
                }
            }
            assert forall|id: u32| has_event_id(r, id) implies (has_event_id(s, id) || id
                == g.event_id) by {
                let w = choose|w: int| 0 <= w < r.len() && (#[trigger] r[w]).event_id == id;
                if w > 0 {
                    assert(s[w] == r[w]);
                }
            }
        }
    } else {
        assert(unique_ids(s.drop_first())) by {
            assert(forall|i: int, j: int|
                0 <= i < j < s.drop_first().len() ==> s.drop_first()[i] == s[i + 1]
                    && s.drop_first()[j] == s[j + 1]);
        }
        lemma_upsert_props(s.drop_first(), g);
        let rr = upsert_goal(s.drop_first(), g);
        assert(r =~= seq![s[0]] + rr);
        assert(!has_event_id(s.drop_first(), s[0].event_id));
        assert(unique_ids(r)) by {
            assert(forall|j: int| 1 <= j < r.len() ==> r[j] == rr[j - 1]);
            assert forall|i: int, j: int| 0 <= i < j < r.len() implies r[i].event_id
                != r[j].event_id by {
                if i == 0 {
                    assert(has_event_id(rr, rr[j - 1].event_id));
                }
            }
        }
        assert forall|id: u32| has_event_id(r, id) implies (has_event_id(s, id) || id
            == g.event_id) by {
            let w = choose|w: int| 0 <= w < r.len() && (#[trigger] r[w]).event_id == id;
            if w == 0 {
                assert(s[0].event_id == id);
            } else {
                assert(r[w] == rr[w - 1]);
                assert(has_event_id(rr, id));
                if has_event_id(s.drop_first(), id) {
                    let v = choose|v: int|
                        0 <= v < s.drop_first().len() && (#[trigger] s.drop_first()[v]).event_id
                            == id;
                    assert(s[v + 1].event_id == id);
                }
            }
        }
        assert forall|id: u32| (has_event_id(s, id) || id == g.event_id) implies has_event_id(
            r,
            id,
        ) by {
            if has_event_id(s, id) {
                let w = choose|w: int| 0 <= w < s.len() && (#[trigger] s[w]).event_id == id;
                if w == 0 {
                    assert(r[0].event_id == id);
                } else {
                    assert(s.drop_first()[w - 1] == s[w]);
                    assert(has_event_id(s.drop_first(), id));
                    assert(has_event_id(rr, id));
                    let v = choose|v: int| 0 <= v < rr.len() && (#[trigger] rr[v]).event_id == id;
                    assert(r[v + 1].event_id == id);
                }
            } else {
                assert(has_event_id(rr, id));
                let v = choose|v: int| 0 <= v < rr.len() && (#[trigger] rr[v]).event_id == id;
                assert(r[v + 1].event_id == id);
            }
        }
    }
}

/// Replaces the first goal with `g`'s event id, or appends `g`.
#[verifier::loop_isolation(false)]
fn upsert_goal_vec(goals: &mut Vec<Goal>, g: Goal)
    requires
        unique_ids(old(goals)@),
    ensures
        final(goals)@ == upsert_goal(old(goals)@, g),
        unique_ids(final(goals)@),
        old(goals)@.len() <= final(goals)@.len() <= old(goals)@.len() + 1,
{
    proof {
        lemma_upsert_props(old(goals)@, g);
    }
    let mut i: usize = 0;
    while i < goals.len()
        invariant
            goals@ == old(goals)@,
            0 <= i <= goals@.len(),
            forall|j: int| 0 <= j < i ==> goals@[j].event_id != g.event_id,
        decreases goals@.len() - i,
    {
        if goals[i].event_id == g.event_id {
            proof {
                lemma_upsert_at(goals@, g, i as int);
            }
            goals.remove(i);
            goals.insert(i, g);
            proof {
                assert(goals@ =~= old(goals)@.update(i as int, g));
            }
            return ;
        }
        i = i + 1;
    }
    proof {
        assert(!has_event_id(goals@, g.event_id));
        lemma_upsert_absent(goals@, g);
    }
    goals.push(g);
}

/// A goal milestone record.
pub open spec fn is_goal_item(it: MilestoneItem) -> bool {
    it.item_type@ == "GOAL"@
}

/// A milestone record carries the broadcast-end marker.
pub open spec fn is_end_marker(it: MilestoneItem) -> bool {
    it.item_type@ == "BROADCAST_END"@
}

/// Some record in the poll carries the broadcast-end marker.
pub open spec fn has_end_marker(items: Seq<MilestoneItem>) -> bool {
    exists|i: int| 0 <= i < items.len() && is_end_marker(#[trigger] items[i])
}

/// A goal record whose event id, scoring-team id and elapsed period time
/// all read as well-formed values.
pub open spec fn goal_fields_ok(it: MilestoneItem) -> bool {
    &&& numeral_digits(it.stats_event_id@).len() > 0
    &&& all_dec_digits(numeral_digits(it.stats_event_id@))
    &&& dec_value(numeral_digits(it.stats_event_id@)) <= u32::MAX
    &&& numeral_digits(it.team_id@).len() > 0
    &&& all_dec_digits(numeral_digits(it.team_id@))
    &&& dec_value(numeral_digits(it.team_id@)) <= u32::MAX
    &&& valid_mmss(it.period_time@)
}

/// Length of the period a goal was scored in, in seconds. Every playoff
/// period runs twenty minutes; otherwise overtime runs five and a shootout
/// none, and any regulation period runs twenty.
pub open spec fn spec_period_length(game_type: Seq<char>, ordinal_num: Seq<char>) -> nat {
    if game_type == "P"@ {
        1200
    } else if ordinal_num == "OT"@ {
        300
    } else if ordinal_num == "SO"@ {
        0
    } else {
        1200
    }
}

/// The playback rendition a highlight notification links: the last one the
/// feed lists under the name `FLASH_1800K_896x504`.
pub open spec fn chosen_clip(pbs: Seq<Playback>) -> Option<Playback>
    decreases pbs.len(),
{
    if pbs.len() == 0 {
        None
    } else if pbs.last().name@ == "FLASH_1800K_896x504"@ {
        Some(pbs.last())
    } else {
        chosen_clip(pbs.drop_last())
    }
}

/// The URL the chosen rendition plays at, when the feed offers one.
pub open spec fn spec_clip_url(playbacks: Option<Vec<Playback>>) -> Option<String> {
    match playbacks {
        None => None,
        Some(v) => match chosen_clip(v@) {
            None => None,
            Some(p) => Some(p.url),
        },
    }
}

/// Picks the clip URL out of a highlight's playback list.
fn select_clip_url(playbacks: &Option<Vec<Playback>>) -> (r: Option<String>)
    ensures
        r == spec_clip_url(*playbacks),
{
    match playbacks {
        None => None,
        Some(v) => {
            let mut found: Option<String> = None;
            let mut i: usize = 0;
            while i < v.len()
                invariant
                    0 <= i <= v@.len(),
                    found == (match chosen_clip(v@.take(i as int)) {
                        None => None::<String>,
                        Some(p) => Some(p.url),
                    }),
                decreases v@.len() - i,
            {
                proof {
                    assert(v@.take(i + 1).drop_last() =~= v@.take(i as int));
                    assert(v@.take(i + 1).last() == v@[i as int]);
                }
                if str_eq(v[i].name.as_str(), "FLASH_1800K_896x504") {
                    found = Some(v[i].url.clone());
                }
                i = i + 1;
            }
            proof {
                assert(v@.take(v@.len() as int) =~= v@);
            }
            found
        },
    }
}

/// The canonical goal a well-formed goal record denotes, for a game of the
/// given type.
pub open spec fn goal_of_item(it: MilestoneItem, game_type: Seq<char>) -> Goal {
    Goal {
        event_id: dec_value(numeral_digits(it.stats_event_id@)) as u32,
        team_id: dec_value(numeral_digits(it.team_id@)) as u32,
        description: it.description,
        ordinal_num: it.ordinal_num,
        period_time: spec_time_remaining(
            spec_period_length(game_type, it.ordinal_num@),
            mmss_seconds(it.period_time@),
        ) as u32,
        highlight: match it.highlight {
            None => None,
            Some(h) => Some(
                GoalHighlight { description: h.description, clip_url: spec_clip_url(h.playbacks) },
            ),
        },
    }
}

/// The candidate goal set one poll denotes: each well-formed goal record
/// in order, a later record superseding an earlier one with the same event
/// id; malformed goal records are dropped.
pub open spec fn parsed_goals(items: Seq<MilestoneItem>, game_type: Seq<char>) -> Seq<Goal>
    decreases items.len(),
{
    if items.len() == 0 {
        Seq::empty()
    } else {
        let rest = parsed_goals(items.drop_last(), game_type);
        let it = items.last();
        if is_goal_item(it) && goal_fields_ok(it) {
            upsert_goal(rest, goal_of_item(it, game_type))
        } else {
            rest
        }
    }
}

/// The candidate set never repeats an event id and is no longer than the
/// poll it came from.
pub proof fn lemma_parsed_goals_props(items: Seq<MilestoneItem>, game_type: Seq<char>)
    ensures
        unique_ids(parsed_goals(items, game_type)),
        parsed_goals(items, game_type).len() <= items.len(),
    decreases items.len(),
{
    if items.len() > 0 {
        lemma_parsed_goals_props(items.drop_last(), game_type);
        let it = items.last();
        if is_goal_item(it) && goal_fields_ok(it) {
            lemma_upsert_props(parsed_goals(items.drop_last(), game_type), goal_of_item(it, game_type));
        }
    }
}

/// The goals of a poll's candidate set that are new: their event ids were
/// not known before. These are the goals that score and notify.
pub open spec fn added_goals(known: Seq<Goal>, cands: Seq<Goal>) -> Seq<Goal>
    decreases cands.len(),
{
    if cands.len() == 0 {
        Seq::empty()
    } else {
        let rest = added_goals(known, cands.drop_last());
        if has_event_id(known, cands.last().event_id) {
            rest
        } else {
            rest.push(cands.last())
        }
    }
}

/// The record a poll carries for an event id; meaningful when the poll
/// lists the id (candidate ids never repeat).
pub open spec fn goal_with_id(cands: Seq<Goal>, id: u32) -> Goal {
    cands[choose|i: int| 0 <= i < cands.len() && (#[trigger] cands[i]).event_id == id]
}

/// When the poll lists the id, its record carries that id.
proof fn lemma_goal_with_id_has(cands: Seq<Goal>, id: u32)
    requires
        has_event_id(cands, id),
    ensures
        goal_with_id(cands, id).event_id == id,
{
}

/// Under duplicate-free candidate ids, the poll's record for a
/// candidate's id is that candidate.
proof fn lemma_goal_with_id_is(cands: Seq<Goal>, i: int)
    requires
        unique_ids(cands),
        0 <= i < cands.len(),
    ensures
        goal_with_id(cands, cands[i].event_id) == cands[i],
{
    let id = cands[i].event_id;
    assert(has_event_id(cands, id)) by {
        assert(cands[i].event_id == id);
    }
    let j = choose|j: int| 0 <= j < cands.len() && (#[trigger] cands[j]).event_id == id;
    assert(j == i);
}

/// The known goals whose event ids the poll still lists, each superseded
/// by the poll's record for its id, in the known set's order; the rest
/// were retracted and come off the score.
pub open spec fn superseded_goals(known: Seq<Goal>, cands: Seq<Goal>) -> Seq<Goal>
    decreases known.len(),
{
    if known.len() == 0 {
        Seq::empty()
    } else {
        let rest = superseded_goals(known.drop_last(), cands);
        if has_event_id(cands, known.last().event_id) {
            rest.push(goal_with_id(cands, known.last().event_id))
        } else {
            rest
        }
    }
}

/// The score a goal set denotes: each side's tally of its goals.
pub open spec fn score_of(goals: Seq<Goal>, home_id: u32) -> GameScore {
    GameScore {
        home: home_goal_count(goals, home_id) as u8,
        away: away_goal_count(goals, home_id) as u8,
    }
}

proof fn lemma_count_concat(a: Seq<Goal>, b: Seq<Goal>, home_id: u32)
    ensures
        home_goal_count(a + b, home_id) == home_goal_count(a, home_id) + home_goal_count(
            b,
            home_id,
        ),
        away_goal_count(a + b, home_id) == away_goal_count(a, home_id) + away_goal_count(
            b,
            home_id,
        ),
    decreases b.len(),
{
    if b.len() == 0 {
        assert(a + b =~= a);
    } else {
        assert((a + b).drop_last() =~= a + b.drop_last());
        assert((a + b).last() == b.last());
        lemma_count_concat(a, b.drop_last(), home_id);
    }
}

proof fn lemma_count_push(s: Seq<Goal>, g: Goal, home_id: u32)
    ensures
        home_goal_count(s.push(g), home_id) == home_goal_count(s, home_id) + if g.team_id
            == home_id {
            1nat
        } else {
            0nat
        },
        away_goal_count(s.push(g), home_id) == away_goal_count(s, home_id) + if g.team_id
            == home_id {
            0nat
        } else {
            1nat
        },
{
    assert(s.push(g).drop_last() =~= s);
    assert(s.push(g).last() == g);
}

proof fn lemma_count_skip_step(s: Seq<Goal>, j: int, home_id: u32)
    requires
        0 <= j < s.len(),
    ensures
        home_goal_count(s.skip(j), home_id) == home_goal_count(s.skip(j + 1), home_id) + if s[
            j
        ].team_id == home_id {
            1nat
        } else {
            0nat
        },
        away_goal_count(s.skip(j), home_id) == away_goal_count(s.skip(j + 1), home_id) + if s[
            j
        ].team_id == home_id {
            0nat
        } else {
            1nat
        },
{
    assert(s.skip(j) =~= seq![s[j]] + s.skip(j + 1));
    lemma_count_concat(seq![s[j]], s.skip(j + 1), home_id);
    assert(seq![s[j]].drop_last() =~= Seq::<Goal>::empty());
    assert(home_goal_count(Seq::<Goal>::empty(), home_id) == 0);
    assert(away_goal_count(Seq::<Goal>::empty(), home_id) == 0);
    assert(seq![s[j]].last() == s[j]);
}

proof fn lemma_has_id_concat(a: Seq<Goal>, b: Seq<Goal>, id: u32)
    ensures
        has_event_id(a + b, id) <==> (has_event_id(a, id) || has_event_id(b, id)),
{
    if has_event_id(a + b, id) {
        let w = choose|w: int| 0 <= w < (a + b).len() && (#[trigger] (a + b)[w]).event_id == id;
        if w < a.len() {
            assert(a[w] == (a + b)[w]);
        } else {
            assert(b[w - a.len()] == (a + b)[w]);
        }
    }
    if has_event_id(a, id) {
        let w = choose|w: int| 0 <= w < a.len() && (#[trigger] a[w]).event_id == id;
        assert((a + b)[w] == a[w]);
    }
    if has_event_id(b, id) {
        let w = choose|w: int| 0 <= w < b.len() && (#[trigger] b[w]).event_id == id;
        assert((a + b)[w + a.len()] == b[w]);
    }
}

/// Each added goal is one of the poll's own records, for an event id that
/// was unknown; under a duplicate-free candidate set the added goals are
/// duplicate-free too.
proof fn lemma_added_elements(known: Seq<Goal>, cands: Seq<Goal>)
    ensures
        added_goals(known, cands).len() <= cands.len(),
        forall|k: int|
            0 <= k < added_goals(known, cands).len() ==> {
                &&& !has_event_id(known, (#[trigger] added_goals(known, cands)[k]).event_id)
                &&& has_event_id(cands, added_goals(known, cands)[k].event_id)
                &&& cands.contains(added_goals(known, cands)[k])
            },
        unique_ids(cands) ==> unique_ids(added_goals(known, cands)),
    decreases cands.len(),
{
    if cands.len() > 0 {
        lemma_added_elements(known, cands.drop_last());
        let rest = added_goals(known, cands.drop_last());
        let r = added_goals(known, cands);
        assert forall|k: int| 0 <= k < rest.len() implies has_event_id(
            cands,
            rest[k].event_id,
        ) by {
            let w = choose|w: int|
                0 <= w < cands.drop_last().len() && (#[trigger] cands.drop_last()[w]).event_id
                    == rest[k].event_id;
            assert(cands[w] == cands.drop_last()[w]);
        }
        assert forall|k: int| 0 <= k < rest.len() implies cands.contains(rest[k]) by {
            let w = choose|w: int|
                0 <= w < cands.drop_last().len() && cands.drop_last()[w] == rest[k];
            assert(cands[w] == cands.drop_last()[w]);
        }
        assert(cands.contains(cands.last())) by {
            assert(cands[cands.len() - 1] == cands.last());
        }
        if !has_event_id(known, cands.last().event_id) {
            assert(r == rest.push(cands.last()));
            assert(has_event_id(cands, cands.last().event_id)) by {
                assert(cands[cands.len() - 1].event_id == cands.last().event_id);
            }
            if unique_ids(cands) {
                assert(unique_ids(cands.drop_last())) by {
                    assert(forall|i: int|
                        0 <= i < cands.drop_last().len() ==> cands.drop_last()[i] == cands[i]);
                }
                assert forall|i: int, j: int| 0 <= i < j < r.len() implies r[i].event_id
                    != r[j].event_id by {
                    if j == r.len() - 1 {
                        let w = choose|w: int|
                            0 <= w < cands.drop_last().len() && (#[trigger] cands.drop_last()[w]).event_id == rest[i].event_id;
                        assert(cands[w] == cands.drop_last()[w]);
                        assert(cands[w].event_id != cands[cands.len() - 1].event_id);
                    }
                }
            }
        } else {
            if unique_ids(cands) {
                assert(unique_ids(cands.drop_last())) by {
                    assert(forall|i: int|
                        0 <= i < cands.drop_last().len() ==> cands.drop_last()[i] == cands[i]);
                }
            }
        }
    }
}

/// Each superseded goal keeps an event id that was known and that the
/// poll lists; under a duplicate-free known set the superseded goals are
/// duplicate-free too.
proof fn lemma_superseded_elements(known: Seq<Goal>, cands: Seq<Goal>)
    ensures
        superseded_goals(known, cands).len() <= known.len(),
        forall|k: int|
            0 <= k < superseded_goals(known, cands).len() ==> {
                &&& has_event_id(known, (#[trigger] superseded_goals(known, cands)[k]).event_id)
                &&& has_event_id(cands, superseded_goals(known, cands)[k].event_id)
            },
        unique_ids(known) ==> unique_ids(superseded_goals(known, cands)),
    decreases known.len(),
{
    if known.len() > 0 {
        lemma_superseded_elements(known.drop_last(), cands);
        let rest = superseded_goals(known.drop_last(), cands);
        let r = superseded_goals(known, cands);
        assert forall|k: int| 0 <= k < rest.len() implies has_event_id(
            known,
            rest[k].event_id,
        ) by {
            let w = choose|w: int|
                0 <= w < known.drop_last().len() && (#[trigger] known.drop_last()[w]).event_id
                    == rest[k].event_id;
            assert(known[w] == known.drop_last()[w]);
        }
        if unique_ids(known) {
            assert(unique_ids(known.drop_last())) by {
                assert(forall|i: int|
                    0 <= i < known.drop_last().len() ==> known.drop_last()[i] == known[i]);
            }
        }
        if has_event_id(cands, known.last().event_id) {
            lemma_goal_with_id_has(cands, known.last().event_id);
            assert(r == rest.push(goal_with_id(cands, known.last().event_id)));
            assert(r[r.len() - 1].event_id == known.last().event_id);
            assert(has_event_id(known, known.last().event_id)) by {
                assert(known[known.len() - 1].event_id == known.last().event_id);
            }
            if unique_ids(known) {
                assert forall|i: int, j: int| 0 <= i < j < r.len() implies r[i].event_id
                    != r[j].event_id by {
                    if j == r.len() - 1 {
                        let w = choose|w: int|
                            0 <= w < known.drop_last().len() && (#[trigger] known.drop_last()[w]).event_id == rest[i].event_id;
                        assert(known[w] == known.drop_last()[w]);
                        assert(known[w].event_id != known[known.len() - 1].event_id);
                    }
                }
            }
        }
    }
}

/// Supersession looks at each known goal alone, so it distributes over
/// concatenation.
proof fn lemma_superseded_concat(a: Seq<Goal>, b: Seq<Goal>, cands: Seq<Goal>)
    ensures
        superseded_goals(a + b, cands) == superseded_goals(a, cands) + superseded_goals(b, cands),
    decreases b.len(),
{
    if b.len() == 0 {
        assert(a + b =~= a);
        assert(superseded_goals(b, cands) =~= Seq::<Goal>::empty());
        assert(superseded_goals(a, cands) + superseded_goals(b, cands) =~= superseded_goals(a, cands));
    } else {
        assert((a + b).drop_last() =~= a + b.drop_last());
        assert((a + b).last() == b.last());
        lemma_superseded_concat(a, b.drop_last(), cands);
        if has_event_id(cands, b.last().event_id) {
            assert(superseded_goals(a, cands) + superseded_goals(b, cands) =~= (superseded_goals(a, cands)
                + superseded_goals(b.drop_last(), cands)).push(goal_with_id(cands, b.last().event_id)));
        }
    }
}

/// A goal set that is its own supersession — the poll lists each goal's
/// id and its record for that id is the goal itself — is kept whole and
/// unchanged.
proof fn lemma_superseded_all(s: Seq<Goal>, cands: Seq<Goal>)
    requires
        forall|k: int|
            0 <= k < s.len() ==> has_event_id(cands, (#[trigger] s[k]).event_id) && goal_with_id(
                cands,
                s[k].event_id,
            ) == s[k],
    ensures
        superseded_goals(s, cands) == s,
    decreases s.len(),
{
    if s.len() > 0 {
        assert(forall|k: int| 0 <= k < s.drop_last().len() ==> s.drop_last()[k] == s[k]);
        lemma_superseded_all(s.drop_last(), cands);
        assert(s[s.len() - 1] == s.last());
        assert(superseded_goals(s, cands) =~= s);
    }
}

/// Whether some goal in the list carries this event id.
fn contains_event_id(goals: &Vec<Goal>, id: u32) -> (r: bool)
    ensures
        r == has_event_id(goals@, id),
{
    let mut i: usize = 0;
    while i < goals.len()
        invariant
            0 <= i <= goals@.len(),
            forall|j: int| 0 <= j < i ==> (#[trigger] goals@[j]).event_id != id,
        decreases goals@.len() - i,
    {
        if goals[i].event_id == id {
            return true;
        }
        i = i + 1;
    }
    false
}

/// The poll's record for an event id, when the poll lists it.
#[verifier::loop_isolation(false)]
fn find_goal_with_id(goals: &Vec<Goal>, id: u32) -> (r: Option<Goal>)
    requires
        unique_ids(goals@),
    ensures
        (match r {
            Some(g) => has_event_id(goals@, id) && g == goal_with_id(goals@, id),
            None => !has_event_id(goals@, id),
        }),
{
    let mut i: usize = 0;
    while i < goals.len()
        invariant
            0 <= i <= goals@.len(),
            forall|j: int| 0 <= j < i ==> (#[trigger] goals@[j]).event_id != id,
        decreases goals@.len() - i,
    {
        if goals[i].event_id == id {
            let g = goals[i].duplicate();
            proof {
                assert(goals@[i as int].event_id == id);
                lemma_goal_with_id_is(goals@, i as int);
            }
            return Some(g);
        }
        i = i + 1;
    }
    None
}

/// The state one tracked game owns: identity, score, the known goal set,
/// the highlight ids already notified, the cached preview, and where it
/// stands in its lifecycle.
#[derive(Debug)]
pub struct Game {
    pub game_id: u64,
    pub game_type: String,
    pub date: i64,
    pub home_team: Team,
    pub away_team: Team,
    pub score: GameScore,
    pub goals: Vec<Goal>,
    pub highlights_notified: Vec<u32>,
    pub subscriptions: Vec<String>,
    pub preview: Option<String>,
    pub status: GameStatus,
    pub earliest_notification: u32,
}

/// No highlight id is recorded twice.
pub open spec fn unique_u32s(s: Seq<u32>) -> bool {
    forall|i: int, j: int| 0 <= i < j < s.len() ==> s[i] != s[j]
}

/// The fields no tick ever changes: a game's identity.
pub open spec fn same_identity(a: Game, b: Game) -> bool {
    &&& a.game_id == b.game_id
    &&& a.game_type == b.game_type
    &&& a.date == b.date
    &&& a.home_team == b.home_team
    &&& a.away_team == b.away_team
    &&& a.subscriptions == b.subscriptions
    &&& a.earliest_notification == b.earliest_notification
}

impl Game {
    /// Well-formedness: the known goals never repeat an event id, the score
    /// tallies agree with the known goals side by side, and the
    /// notified-highlight set holds no duplicates.
    pub open spec fn wf(&self) -> bool {
        &&& unique_ids(self.goals@)
        &&& self.score.home as nat == home_goal_count(self.goals@, self.home_team.id)
        &&& self.score.away as nat == away_goal_count(self.goals@, self.home_team.id)
        &&& unique_u32s(self.highlights_notified@)
    }

    /// A fresh game: scheduled, scoreless, with nothing yet known or
    /// notified.
    pub fn new(
        game: crate::model::ScheduleGame,
        subscriptions: Vec<String>,
        home_team: Team,
        away_team: Team,
        earliest_notification: u32,
    ) -> (g: Game)
        ensures
            g.wf(),
            g.game_id == game.game_pk,
            g.game_type == game.game_type,
            g.date == game.date,
            g.home_team == home_team,
            g.away_team == away_team,
            g.score.home == 0 && g.score.away == 0,
            g.goals@.len() == 0,
            g.highlights_notified@.len() == 0,
            g.subscriptions == subscriptions,
            g.preview is None,
            g.status is Scheduled,
            g.earliest_notification == earliest_notification,
    {
        Game {
            game_id: game.game_pk,
            game_type: game.game_type,
            date: game.date,
            home_team,
            away_team,
            score: GameScore::new(),
            goals: Vec::new(),
            highlights_notified: Vec::new(),
            subscriptions,
            preview: None,
            status: GameStatus::Scheduled,
            earliest_notification,
        }
    }

    /// Length in seconds of the period a record places a goal in, for this
    /// game's type.
    fn period_length(&self, ordinal_num: &String) -> (r: u32)
        ensures
            r == spec_period_length(self.game_type@, ordinal_num@),
            r <= 1200,
    {
        if str_eq(self.game_type.as_str(), "P") {
            1200
        } else if str_eq(ordinal_num.as_str(), "OT") {
            300
        } else if str_eq(ordinal_num.as_str(), "SO") {
            0
        } else {
            1200
        }
    }

    /// Reads one poll's milestone list into the candidate goal set.
    /// Records that are not goals, and goal records with a malformed event
    /// id, team id or elapsed time, are dropped.
    pub fn parse_goals(&self, milestone_items: &Vec<MilestoneItem>) -> (goals: Vec<Goal>)
        ensures
            goals@ == parsed_goals(milestone_items@, self.game_type@),
            unique_ids(goals@),
            goals@.len() <= milestone_items@.len(),
    {
        proof {
            lemma_parsed_goals_props(milestone_items@, self.game_type@);
        }
        let mut goals: Vec<Goal> = Vec::new();
        let mut i: usize = 0;
        while i < milestone_items.len()
            invariant
                0 <= i <= milestone_items@.len(),
                goals@ == parsed_goals(milestone_items@.take(i as int), self.game_type@),
                unique_ids(goals@),
            decreases milestone_items@.len() - i,
        {
            proof {
                assert(milestone_items@.take(i + 1).drop_last() =~= milestone_items@.take(i as int));
                assert(milestone_items@.take(i + 1).last() == milestone_items@[i as int]);
            }
            let item = &milestone_items[i];
            if str_eq(item.item_type.as_str(), "GOAL") {
                let event_id = parse_u32(item.stats_event_id.as_str());
                let team_id = parse_u32(item.team_id.as_str());
                let elapsed = parse_mmss(item.period_time.as_str());
                match (event_id, team_id, elapsed) {
                    (Some(event_id), Some(team_id), Some(elapsed)) => {
                        let period_len = self.period_length(&item.ordinal_num);
                        let remaining = time_remaining(period_len, elapsed);
                        let highlight = match &item.highlight {
                            Some(h) => Some(
                                GoalHighlight {
                                    description: h.description.clone(),
                                    clip_url: select_clip_url(&h.playbacks),
                                },
                            ),
                            None => None,
                        };
                        let goal = Goal {
                            event_id,
                            team_id,
                            description: item.description.clone(),
                            ordinal_num: item.ordinal_num.clone(),
                            period_time: remaining,
                            highlight,
                        };
                        proof {
                            assert(goal == goal_of_item(
                                milestone_items@[i as int],
                                self.game_type@,
                            ));
                        }
                        upsert_goal_vec(&mut goals, goal);
                    },
                    _ => {
                        proof {
                            assert(!goal_fields_ok(milestone_items@[i as int]));
                        }
                    },
                }
            }
            i = i + 1;
        }
        proof {
            assert(milestone_items@.take(milestone_items@.len() as int) =~= milestone_items@);
        }
        goals
    }
}

/// What a goal notification says: the scoring side's name, the period
/// clock and label, the running score with each side's abbreviation, and
/// the goal's description.
pub open spec fn spec_goal_message(home: Team, away: Team, score: GameScore, g: Goal) -> Seq<
    char,
> {
    (if g.team_id == home.id {
        home.team_name@
    } else {
        away.team_name@
    }) + " score\n\n"@ + mmss_text(g.period_time as nat) + " "@ + g.ordinal_num@ + ", "@
        + home.abbreviation@ + " "@ + dec_digits(score.home as nat) + " - "@ + away.abbreviation@
        + " "@ + dec_digits(score.away as nat) + "\n\n"@ + g.description@
}

impl Game {
    /// Credits a goal to its side: the home side when the scoring team is
    /// the home team, the away side for any other team.
    fn add_goal_score(&mut self, goal: &Goal)
        requires
            goal.team_id == old(self).home_team.id ==> old(self).score.home < 255,
            goal.team_id != old(self).home_team.id ==> old(self).score.away < 255,
        ensures
            same_identity(*old(self), *final(self)),
            final(self).status == old(self).status,
            final(self).preview == old(self).preview,
            final(self).highlights_notified == old(self).highlights_notified,
            final(self).goals == old(self).goals,
            goal.team_id == old(self).home_team.id ==> final(self).score.home == old(self).score.home + 1
                && final(self).score.away == old(self).score.away,
            goal.team_id != old(self).home_team.id ==> final(self).score.away == old(self).score.away + 1
                && final(self).score.home == old(self).score.home,
    {
        let scoring_team = goal.team_id;
        if scoring_team == self.home_team.id {
            self.score.home = self.score.home + 1;
        } else {
            self.score.away = self.score.away + 1;
        }
    }

    /// Takes a retracted goal back off its side's tally.
    fn deduct_goal_score(&mut self, goal: &Goal)
        requires
            goal.team_id == old(self).home_team.id ==> old(self).score.home > 0,
            goal.team_id != old(self).home_team.id ==> old(self).score.away > 0,
        ensures
            same_identity(*old(self), *final(self)),
            final(self).status == old(self).status,
            final(self).preview == old(self).preview,
            final(self).highlights_notified == old(self).highlights_notified,
            final(self).goals == old(self).goals,
            goal.team_id == old(self).home_team.id ==> final(self).score.home == old(self).score.home - 1
                && final(self).score.away == old(self).score.away,
            goal.team_id != old(self).home_team.id ==> final(self).score.away == old(self).score.away - 1
                && final(self).score.home == old(self).score.home,
    {
        let scoring_team = goal.team_id;
        if scoring_team == self.home_team.id {
            self.score.home = self.score.home - 1;
        } else {
            self.score.away = self.score.away - 1;
        }
    }

    /// Composes the goal notification for one goal at the current score.
    fn goal_message(&self, goal: &Goal) -> (r: String)
        ensures
            r@ == spec_goal_message(self.home_team, self.away_team, self.score, *goal),
    {
        let mut m = if goal.team_id == self.home_team.id {
            self.home_team.team_name.clone()
        } else {
            self.away_team.team_name.clone()
        };
        m.append(" score\n\n");
        let t = format_mmss(goal.period_time);
        m.append(t.as_str());
        m.append(" ");
        m.append(goal.ordinal_num.as_str());
        m.append(", ");
        m.append(self.home_team.abbreviation.as_str());
        m.append(" ");
        let hs = u32_to_string(self.score.home as u32);
        m.append(hs.as_str());
        m.append(" - ");
        m.append(self.away_team.abbreviation.as_str());
        m.append(" ");
        let aws = u32_to_string(self.score.away as u32);
        m.append(aws.as_str());
        m.append("\n\n");
        m.append(goal.description.as_str());
        proof {
            assert(m@ =~= spec_goal_message(self.home_team, self.away_team, self.score, *goal));
        }
        m
    }

    /// One poll's goal diff. New event ids score for their side and get a
    /// notification composed at the running score. An event id the poll
    /// still lists stays, its stored record superseded by the poll's
    /// record — should the record now name the other team, the goal's
    /// tally moves with it. A known event id the poll no longer lists is
    /// retracted: its side's tally drops and the goal leaves the known
    /// set, with no notification; a poll that lists no goals retracts
    /// every known goal. Returns the goal notifications to send, in
    /// candidate order.
    #[verifier::loop_isolation(false)]
    pub fn process_goals(&mut self, goals: &Vec<Goal>) -> (msgs: Vec<String>)
        requires
            old(self).wf(),
            unique_ids(goals@),
            old(self).goals@.len() + goals@.len() <= 255,
        ensures
            final(self).wf(),
            same_identity(*old(self), *final(self)),
            final(self).status == old(self).status,
            final(self).preview == old(self).preview,
            final(self).highlights_notified == old(self).highlights_notified,
            final(self).goals@ == superseded_goals(old(self).goals@, goals@) + added_goals(
                old(self).goals@,
                goals@,
            ),
            msgs@.len() == added_goals(old(self).goals@, goals@).len(),
            forall|k: int|
                0 <= k < msgs@.len() ==> (#[trigger] msgs@[k])@ == spec_goal_message(
                    old(self).home_team,
                    old(self).away_team,
                    score_of(
                        old(self).goals@ + added_goals(old(self).goals@, goals@).take(k + 1),
                        old(self).home_team.id,
                    ),
                    added_goals(old(self).goals@, goals@)[k],
                ),
    {
        let ghost known0 = old(self).goals@;
        let ghost cands = goals@;
        let ghost home_id = old(self).home_team.id;
        let mut msgs: Vec<String> = Vec::new();
        proof {
            lemma_added_elements(known0, cands);
        }
        let ghost added = added_goals(known0, cands);

        // Additions: score, compose the notification, then commit the goal
        // to the known set.
        let mut i: usize = 0;
        while i < goals.len()
            invariant
                0 <= i <= cands.len(),
                same_identity(*old(self), *self),
                self.status == old(self).status,
                self.preview == old(self).preview,
                self.highlights_notified == old(self).highlights_notified,
                self.goals@ == known0 + added_goals(known0, cands.take(i as int)),
                unique_ids(self.goals@),
                self.score.home as nat == home_goal_count(self.goals@, home_id),
                self.score.away as nat == away_goal_count(self.goals@, home_id),
                msgs@.len() == added_goals(known0, cands.take(i as int)).len(),
                forall|k: int|
                    0 <= k < msgs@.len() ==> (#[trigger] msgs@[k])@ == spec_goal_message(
                        old(self).home_team,
                        old(self).away_team,
                        score_of(
                            known0 + added_goals(known0, cands.take(i as int)).take(k + 1),
                            home_id,
                        ),
                        added_goals(known0, cands.take(i as int))[k],
                    ),
            decreases cands.len() - i,
        {
            let ghost added_i = added_goals(known0, cands.take(i as int));
            proof {
                assert(cands.take(i + 1).drop_last() =~= cands.take(i as int));
                assert(cands.take(i + 1).last() == cands[i as int]);
                lemma_added_elements(known0, cands.take(i as int));
                lemma_has_id_concat(known0, added_i, cands[i as int].event_id);
                if has_event_id(added_i, cands[i as int].event_id) {
                    let w = choose|w: int|
                        0 <= w < added_i.len() && (#[trigger] added_i[w]).event_id
                            == cands[i as int].event_id;
                    let v = choose|v: int|
                        0 <= v < cands.take(i as int).len() && (#[trigger] cands.take(i as int)[v]).event_id == added_i[w].event_id;
                    assert(cands[v].event_id == cands[i as int].event_id);
                    assert(false);
                }
            }
            let c = &goals[i];
            if !contains_event_id(&self.goals, c.event_id) {
                proof {
                    lemma_goal_counts_sum(self.goals@, home_id);
                    assert(self.goals@.len() <= known0.len() + i);
                }
                let goal = c.duplicate();
                self.add_goal_score(&goal);
                let msg = self.goal_message(&goal);
                msgs.push(msg);
                self.goals.push(goal);
                proof {
                    let added_n = added_goals(known0, cands.take(i + 1));
                    assert(added_n == added_i.push(cands[i as int]));
                    assert(self.goals@ =~= known0 + added_n);
                    assert((self.goals@).drop_last() =~= known0 + added_i);
                    assert((self.goals@).last() == cands[i as int]);
                    assert(self.score.home as nat == home_goal_count(self.goals@, home_id));
                    assert(self.score.away as nat == away_goal_count(self.goals@, home_id));
                    assert(unique_ids(self.goals@)) by {
                        lemma_has_id_concat(known0, added_i, cands[i as int].event_id);
                        assert forall|a: int, b: int| 0 <= a < b < self.goals@.len() implies (
                        #[trigger] self.goals@[a]).event_id != (#[trigger] self.goals@[b]).event_id by {
                            if b == self.goals@.len() - 1 {
                                assert(self.goals@[b] == cands[i as int]);
                                assert(!has_event_id(known0 + added_i, cands[i as int].event_id));
                                assert((known0 + added_i)[a] == self.goals@[a]);
                            }
                        }
                    }
                    assert forall|k: int| 0 <= k < msgs@.len() implies (#[trigger] msgs@[k])@
                        == spec_goal_message(
                        old(self).home_team,
                        old(self).away_team,
                        score_of(known0 + added_n.take(k + 1), home_id),
                        added_n[k],
                    ) by {
                        if k < msgs@.len() - 1 {
                            assert(added_n.take(k + 1) =~= added_i.take(k + 1));
                            assert(added_n[k] == added_i[k]);
                        } else {
                            assert(added_n.take(k + 1) =~= added_n);
                            assert(added_n[k] == cands[i as int]);
                            assert(score_of(known0 + added_n, home_id) == self.score);
                        }
                    }
                }
            } else {
                proof {
                    assert(added_goals(known0, cands.take(i + 1)) == added_i);
                }
            }
            i = i + 1;
        }
        proof {
            assert(cands.take(cands.len() as int) =~= cands);
        }

        // Retraction and supersession: a known goal whose event id the poll
        // no longer lists comes off its side's tally and leaves the known
        // set; one the poll still lists is replaced by the poll's record,
        // its tally moving with the record's team.
        let ghost grown = self.goals@;
        let mut kept: Vec<Goal> = Vec::new();
        proof {
            assert(grown.skip(0) =~= grown);
            assert(kept@ + grown.skip(0) =~= grown);
            assert(grown.take(0) =~= Seq::<Goal>::empty());
            assert(grown.len() <= 255);
        }
        let mut j: usize = 0;
        while j < self.goals.len()
            invariant
                0 <= j <= grown.len(),
                kept@.len() <= j,
                same_identity(*old(self), *self),
                self.status == old(self).status,
                self.preview == old(self).preview,
                self.highlights_notified == old(self).highlights_notified,
                self.goals@ == grown,
                kept@ == superseded_goals(grown.take(j as int), cands),
                self.score.home as nat == home_goal_count(kept@ + grown.skip(j as int), home_id),
                self.score.away as nat == away_goal_count(kept@ + grown.skip(j as int), home_id),
                msgs@.len() == added.len(),
                forall|k: int|
                    0 <= k < msgs@.len() ==> (#[trigger] msgs@[k])@ == spec_goal_message(
                        old(self).home_team,
                        old(self).away_team,
                        score_of(known0 + added.take(k + 1), home_id),
                        added[k],
                    ),
            decreases grown.len() - j,
        {
            proof {
                assert(grown.take(j + 1).drop_last() =~= grown.take(j as int));
                assert(grown.take(j + 1).last() == grown[j as int]);
                lemma_count_concat(kept@, grown.skip(j as int), home_id);
                lemma_count_skip_step(grown, j as int, home_id);
            }
            let stored = self.goals[j].duplicate();
            let ghost kept0 = kept@;
            match find_goal_with_id(goals, stored.event_id) {
                Some(candidate) => {
                    proof {
                        lemma_goal_counts_sum(kept0 + grown.skip(j as int), home_id);
                        assert((kept0 + grown.skip(j as int)).len() <= 255);
                    }
                    self.deduct_goal_score(&stored);
                    self.add_goal_score(&candidate);
                    kept.push(candidate);
                    proof {
                        assert(kept@ =~= superseded_goals(grown.take(j as int), cands).push(
                            goal_with_id(cands, grown[j as int].event_id),
                        ));
                        assert(kept@ == kept0.push(candidate));
                        lemma_count_push(kept0, candidate, home_id);
                        lemma_count_concat(kept@, grown.skip(j + 1), home_id);
                    }
                },
                None => {
                    self.deduct_goal_score(&stored);
                    proof {
                        lemma_count_concat(kept@, grown.skip(j + 1), home_id);
                    }
                },
            }
            j = j + 1;
        }
        proof {
            assert(grown.take(grown.len() as int) =~= grown);
            assert(grown.skip(grown.len() as int) =~= Seq::<Goal>::empty());
            assert(kept@ + grown.skip(grown.len() as int) =~= kept@);
            lemma_superseded_concat(known0, added, cands);
            lemma_added_elements(known0, cands);
            assert forall|k: int| 0 <= k < added.len() implies has_event_id(
                cands,
                (#[trigger] added[k]).event_id,
            ) && goal_with_id(cands, added[k].event_id) == added[k] by {
                assert(cands.contains(added[k]));
                let c = choose|c: int| 0 <= c < cands.len() && cands[c] == added[k];
                lemma_goal_with_id_is(cands, c);
            }
            lemma_superseded_all(added, cands);
            lemma_superseded_elements(known0, cands);
            lemma_superseded_elements(grown, cands);
        }
        self.goals = kept;
        proof {
            assert(unique_ids(grown)) by {
                assert(grown == known0 + added_goals(known0, cands.take(cands.len() as int)));
            }
        }
        msgs
    }
}

/// Whether the list records this value already.
fn contains_u32(xs: &Vec<u32>, x: u32) -> (r: bool)
    ensures
        r == xs@.contains(x),
{
    let mut i: usize = 0;
    while i < xs.len()
        invariant
            0 <= i <= xs@.len(),
            forall|j: int| 0 <= j < i ==> xs@[j] != x,
        decreases xs@.len() - i,
    {
        if xs[i] == x {
            assert(xs@[i as int] == x);
            return true;
        }
        i = i + 1;
    }
    false
}

/// What a highlight notification says: the highlight's description and
/// the clip's URL.
pub open spec fn spec_highlight_message(description: Seq<char>, url: Seq<char>) -> Seq<char> {
    "Highlight\n\n"@ + description + "\n\n"@ + url
}

fn highlight_message(description: &String, url: &String) -> (r: String)
    ensures
        r@ == spec_highlight_message(description@, url@),
{
    let mut m = "Highlight\n\n".to_owned();
    m.append(description.as_str());
    m.append("\n\n");
    m.append(url.as_str());
    proof {
        assert(m@ =~= spec_highlight_message(description@, url@));
    }
    m
}

/// One poll's highlight pass over the candidate goals, in order. A goal
/// whose highlight id was notified before is skipped. One with a fresh id
/// and a clip is notified and its id recorded. One with a fresh id but no
/// clip yet cannot be notified: its id stays unrecorded — the next poll
/// retries it — and the pass goes on to the remaining goals. Yields the
/// notified-id list afterwards and the messages.
pub open spec fn spec_process_highlights(cands: Seq<Goal>, notified: Seq<u32>) -> (Seq<u32>, Seq<
    Seq<char>,
>)
    decreases cands.len(),
{
    if cands.len() == 0 {
        (notified, Seq::empty())
    } else {
        let g = cands[0];
        let rest = cands.drop_first();
        match g.highlight {
            None => spec_process_highlights(rest, notified),
            Some(h) => {
                if notified.contains(g.event_id) {
                    spec_process_highlights(rest, notified)
                } else {
                    match h.clip_url {
                        None => spec_process_highlights(rest, notified),
                        Some(url) => {
                            let r = spec_process_highlights(rest, notified.push(g.event_id));
                            (r.0, seq![spec_highlight_message(h.description@, url@)] + r.1)
                        },
                    }
                }
            },
        }
    }
}

/// The highlight pass only appends to the notified-id list, appends only
/// ids it did not hold and that the poll's goals carry, and keeps the
/// list duplicate-free.
pub proof fn lemma_highlights_grow(cands: Seq<Goal>, notified: Seq<u32>)
    ensures
        ({
            let r = spec_process_highlights(cands, notified);
            &&& notified.len() <= r.0.len()
            &&& r.0.take(notified.len() as int) == notified
            &&& forall|k: int|
                notified.len() <= k < r.0.len() ==> !notified.contains(#[trigger] r.0[k])
            &&& forall|k: int|
                notified.len() <= k < r.0.len() ==> has_event_id(cands, #[trigger] r.0[k])
            &&& (unique_u32s(notified) ==> unique_u32s(r.0))
        }),
    decreases cands.len(),
{
    let r = spec_process_highlights(cands, notified);
    if cands.len() == 0 {
        assert(r.0.take(notified.len() as int) =~= notified);
    } else {
        let g = cands[0];
        let rest = cands.drop_first();
        assert(forall|j: int| 0 <= j < rest.len() ==> rest[j] == cands[j + 1]);
        assert forall|id: u32| #[trigger] has_event_id(rest, id) implies has_event_id(
            cands,
            id,
        ) by {
            let w = choose|w: int| 0 <= w < rest.len() && (#[trigger] rest[w]).event_id == id;
            assert(cands[w + 1].event_id == id);
        }
        match g.highlight {
            None => {
                lemma_highlights_grow(rest, notified);
            },
            Some(h) => {
                if notified.contains(g.event_id) {
                    lemma_highlights_grow(rest, notified);
                } else {
                    match h.clip_url {
                        None => {
                            lemma_highlights_grow(rest, notified);
                        },
                        Some(url) => {
                            let n1 = notified.push(g.event_id);
                            lemma_highlights_grow(rest, n1);
                            assert(r.0.take(n1.len() as int) == n1);
                            assert(has_event_id(cands, g.event_id)) by {
                                assert(cands[0].event_id == g.event_id);
                            }
                            assert forall|k: int|
                                notified.len() <= k < r.0.len() implies has_event_id(
                                cands,
                                #[trigger] r.0[k],
                            ) by {
                                if k == notified.len() {
                                    assert(r.0[k] == n1[notified.len() as int]);
                                } else {
                                    assert(has_event_id(rest, r.0[k]));
                                }
                            }
                            assert(r.0.take(notified.len() as int) =~= notified) by {
                                assert(forall|k: int|
                                    0 <= k < notified.len() ==> r.0.take(n1.len() as int)[k]
                                        == r.0[k]);
                            }
                            assert forall|k: int|
                                notified.len() <= k < r.0.len() implies !notified.contains(
                                #[trigger] r.0[k]) by {
                                if k == notified.len() {
                                    assert(r.0[k] == n1[notified.len() as int]);
                                    assert(r.0[k] == g.event_id);
                                } else {
                                    assert(!n1.contains(r.0[k]));
                                    if notified.contains(r.0[k]) {
                                        let w = choose|w: int|
                                            0 <= w < notified.len() && notified[w] == r.0[k];
                                        assert(n1[w] == notified[w]);
                                    }
                                }
                            }
                            if unique_u32s(notified) {
                                assert(unique_u32s(n1)) by {
                                    assert forall|a: int, b: int|
                                        0 <= a < b < n1.len() implies n1[a] != n1[b] by {
                                        if b == n1.len() - 1 {
                                            assert(n1[a] == notified[a]);
                                            if notified[a] == g.event_id {
                                                assert(notified.contains(g.event_id));
                                            }
                                        }
                                    }
                                }
                            }
                        },
                    }
                }
            },
        }
    }
}

/// A highlight id that is on the notified list is never notified again:
/// no later pass appends it a second time.
pub proof fn lemma_highlight_notified_once(cands: Seq<Goal>, notified: Seq<u32>, id: u32)
    requires
        notified.contains(id),
    ensures
        forall|k: int|
            notified.len() <= k < spec_process_highlights(cands, notified).0.len()
                ==> spec_process_highlights(cands, notified).0[k] != id,
{
    lemma_highlights_grow(cands, notified);
}

/// A fresh highlight that cannot be notified — its goal offers no clip —
/// is left off the notified list by the whole pass, so the next poll may
/// retry it.
pub proof fn lemma_failed_highlight_retryable(cands: Seq<Goal>, notified: Seq<u32>, k: int)
    requires
        unique_ids(cands),
        0 <= k < cands.len(),
        cands[k].highlight matches Some(h) && h.clip_url is None,
        !notified.contains(cands[k].event_id),
    ensures
        !spec_process_highlights(cands, notified).0.contains(cands[k].event_id),
    decreases cands.len(),
{
    let r = spec_process_highlights(cands, notified);
    let g = cands[0];
    let rest = cands.drop_first();
    let id = cands[k].event_id;
    assert(forall|j: int| 0 <= j < rest.len() ==> rest[j] == cands[j + 1]);
    assert(unique_ids(rest));
    if k == 0 {
        // The pass skips this goal without marking it; anything marked
        // afterwards carries another goal's id.
        lemma_highlights_grow(rest, notified);
        assert(!has_event_id(rest, id)) by {
            if has_event_id(rest, id) {
                let w = choose|w: int| 0 <= w < rest.len() && (#[trigger] rest[w]).event_id == id;
                assert(cands[w + 1].event_id == id);
            }
        }
        assert(r == spec_process_highlights(rest, notified));
        assert(!r.0.contains(id)) by {
            if r.0.contains(id) {
                let w = choose|w: int| 0 <= w < r.0.len() && r.0[w] == id;
                if w < notified.len() {
                    assert(r.0.take(notified.len() as int)[w] == id);
                    assert(notified[w] == id);
                } else {
                    assert(has_event_id(rest, r.0[w]));
                }
            }
        }
    } else {
        assert(rest[k - 1] == cands[k]);
        match g.highlight {
            None => {
                lemma_failed_highlight_retryable(rest, notified, k - 1);
            },
            Some(h) => {
                if notified.contains(g.event_id) {
                    lemma_failed_highlight_retryable(rest, notified, k - 1);
                } else {
                    match h.clip_url {
                        None => {
                            lemma_failed_highlight_retryable(rest, notified, k - 1);
                        },
                        Some(url) => {
                            let n1 = notified.push(g.event_id);
                            assert(!n1.contains(id)) by {
                                assert(g.event_id != id);
                                if n1.contains(id) {
                                    let w = choose|w: int| 0 <= w < n1.len() && n1[w] == id;
                                    if w < notified.len() {
                                        assert(notified[w] == id);
                                    }
                                }
                            }
                            lemma_failed_highlight_retryable(rest, n1, k - 1);
                        },
                    }
                }
            },
        }
    }
}

impl Game {
    fn process_highlights_from(&mut self, goals: &Vec<Goal>, i: usize) -> (msgs: Vec<String>)
        requires
            i <= goals@.len(),
        ensures
            same_identity(*old(self), *final(self)),
            final(self).status == old(self).status,
            final(self).preview == old(self).preview,
            final(self).goals == old(self).goals,
            final(self).score == old(self).score,
            ({
                let r = spec_process_highlights(
                    goals@.skip(i as int),
                    old(self).highlights_notified@,
                );
                final(self).highlights_notified@ == r.0 && msgs.deep_view() == r.1
            }),
        decreases goals@.len() - i,
    {
        if i >= goals.len() {
            proof {
                assert(goals@.skip(i as int) =~= Seq::<Goal>::empty());
            }
            let msgs: Vec<String> = Vec::new();
            proof {
                assert(msgs.deep_view() =~= Seq::<Seq<char>>::empty());
            }
            return msgs;
        }
        proof {
            assert(goals@.skip(i as int).drop_first() =~= goals@.skip(i + 1));
            assert(goals@.skip(i as int)[0] == goals@[i as int]);
        }
        let g = &goals[i];
        match &g.highlight {
            None => self.process_highlights_from(goals, i + 1),
            Some(h) => {
                if contains_u32(&self.highlights_notified, g.event_id) {
                    self.process_highlights_from(goals, i + 1)
                } else {
                    match &h.clip_url {
                        None => self.process_highlights_from(goals, i + 1),
                        Some(url) => {
                            let msg = highlight_message(&h.description, url);
                            self.highlights_notified.push(g.event_id);
                            let mut msgs = self.process_highlights_from(goals, i + 1);
                            let ghost rec_view = msgs@;
                            let ghost rec_deep = msgs.deep_view();
                            msgs.insert(0, msg);
                            proof {
                                let r = spec_process_highlights(
                                    goals@.skip(i as int),
                                    old(self).highlights_notified@,
                                );
                                assert(msgs@ == rec_view.insert(0, msg));
                                assert(msgs.deep_view() =~= r.1) by {
                                    assert(msgs@.len() == rec_view.len() + 1);
                                    assert(msgs@[0] == msg);
                                    assert forall|k: int|
                                        0 <= k < msgs.deep_view().len() implies msgs.deep_view()[k]
                                        == r.1[k] by {
                                        assert(msgs.deep_view()[k] == msgs@[k]@);
                                        if k == 0 {
                                            assert(msgs@[0] == msg);
                                        } else {
                                            assert(msgs@[k] == rec_view[k - 1]);
                                            assert(rec_deep[k - 1] == rec_view[k - 1]@);
                                            assert(rec_deep[k - 1] == r.1[k]);
                                        }
                                    }
                                }
                            }
                            msgs
                        },
                    }
                }
            },
        }
    }

    /// One poll's highlight pass: sends at most one notification per
    /// highlight id over the game's whole life. Every candidate goal with
    /// a not-yet-notified highlight is attempted: one with a clip gets a
    /// notification composed and its id recorded; one whose highlight
    /// offers no clip yet stays unrecorded, to be retried next poll, and
    /// the pass goes on. Returns the highlight notifications to send, in
    /// candidate order.
    pub fn process_highlights(&mut self, goals: &Vec<Goal>) -> (msgs: Vec<String>)
        requires
            old(self).wf(),
        ensures
            final(self).wf(),
            same_identity(*old(self), *final(self)),
            final(self).status == old(self).status,
            final(self).preview == old(self).preview,
            final(self).goals == old(self).goals,
            final(self).score == old(self).score,
            ({
                let r = spec_process_highlights(goals@, old(self).highlights_notified@);
                final(self).highlights_notified@ == r.0 && msgs.deep_view() == r.1
            }),
            final(self).highlights_notified@.take(old(self).highlights_notified@.len() as int)
                == old(self).highlights_notified@,
    {
        proof {
            assert(goals@.skip(0) =~= goals@);
            lemma_highlights_grow(goals@, old(self).highlights_notified@);
        }
        self.process_highlights_from(goals, 0)
    }
}

/// What one live tick asks the runtime to send: the goal notifications,
/// then the highlight notifications, each in candidate order.
#[derive(Debug)]
pub struct LiveTick {
    pub goal_messages: Vec<String>,
    pub highlight_messages: Vec<String>,
}

/// What a scheduled tick asks the runtime to do next.
#[derive(Clone, Copy, PartialEq, Eq, Structural, Debug)]
pub enum ScheduledAction {
    Wait,
    FetchPreview,
    CheckStreamStart,
}

/// Why a tick's input yields no work.
#[derive(Debug)]
pub enum GameError {
    PreviewNotAvailable,
    NoMilestoneItems,
}

impl GameError {
    pub fn message(&self) -> (r: &'static str)
        ensures
            (match self {
                GameError::PreviewNotAvailable => r@ == "Preview not available"@,
                GameError::NoMilestoneItems => r@ == "No milestone items yet"@,
            }),
    {
        match self {
            GameError::PreviewNotAvailable => "Preview not available",
            GameError::NoMilestoneItems => "No milestone items yet",
        }
    }
}

/// A fetched milestone list, or the error a poll without one reports.
pub fn milestone_items_or_error(items: Option<Vec<MilestoneItem>>) -> (r: Result<
    Vec<MilestoneItem>,
    GameError,
>)
    ensures
        (match items {
            Some(v) => r == Ok::<Vec<MilestoneItem>, GameError>(v),
            None => r == Err::<Vec<MilestoneItem>, GameError>(GameError::NoMilestoneItems),
        }),
{
    match items {
        Some(v) => Ok(v),
        None => Err(GameError::NoMilestoneItems),
    }
}

/// The cached preview's subhead; empty until a preview is cached.
pub open spec fn spec_subhead(g: Game) -> Seq<char> {
    match g.preview {
        Some(s) => s@,
        None => Seq::empty(),
    }
}

/// What the preview notification says: the matchup, the local start time,
/// and the preview's subhead.
pub open spec fn spec_preview_message(g: Game, local_time: Seq<char>) -> Seq<char> {
    g.home_team.name@ + " @ "@ + g.away_team.name@ + " - "@ + local_time + "\n\n"@ + spec_subhead(
        g,
    )
}

/// The name of the side the final notification declares the winner: the
/// home team on a strictly greater score, otherwise the away team — so a
/// tied final is attributed to the away side, as the strict comparison
/// has always done.
pub open spec fn spec_winning_team_name(g: Game) -> Seq<char> {
    if g.score.home > g.score.away {
        g.home_team.team_name@
    } else {
        g.away_team.team_name@
    }
}

/// What the final notification says: the winner and the final score.
pub open spec fn spec_final_message(g: Game) -> Seq<char> {
    spec_winning_team_name(g) + " win\n\nFinal score: "@ + g.home_team.abbreviation@ + " "@
        + dec_digits(g.score.home as nat) + " - "@ + g.away_team.abbreviation@ + " "@ + dec_digits(
        g.score.away as nat,
    )
}

impl Game {
    /// Whether the poll carries the broadcast-end marker.
    pub fn check_end(&self, milestone_items: &Vec<MilestoneItem>) -> (r: bool)
        ensures
            r == has_end_marker(milestone_items@),
    {
        let mut i: usize = 0;
        while i < milestone_items.len()
            invariant
                0 <= i <= milestone_items@.len(),
                forall|j: int| 0 <= j < i ==> !is_end_marker(#[trigger] milestone_items@[j]),
            decreases milestone_items@.len() - i,
        {
            if str_eq(milestone_items[i].item_type.as_str(), "BROADCAST_END") {
                assert(is_end_marker(milestone_items@[i as int]));
                return true;
            }
            i = i + 1;
        }
        false
    }

    /// One live tick: parse the poll into candidates, apply the goal diff,
    /// run the highlight pass, and end the game on the broadcast-end
    /// marker — on the same tick, whatever else the tick did.
    pub fn run_live_game(&mut self, milestone_items: &Vec<MilestoneItem>) -> (tick: LiveTick)
        requires
            old(self).wf(),
            old(self).status is Live,
            old(self).goals@.len() + milestone_items@.len() <= 255,
        ensures
            final(self).wf(),
            same_identity(*old(self), *final(self)),
            final(self).preview == old(self).preview,
            final(self).status == (if has_end_marker(milestone_items@) {
                GameStatus::Ended
            } else {
                GameStatus::Live
            }),
            status_rank(old(self).status) <= status_rank(final(self).status),
            ({
                let cands = parsed_goals(milestone_items@, old(self).game_type@);
                &&& final(self).goals@ == superseded_goals(old(self).goals@, cands) + added_goals(
                    old(self).goals@,
                    cands,
                )
                &&& tick.goal_messages@.len() == added_goals(old(self).goals@, cands).len()
                &&& (forall|k: int|
                    0 <= k < tick.goal_messages@.len() ==> (#[trigger] tick.goal_messages@[k])@
                        == spec_goal_message(
                        old(self).home_team,
                        old(self).away_team,
                        score_of(
                            old(self).goals@ + added_goals(old(self).goals@, cands).take(k + 1),
                            old(self).home_team.id,
                        ),
                        added_goals(old(self).goals@, cands)[k],
                    ))
                &&& ({
                    let r = spec_process_highlights(cands, old(self).highlights_notified@);
                    final(self).highlights_notified@ == r.0 && tick.highlight_messages.deep_view()
                        == r.1
                })
            }),
    {
        let goals = self.parse_goals(milestone_items);
        let goal_messages = self.process_goals(&goals);
        let highlight_messages = self.process_highlights(&goals);
        if self.check_end(milestone_items) {
            self.status = GameStatus::Ended;
        }
        LiveTick { goal_messages, highlight_messages }
    }

    /// What a scheduled tick should do: wait until the earliest
    /// notification time, then fetch the preview until one is cached, then
    /// watch the feed for the stream start.
    pub fn scheduled_action(&self, before_notification_time: bool) -> (a: ScheduledAction)
        requires
            self.status is Scheduled,
        ensures
            a == (if before_notification_time {
                ScheduledAction::Wait
            } else if self.preview is None {
                ScheduledAction::FetchPreview
            } else {
                ScheduledAction::CheckStreamStart
            }),
    {
        if before_notification_time {
            ScheduledAction::Wait
        } else if self.preview.is_none() {
            ScheduledAction::FetchPreview
        } else {
            ScheduledAction::CheckStreamStart
        }
    }

    /// Caches the first fetched preview article's subhead; a fetch that
    /// brought no article is reported and changes nothing, to be retried
    /// next tick.
    pub fn apply_preview_items(&mut self, items: Option<Vec<String>>) -> (r: Result<
        (),
        GameError,
    >)
        ensures
            same_identity(*old(self), *final(self)),
            final(self).status == old(self).status,
            final(self).goals == old(self).goals,
            final(self).score == old(self).score,
            final(self).highlights_notified == old(self).highlights_notified,
            (match items {
                Some(v) => {
                    if v@.len() > 0 {
                        r is Ok && final(self).preview == Some(v@[0])
                    } else {
                        r == Err::<(), GameError>(GameError::PreviewNotAvailable) && final(self).preview == old(self).preview
                    }
                },
                None => r == Err::<(), GameError>(GameError::PreviewNotAvailable) && final(self).preview == old(self).preview,
            }),
    {
        match items {
            Some(mut v) => {
                if v.len() > 0 {
                    let first = v.remove(0);
                    self.preview = Some(first);
                    Ok(())
                } else {
                    Err(GameError::PreviewNotAvailable)
                }
            },
            None => Err(GameError::PreviewNotAvailable),
        }
    }

    /// The cached preview's subhead, or empty text when none is cached.
    pub fn subhead(&self) -> (r: String)
        ensures
            r@ == spec_subhead(*self),
    {
        match &self.preview {
            Some(s) => s.clone(),
            None => {
                proof {
                    reveal_strlit("");
                    assert(""@ =~= Seq::<char>::empty());
                }
                "".to_owned()
            },
        }
    }

    /// Composes the preview notification, given the start time already
    /// rendered in local wall-clock terms.
    pub fn preview_message(&self, local_time: &str) -> (r: String)
        ensures
            r@ == spec_preview_message(*self, local_time@),
    {
        let mut m = self.home_team.name.clone();
        m.append(" @ ");
        m.append(self.away_team.name.as_str());
        m.append(" - ");
        m.append(local_time);
        m.append("\n\n");
        let sh = self.subhead();
        m.append(sh.as_str());
        proof {
            assert(m@ =~= spec_preview_message(*self, local_time@));
        }
        m
    }

    /// Moves a scheduled game to live when the feed reports its stream
    /// started; otherwise it stays scheduled.
    pub fn observe_stream_start(&mut self, stream_start_present: bool)
        requires
            old(self).status is Scheduled,
        ensures
            same_identity(*old(self), *final(self)),
            final(self).preview == old(self).preview,
            final(self).goals == old(self).goals,
            final(self).score == old(self).score,
            final(self).highlights_notified == old(self).highlights_notified,
            final(self).status == (if stream_start_present {
                GameStatus::Live
            } else {
                GameStatus::Scheduled
            }),
            status_rank(old(self).status) <= status_rank(final(self).status),
    {
        if stream_start_present {
            self.status = GameStatus::Live;
        }
    }

    /// Composes the final-result notification once the game has ended.
    pub fn final_message(&self) -> (r: String)
        ensures
            r@ == spec_final_message(*self),
    {
        let mut m = if self.score.home > self.score.away {
            self.home_team.team_name.clone()
        } else {
            self.away_team.team_name.clone()
        };
        m.append(" win\n\nFinal score: ");
        m.append(self.home_team.abbreviation.as_str());
        m.append(" ");
        let hs = u32_to_string(self.score.home as u32);
        m.append(hs.as_str());
        m.append(" - ");
        m.append(self.away_team.abbreviation.as_str());
        m.append(" ");
        let aws = u32_to_string(self.score.away as u32);
        m.append(aws.as_str());
        proof {
            assert(m@ =~= spec_final_message(*self));
        }
        m
    }

    /// How long the runtime sleeps between ticks: ten minutes while
    /// scheduled, ten seconds while live; an ended game is not polled.
    pub fn poll_interval_secs(&self) -> (r: u64)
        ensures
            self.status is Scheduled ==> r == 600,
            self.status is Live ==> r == 10,
            self.status is Ended ==> r == 0,
    {
        match self.status {
            GameStatus::Scheduled => 600,
            GameStatus::Live => 10,
            GameStatus::Ended => 0,
        }
    }

    /// Whether the tick loop continues: polling stops for good once the
    /// game has ended.
    pub fn should_poll(&self) -> (r: bool)
        ensures
            r == !(self.status is Ended),
    {
        !(self.status == GameStatus::Ended)
    }
}

/// The score tallies always account exactly for the known goals: their
/// sum is the number of known goals, at every observation point.
pub proof fn lemma_score_accounts_for_goals(g: Game)
    requires
        g.wf(),
    ensures
        g.score.home + g.score.away == g.goals@.len(),
{
    lemma_goal_counts_sum(g.goals@, g.home_team.id);
}

/// A goal event id that is already known never re-notifies: no goal with
/// its id is among the added goals of any later poll, however often the
/// id reappears.
pub proof fn lemma_goal_notified_at_most_once(known: Seq<Goal>, cands: Seq<Goal>, id: u32)
    requires
        has_event_id(known, id),
    ensures
        forall|k: int|
            0 <= k < added_goals(known, cands).len() ==> (#[trigger] added_goals(known, cands)[
                k
            ]).event_id != id,
{
    lemma_added_elements(known, cands);
}

/// Across successive polls: an event id one poll listed is known once that
/// poll is processed, so the next poll's added goals — the ones that score
/// and notify — never carry it, however often it reappears.
pub proof fn lemma_goal_once_across_polls(
    known: Seq<Goal>,
    first_poll: Seq<Goal>,
    second_poll: Seq<Goal>,
    id: u32,
)
    requires
        has_event_id(first_poll, id),
    ensures
        ({
            let after_first = superseded_goals(known, first_poll) + added_goals(known, first_poll);
            forall|k: int|
                0 <= k < added_goals(after_first, second_poll).len() ==> (#[trigger] added_goals(
                    after_first,
                    second_poll,
                )[k]).event_id != id
        }),
{
    lemma_known_ids_after_process(known, first_poll);
    let after_first = superseded_goals(known, first_poll) + added_goals(known, first_poll);
    lemma_goal_notified_at_most_once(after_first, second_poll, id);
}

/// An event id the poll lists but the known set lacks is among the added
/// goals, so it scores and notifies — also when it was retracted earlier
/// and is now reintroduced.
pub proof fn lemma_reintroduced_goal_added(known: Seq<Goal>, cands: Seq<Goal>, id: u32)
    requires
        !has_event_id(known, id),
        has_event_id(cands, id),
    ensures
        has_event_id(added_goals(known, cands), id),
    decreases cands.len(),
{
    let added = added_goals(known, cands);
    let w = choose|w: int| 0 <= w < cands.len() && (#[trigger] cands[w]).event_id == id;
    if w == cands.len() - 1 {
        assert(cands.last().event_id == id);
        assert(added == added_goals(known, cands.drop_last()).push(cands.last()));
        assert(added[added.len() - 1].event_id == id);
    } else {
        assert(cands.drop_last()[w] == cands[w]);
        assert(has_event_id(cands.drop_last(), id));
        lemma_reintroduced_goal_added(known, cands.drop_last(), id);
        let rest = added_goals(known, cands.drop_last());
        let v = choose|v: int| 0 <= v < rest.len() && (#[trigger] rest[v]).event_id == id;
        assert(added[v].event_id == id);
    }
}

proof fn lemma_superseded_cover(known: Seq<Goal>, cands: Seq<Goal>, id: u32)
    requires
        has_event_id(known, id),
        has_event_id(cands, id),
    ensures
        has_event_id(superseded_goals(known, cands), id),
    decreases known.len(),
{
    let r = superseded_goals(known, cands);
    let w = choose|w: int| 0 <= w < known.len() && (#[trigger] known[w]).event_id == id;
    if w == known.len() - 1 {
        assert(known.last().event_id == id);
        lemma_goal_with_id_has(cands, id);
        assert(r == superseded_goals(known.drop_last(), cands).push(goal_with_id(cands, id)));
        assert(r[r.len() - 1].event_id == id);
    } else {
        assert(known.drop_last()[w] == known[w]);
        assert(has_event_id(known.drop_last(), id));
        lemma_superseded_cover(known.drop_last(), cands, id);
        let rest = superseded_goals(known.drop_last(), cands);
        let v = choose|v: int| 0 <= v < rest.len() && (#[trigger] rest[v]).event_id == id;
        if has_event_id(cands, known.last().event_id) {
            assert(r[v].event_id == id);
        }
    }
}

/// After a poll is processed, the known event ids are exactly the poll's
/// candidate ids: additions entered, retractions left, the rest stayed.
pub proof fn lemma_known_ids_after_process(known: Seq<Goal>, cands: Seq<Goal>)
    ensures
        forall|id: u32|
            #[trigger] has_event_id(superseded_goals(known, cands) + added_goals(known, cands), id)
                <==> has_event_id(cands, id),
{
    let ret = superseded_goals(known, cands);
    let added = added_goals(known, cands);
    lemma_superseded_elements(known, cands);
    lemma_added_elements(known, cands);
    assert forall|id: u32| #[trigger] has_event_id(ret + added, id) implies has_event_id(
        cands,
        id,
    ) by {
        lemma_has_id_concat(ret, added, id);
        if has_event_id(ret, id) {
            let w = choose|w: int| 0 <= w < ret.len() && (#[trigger] ret[w]).event_id == id;
            assert(has_event_id(cands, ret[w].event_id));
        } else {
            let w = choose|w: int| 0 <= w < added.len() && (#[trigger] added[w]).event_id == id;
            assert(has_event_id(cands, added[w].event_id));
        }
    }
    assert forall|id: u32| has_event_id(cands, id) implies #[trigger] has_event_id(
        ret + added,
        id,
    ) by {
        lemma_has_id_concat(ret, added, id);
        if has_event_id(known, id) {
            lemma_superseded_cover(known, cands, id);
        } else {
            lemma_reintroduced_goal_added(known, cands, id);
        }
    }
}

proof fn lemma_count_remove(s: Seq<Goal>, w: int, home_id: u32)
    requires
        0 <= w < s.len(),
    ensures
        home_goal_count(s.remove(w), home_id) == home_goal_count(s, home_id) - (if s[w].team_id
            == home_id {
            1nat
        } else {
            0nat
        }),
        away_goal_count(s.remove(w), home_id) == away_goal_count(s, home_id) - (if s[w].team_id
            == home_id {
            0nat
        } else {
            1nat
        }),
{
    assert(s =~= s.take(w) + s.skip(w));
    lemma_count_concat(s.take(w), s.skip(w), home_id);
    lemma_count_skip_step(s, w, home_id);
    assert(s.remove(w) =~= s.take(w) + s.skip(w + 1));
    lemma_count_concat(s.take(w), s.skip(w + 1), home_id);
}

/// A single retraction: when a poll still lists every known goal but one
/// — each with the record already stored — and adds none, the known set
/// shrinks by exactly the one goal and only its side's tally drops, by
/// exactly one.
pub proof fn lemma_single_retraction(known: Seq<Goal>, cands: Seq<Goal>, w: int)
    requires
        unique_ids(known),
        unique_ids(cands),
        0 <= w < known.len(),
        !has_event_id(cands, known[w].event_id),
        forall|k: int|
            0 <= k < known.len() && k != w ==> has_event_id(cands, (#[trigger] known[k]).event_id),
        forall|k: int| 0 <= k < cands.len() ==> known.contains(#[trigger] cands[k]),
    ensures
        superseded_goals(known, cands) + added_goals(known, cands) == known.remove(w),
        home_goal_count(superseded_goals(known, cands) + added_goals(known, cands), home_id_of(known, w))
            == home_goal_count(known, home_id_of(known, w)) - 1,
        away_goal_count(superseded_goals(known, cands) + added_goals(known, cands), home_id_of(known, w))
            == away_goal_count(known, home_id_of(known, w)),
    decreases known.len(),
{
    let ret = superseded_goals(known, cands);
    let added = added_goals(known, cands);
    lemma_added_elements(known, cands);
    assert(added =~= Seq::<Goal>::empty()) by {
        if added.len() > 0 {
            assert(has_event_id(cands, added[0].event_id));
            let v = choose|v: int|
                0 <= v < cands.len() && (#[trigger] cands[v]).event_id == added[0].event_id;
            assert(known.contains(cands[v]));
            let m = choose|m: int| 0 <= m < known.len() && known[m] == cands[v];
            assert(known[m].event_id == added[0].event_id);
            assert(has_event_id(known, added[0].event_id));
        }
    }
    assert(ret + added =~= ret);
    // The poll's record for each still-listed id is the stored goal
    // itself: it is some known goal with that id, and known ids are
    // unique.
    assert forall|k: int| 0 <= k < known.len() && k != w implies has_event_id(
        cands,
        (#[trigger] known[k]).event_id,
    ) && goal_with_id(cands, known[k].event_id) == known[k] by {
        let c = choose|c: int|
            0 <= c < cands.len() && (#[trigger] cands[c]).event_id == known[k].event_id;
        assert(known.contains(cands[c]));
        let m = choose|m: int| 0 <= m < known.len() && known[m] == cands[c];
        assert(known[m].event_id == known[k].event_id);
        assert(m == k);
        lemma_goal_with_id_is(cands, c);
    }
    assert(ret == known.remove(w)) by {
        lemma_retraction_shape(known, cands, w);
    }
    lemma_count_remove(known, w, home_id_of(known, w));
}

/// The team id of the goal at one position; the single-retraction law
/// speaks of the tally of that goal's own side.
pub open spec fn home_id_of(s: Seq<Goal>, w: int) -> u32 {
    s[w].team_id
}

proof fn lemma_retraction_shape(known: Seq<Goal>, cands: Seq<Goal>, w: int)
    requires
        0 <= w < known.len(),
        !has_event_id(cands, known[w].event_id),
        forall|k: int|
            0 <= k < known.len() && k != w ==> has_event_id(cands, (#[trigger] known[k]).event_id)
                && goal_with_id(cands, known[k].event_id) == known[k],
    ensures
        superseded_goals(known, cands) == known.remove(w),
    decreases known.len(),
{
    if w == known.len() - 1 {
        assert(superseded_goals(known, cands) == superseded_goals(known.drop_last(), cands));
        assert(forall|k: int|
            0 <= k < known.drop_last().len() ==> known.drop_last()[k] == known[k]);
        lemma_superseded_all(known.drop_last(), cands);
        assert(known.remove(w) =~= known.drop_last());
    } else {
        assert(forall|k: int|
            0 <= k < known.drop_last().len() ==> known.drop_last()[k] == known[k]);
        lemma_retraction_shape(known.drop_last(), cands, w);
        assert(known[known.len() - 1] == known.last());
        assert(has_event_id(cands, known.last().event_id));
        assert(goal_with_id(cands, known.last().event_id) == known.last());
        assert(superseded_goals(known, cands) == superseded_goals(known.drop_last(), cands).push(
            known.last(),
        ));
        assert(known.remove(w) =~= known.drop_last().remove(w).push(known.last()));
    }
}

/// A game pulled from the schedule for notification: the game and the
/// recipient numbers of both subscribed sides together.
#[derive(Debug)]
pub struct GameToNotify {
    pub game: ScheduleGame,
    pub numbers: Vec<String>,
}

/// The recipient numbers a scheduled game collects: the home side's
/// subscribers, then the away side's.
pub open spec fn spec_numbers_for(m: Map<u32, Vec<String>>, g: ScheduleGame) -> Seq<String> {
    (if m.contains_key(g.teams.home.detail.id) {
        m[g.teams.home.detail.id]@
    } else {
        Seq::empty()
    }) + (if m.contains_key(g.teams.away.detail.id) {
        m[g.teams.away.detail.id]@
    } else {
        Seq::empty()
    })
}

/// The subscribable games of a schedule, in order: those that collect at
/// least one recipient number, paired with their numbers.
pub open spec fn spec_games_to_notify(games: Seq<ScheduleGame>, m: Map<u32, Vec<String>>) -> Seq<
    (ScheduleGame, Seq<String>),
>
    decreases games.len(),
{
    if games.len() == 0 {
        Seq::empty()
    } else {
        let rest = spec_games_to_notify(games.drop_last(), m);
        let g = games.last();
        if spec_numbers_for(m, g).len() > 0 {
            rest.push((g, spec_numbers_for(m, g)))
        } else {
            rest
        }
    }
}

/// Appends a copy of each number.
#[verifier::loop_isolation(false)]
fn append_numbers(dst: &mut Vec<String>, src: &Vec<String>)
    ensures
        final(dst)@ == old(dst)@ + src@,
{
    proof {
        assert(old(dst)@ + src@.take(0) =~= old(dst)@);
    }
    let mut i: usize = 0;
    while i < src.len()
        invariant
            0 <= i <= src@.len(),
            dst@ == old(dst)@ + src@.take(i as int),
        decreases src@.len() - i,
    {
        dst.push(src[i].clone());
        proof {
            assert(dst@ =~= old(dst)@ + src@.take(i + 1));
        }
        i = i + 1;
    }
    proof {
        assert(src@.take(src@.len() as int) =~= src@);
    }
}

/// Filters a day's schedule to the games with a subscribed participant,
/// pairing each with the union of both sides' recipient numbers; a game
/// that collects no number is dropped.
#[verifier::loop_isolation(false)]
pub fn games_to_notify(games: Vec<ScheduleGame>, subscriptions: &HashMap<u32, Vec<String>>) -> (r:
    Vec<GameToNotify>)
    ensures
        ({
            let s = spec_games_to_notify(games@, subscriptions@);
            &&& r@.len() == s.len()
            &&& forall|k: int|
                0 <= k < r@.len() ==> (#[trigger] r@[k]).game == s[k].0 && r@[k].numbers@ == s[k].1
        }),
{
    let ghost games0 = games@;
    let ghost m = subscriptions@;
    let total = games.len();
    let mut remaining = games;
    let mut out: Vec<GameToNotify> = Vec::new();
    let mut i: usize = 0;
    proof {
        assert(remaining@ =~= games0.skip(0));
        assert(games0.take(0) =~= Seq::<ScheduleGame>::empty());
    }
    while remaining.len() > 0
        invariant
            0 <= i <= games0.len(),
            games0.len() == total,
            remaining@ == games0.skip(i as int),
            ({
                let s = spec_games_to_notify(games0.take(i as int), m);
                &&& out@.len() == s.len()
                &&& forall|k: int|
                    0 <= k < out@.len() ==> (#[trigger] out@[k]).game == s[k].0
                        && out@[k].numbers@ == s[k].1
            }),
        decreases remaining@.len(),
    {
        proof {
            assert(games0.skip(i as int).len() == games0.len() - i);
            assert(i < games0.len());
            assert(games0.take(i + 1).drop_last() =~= games0.take(i as int));
            assert(games0.take(i + 1).last() == games0[i as int]);
            assert(games0.skip(i as int)[0] == games0[i as int]);
            assert(games0.skip(i as int).drop_first() =~= games0.skip(i + 1));
        }
        let game = remaining.remove(0);
        let mut numbers: Vec<String> = Vec::new();
        if let Some(v) = subscriptions.get(&game.teams.home.detail.id) {
            append_numbers(&mut numbers, v);
        }
        if let Some(v) = subscriptions.get(&game.teams.away.detail.id) {
            append_numbers(&mut numbers, v);
        }
        proof {
            assert(numbers@ =~= spec_numbers_for(m, games0[i as int]));
        }
        let ghost s_old = spec_games_to_notify(games0.take(i as int), m);
        if numbers.len() > 0 {
            out.push(GameToNotify { game, numbers });
            proof {
                let s_new = spec_games_to_notify(games0.take(i + 1), m);
                assert(s_new == s_old.push(
                    (games0[i as int], spec_numbers_for(m, games0[i as int])),
                ));
            }
        }
        i = i + 1;
    }
    proof {
        assert(games0.take(games0.len() as int) =~= games0);
        assert(games0.skip(i as int).len() == 0);
    }
    out
}

/// The verb and plural suffix a count takes in a log line.
pub fn log_words<'a, T>(vec: &[T]) -> (r: (&'a str, &'a str))
    ensures
        vec@.len() == 1 ==> r.0@ == "is"@ && r.1@ == ""@,
        vec@.len() != 1 ==> r.0@ == "are"@ && r.1@ == "s"@,
{
    let verb = if vec.len() != 1 {
        "are"
    } else {
        "is"
    };
    let plural = if vec.len() != 1 {
        "s"
    } else {
        ""
    };
    (verb, plural)
}

/// The lifecycle order is transitive, so ticks that each move a game
/// forward can never show it an earlier stage again: once live it never
/// reads as scheduled, and once ended it stays ended.
pub proof fn lemma_status_monotonic(a: GameStatus, b: GameStatus, c: GameStatus)
    requires
        status_rank(a) <= status_rank(b),
        status_rank(b) <= status_rank(c),
    ensures
        status_rank(a) <= status_rank(c),
        a is Live ==> !(c is Scheduled),
        a is Ended ==> c is Ended,
{
}

} // verus!
