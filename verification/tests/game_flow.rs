use nhl_notifier::game::Game;
use nhl_notifier::game::GameStatus;
use nhl_notifier::game::Highlight;
use nhl_notifier::game::MilestoneItem;
use nhl_notifier::game::Playback;
use nhl_notifier::game::ScheduledAction;
use nhl_notifier::game::GameError;
use nhl_notifier::game::milestone_items_or_error;
use nhl_notifier::model::ScheduleGame;
use nhl_notifier::model::ScheduleGameTeam;
use nhl_notifier::model::ScheduleGameTeamDetail;
use nhl_notifier::model::ScheduleGameTeams;
use nhl_notifier::model::Team;

fn team(id: u32, name: &str, team_name: &str, abbreviation: &str) -> Team {
    Team {
        id,
        name: name.to_string(),
        link: format!("/api/v1/teams/{}", id),
        abbreviation: abbreviation.to_string(),
        team_name: team_name.to_string(),
        location_name: String::new(),
        first_year_of_play: String::new(),
        short_name: team_name.to_string(),
        official_site_url: String::new(),
        franchise_id: id,
        active: true,
    }
}

fn schedule_game(game_type: &str, home_id: u32, away_id: u32) -> ScheduleGame {
    ScheduleGame {
        game_pk: 2019020001,
        link: "/api/v1/game/2019020001/feed/live".to_string(),
        date: 1_570_000_000,
        game_type: game_type.to_string(),
        season: "20192020".to_string(),
        teams: ScheduleGameTeams {
            away: ScheduleGameTeam {
                score: 0,
                detail: ScheduleGameTeamDetail {
                    id: away_id,
                    name: "Away Club".to_string(),
                    link: String::new(),
                },
            },
            home: ScheduleGameTeam {
                score: 0,
                detail: ScheduleGameTeamDetail {
                    id: home_id,
                    name: "Home Club".to_string(),
                    link: String::new(),
                },
            },
        },
    }
}

fn live_game(game_type: &str) -> Game {
    let mut g = Game::new(
        schedule_game(game_type, 1, 2),
        vec!["+15550001".to_string()],
        team(1, "Home Club", "Homers", "HOM"),
        team(2, "Away Club", "Awayers", "AWY"),
        25200,
    );
    g.observe_stream_start(true);
    g
}

fn goal_item(event_id: &str, team_id: &str, ordinal: &str, elapsed: &str, desc: &str) -> MilestoneItem {
    MilestoneItem {
        item_type: "GOAL".to_string(),
        description: desc.to_string(),
        ordinal_num: ordinal.to_string(),
        period_time: elapsed.to_string(),
        stats_event_id: event_id.to_string(),
        team_id: team_id.to_string(),
        highlight: None,
    }
}

fn plain_item(item_type: &str) -> MilestoneItem {
    MilestoneItem {
        item_type: item_type.to_string(),
        description: String::new(),
        ordinal_num: String::new(),
        period_time: String::new(),
        stats_event_id: String::new(),
        team_id: String::new(),
        highlight: None,
    }
}

fn with_highlight(mut item: MilestoneItem, desc: &str, clip: Option<&str>) -> MilestoneItem {
    let playbacks = clip.map(|url| {
        vec![
            Playback { name: "FLASH_192K_320X180".to_string(), url: "low.mp4".to_string() },
            Playback { name: "FLASH_1800K_896x504".to_string(), url: url.to_string() },
        ]
    });
    item.highlight = Some(Highlight { description: desc.to_string(), playbacks });
    item
}

#[test]
fn score_always_accounts_for_known_goals() {
    let mut g = live_game("R");
    let polls: Vec<Vec<MilestoneItem>> = vec![
        vec![goal_item("101", "1", "1st", "02:30", "a")],
        vec![goal_item("101", "1", "1st", "02:30", "a"), goal_item("102", "2", "1st", "05:00", "b")],
        vec![goal_item("102", "2", "1st", "05:00", "b")],
        vec![],
        vec![goal_item("103", "1", "2nd", "01:00", "c")],
    ];
    for items in polls {
        g.run_live_game(&items);
        assert_eq!(g.score.home as usize + g.score.away as usize, g.goals.len());
    }
}

#[test]
fn known_goal_does_not_renotify() {
    let mut g = live_game("R");
    let items = vec![goal_item("101", "1", "1st", "02:30", "scored")];
    let first = g.run_live_game(&items);
    assert_eq!(first.goal_messages.len(), 1);
    let second = g.run_live_game(&items);
    assert_eq!(second.goal_messages.len(), 0);
    assert_eq!(g.score.home, 1);
    assert_eq!(g.score.away, 0);
}

#[test]
fn retraction_decrements_and_reintroduction_renotifies() {
    let mut g = live_game("R");
    g.run_live_game(&vec![
        goal_item("101", "1", "1st", "02:30", "a"),
        goal_item("102", "2", "1st", "05:00", "b"),
    ]);
    assert_eq!((g.score.home, g.score.away), (1, 1));

    // 102 disappears: the away tally drops by one, no notification.
    let tick = g.run_live_game(&vec![goal_item("101", "1", "1st", "02:30", "a")]);
    assert_eq!(tick.goal_messages.len(), 0);
    assert_eq!((g.score.home, g.score.away), (1, 0));
    assert_eq!(g.goals.len(), 1);

    // 102 reappears: newly added, re-notified.
    let tick = g.run_live_game(&vec![
        goal_item("101", "1", "1st", "02:30", "a"),
        goal_item("102", "2", "1st", "05:00", "b"),
    ]);
    assert_eq!(tick.goal_messages.len(), 1);
    assert_eq!((g.score.home, g.score.away), (1, 1));
}

#[test]
fn example_diff_over_three_polls() {
    // Poll 1 lists goals 101 (team A, home) and 102 (team B, away).
    let mut g = live_game("R");
    let tick = g.run_live_game(&vec![
        goal_item("101", "1", "1st", "02:30", "a"),
        goal_item("102", "2", "1st", "05:00", "b"),
    ]);
    assert_eq!(tick.goal_messages.len(), 2);
    assert_eq!((g.score.home, g.score.away), (1, 1));

    // Poll 2 retracts 102.
    let tick = g.run_live_game(&vec![goal_item("101", "1", "1st", "02:30", "a")]);
    assert_eq!(tick.goal_messages.len(), 0);
    assert_eq!((g.score.home, g.score.away), (1, 0));

    // Poll 3 reintroduces 102.
    let tick = g.run_live_game(&vec![
        goal_item("101", "1", "1st", "02:30", "a"),
        goal_item("102", "2", "1st", "05:00", "b"),
    ]);
    assert_eq!(tick.goal_messages.len(), 1);
    assert_eq!((g.score.home, g.score.away), (1, 1));
}

#[test]
fn goal_message_carries_running_score() {
    let mut g = live_game("R");
    let tick = g.run_live_game(&vec![
        goal_item("101", "1", "1st", "02:30", "first strike"),
        goal_item("102", "1", "1st", "10:00", "second strike"),
    ]);
    assert_eq!(tick.goal_messages.len(), 2);
    assert_eq!(
        tick.goal_messages[0],
        "Homers score\n\n17:30 1st, HOM 1 - AWY 0\n\nfirst strike"
    );
    assert_eq!(
        tick.goal_messages[1],
        "Homers score\n\n10:00 1st, HOM 2 - AWY 0\n\nsecond strike"
    );
}

#[test]
fn overtime_goal_uses_five_minute_period() {
    // A non-playoff overtime period runs five minutes, so 02:30 elapsed
    // leaves 02:30 remaining.
    let mut g = live_game("R");
    let tick = g.run_live_game(&vec![goal_item("201", "2", "OT", "02:30", "late winner")]);
    assert_eq!(g.goals[0].period_time, 150);
    assert_eq!(
        tick.goal_messages[0],
        "Awayers score\n\n02:30 OT, HOM 0 - AWY 1\n\nlate winner"
    );
}

#[test]
fn playoff_overtime_uses_twenty_minute_period() {
    let mut g = live_game("P");
    g.run_live_game(&vec![goal_item("201", "2", "OT", "02:30", "x")]);
    assert_eq!(g.goals[0].period_time, 1050);
}

#[test]
fn shootout_period_has_no_length() {
    let mut g = live_game("R");
    g.run_live_game(&vec![goal_item("301", "1", "SO", "00:30", "x")]);
    // The clock wraps one day around, as the original time arithmetic did.
    assert_eq!(g.goals[0].period_time, 86370);
}

#[test]
fn malformed_goal_records_are_dropped() {
    let mut g = live_game("R");
    let tick = g.run_live_game(&vec![
        goal_item("abc", "1", "1st", "02:30", "bad event id"),
        goal_item("104", "x1", "1st", "02:30", "bad team id"),
        goal_item("105", "1", "1st", "2-30", "bad clock"),
        goal_item("106", "1", "1st", "03:00", "good"),
        plain_item("PERIOD_START"),
    ]);
    assert_eq!(tick.goal_messages.len(), 1);
    assert_eq!(g.goals.len(), 1);
    assert_eq!(g.goals[0].event_id, 106);
}

#[test]
fn poll_without_goal_records_retracts_known_goals() {
    let mut g = live_game("R");
    g.run_live_game(&vec![goal_item("101", "1", "1st", "02:30", "a")]);
    // The diff rule has no exception for a poll that lists no goals: every
    // known event id has disappeared, so every goal is retracted.
    let tick = g.run_live_game(&vec![plain_item("PERIOD_END")]);
    assert_eq!(tick.goal_messages.len(), 0);
    assert_eq!((g.score.home, g.score.away), (0, 0));
    assert_eq!(g.goals.len(), 0);
}

#[test]
fn relisted_goal_record_is_superseded() {
    let mut g = live_game("R");
    g.run_live_game(&vec![goal_item("101", "1", "1st", "02:30", "first words")]);
    // The later poll's record for a known event id replaces the stored
    // one, without a second notification.
    let tick = g.run_live_game(&vec![goal_item("101", "1", "1st", "02:30", "better words")]);
    assert_eq!(tick.goal_messages.len(), 0);
    assert_eq!((g.score.home, g.score.away), (1, 0));
    assert_eq!(g.goals.len(), 1);
    assert_eq!(g.goals[0].description, "better words");
}

#[test]
fn highlight_notified_at_most_once() {
    let mut g = live_game("R");
    let items = vec![with_highlight(
        goal_item("101", "1", "1st", "02:30", "scored"),
        "what a shot",
        Some("clip.mp4"),
    )];
    let first = g.run_live_game(&items);
    assert_eq!(first.highlight_messages.len(), 1);
    assert_eq!(first.highlight_messages[0], "Highlight\n\nwhat a shot\n\nclip.mp4");
    assert_eq!(g.highlights_notified, vec![101]);

    let second = g.run_live_game(&items);
    assert_eq!(second.highlight_messages.len(), 0);
    assert_eq!(g.highlights_notified, vec![101]);
}

#[test]
fn clipless_highlight_is_retried_next_poll() {
    let mut g = live_game("R");
    // No 1800K rendition yet: nothing is sent and nothing is marked.
    let items = vec![with_highlight(goal_item("101", "1", "1st", "02:30", "scored"), "clip", None)];
    let tick = g.run_live_game(&items);
    assert_eq!(tick.highlight_messages.len(), 0);
    assert!(g.highlights_notified.is_empty());

    // The rendition appears on a later poll: now it is sent and marked.
    let items = vec![with_highlight(
        goal_item("101", "1", "1st", "02:30", "scored"),
        "clip",
        Some("clip.mp4"),
    )];
    let tick = g.run_live_game(&items);
    assert_eq!(tick.highlight_messages.len(), 1);
    assert_eq!(g.highlights_notified, vec![101]);
}

#[test]
fn clipless_highlight_does_not_block_later_ones() {
    let mut g = live_game("R");
    let items = vec![
        with_highlight(goal_item("101", "1", "1st", "02:30", "a"), "first", None),
        with_highlight(goal_item("102", "2", "1st", "05:00", "b"), "second", Some("b.mp4")),
    ];
    let tick = g.run_live_game(&items);
    // The first highlight has no clip yet: it stays unmarked for a retry,
    // while the pass goes on and notifies the second.
    assert_eq!(tick.highlight_messages.len(), 1);
    assert_eq!(tick.highlight_messages[0], "Highlight\n\nsecond\n\nb.mp4");
    assert_eq!(g.highlights_notified, vec![102]);

    // The clip appears later: the first is notified then, exactly once.
    let items = vec![
        with_highlight(goal_item("101", "1", "1st", "02:30", "a"), "first", Some("a.mp4")),
        with_highlight(goal_item("102", "2", "1st", "05:00", "b"), "second", Some("b.mp4")),
    ];
    let tick = g.run_live_game(&items);
    assert_eq!(tick.highlight_messages.len(), 1);
    assert_eq!(tick.highlight_messages[0], "Highlight\n\nfirst\n\na.mp4");
    assert_eq!(g.highlights_notified, vec![102, 101]);
}

#[test]
fn broadcast_end_transitions_on_the_same_tick() {
    let mut g = live_game("R");
    let tick = g.run_live_game(&vec![
        goal_item("101", "1", "1st", "02:30", "a"),
        plain_item("BROADCAST_END"),
    ]);
    // The goal still scored and notified on the tick that ended the game.
    assert_eq!(tick.goal_messages.len(), 1);
    assert_eq!(g.score.home, 1);
    assert_eq!(g.status, GameStatus::Ended);
    assert!(!g.should_poll());
}

#[test]
fn status_never_moves_backwards() {
    let mut g = Game::new(
        schedule_game("R", 1, 2),
        vec![],
        team(1, "Home Club", "Homers", "HOM"),
        team(2, "Away Club", "Awayers", "AWY"),
        25200,
    );
    assert_eq!(g.status, GameStatus::Scheduled);
    g.observe_stream_start(false);
    assert_eq!(g.status, GameStatus::Scheduled);
    g.observe_stream_start(true);
    assert_eq!(g.status, GameStatus::Live);
    g.run_live_game(&vec![]);
    assert_eq!(g.status, GameStatus::Live);
    g.run_live_game(&vec![plain_item("BROADCAST_END")]);
    assert_eq!(g.status, GameStatus::Ended);
    assert!(!g.should_poll());
}

#[test]
fn scheduled_tick_decides_wait_fetch_then_watch() {
    let mut g = Game::new(
        schedule_game("R", 1, 2),
        vec![],
        team(1, "Home Club", "Homers", "HOM"),
        team(2, "Away Club", "Awayers", "AWY"),
        25200,
    );
    assert_eq!(g.scheduled_action(true), ScheduledAction::Wait);
    assert_eq!(g.scheduled_action(false), ScheduledAction::FetchPreview);
    assert!(g.apply_preview_items(Some(vec!["A night to remember".to_string()])).is_ok());
    assert_eq!(g.scheduled_action(false), ScheduledAction::CheckStreamStart);
}

#[test]
fn preview_fetch_without_article_is_an_error() {
    let mut g = Game::new(
        schedule_game("R", 1, 2),
        vec![],
        team(1, "Home Club", "Homers", "HOM"),
        team(2, "Away Club", "Awayers", "AWY"),
        25200,
    );
    assert!(matches!(g.apply_preview_items(None), Err(GameError::PreviewNotAvailable)));
    assert!(matches!(g.apply_preview_items(Some(vec![])), Err(GameError::PreviewNotAvailable)));
    assert!(g.preview.is_none());
    assert_eq!(g.subhead(), "");
}

#[test]
fn preview_message_lists_matchup_time_and_subhead() {
    let mut g = Game::new(
        schedule_game("R", 1, 2),
        vec![],
        team(1, "Home Club", "Homers", "HOM"),
        team(2, "Away Club", "Awayers", "AWY"),
        25200,
    );
    g.apply_preview_items(Some(vec!["A night to remember".to_string()])).unwrap();
    assert_eq!(g.subhead(), "A night to remember");
    assert_eq!(
        g.preview_message("07:30:00 PM"),
        "Home Club @ Away Club - 07:30:00 PM\n\nA night to remember"
    );
}

#[test]
fn final_message_names_home_winner() {
    let mut g = live_game("R");
    g.run_live_game(&vec![goal_item("101", "1", "1st", "02:30", "a")]);
    assert_eq!(g.final_message(), "Homers win\n\nFinal score: HOM 1 - AWY 0");
}

#[test]
fn final_message_attributes_tie_to_away_side() {
    // The strict home-score comparison hands a tied final to the away
    // team; the behavior is kept as the source has always had it.
    let g = live_game("R");
    assert_eq!(g.final_message(), "Awayers win\n\nFinal score: HOM 0 - AWY 0");
}

#[test]
fn poll_interval_follows_status() {
    let mut g = live_game("R");
    assert_eq!(g.poll_interval_secs(), 10);
    g.run_live_game(&vec![plain_item("BROADCAST_END")]);
    assert_eq!(g.poll_interval_secs(), 0);
    let s = Game::new(
        schedule_game("R", 1, 2),
        vec![],
        team(1, "Home Club", "Homers", "HOM"),
        team(2, "Away Club", "Awayers", "AWY"),
        25200,
    );
    assert_eq!(s.poll_interval_secs(), 600);
}

#[test]
fn milestone_items_unwrap_or_report() {
    let items = vec![plain_item("PERIOD_START")];
    assert_eq!(milestone_items_or_error(Some(items)).unwrap().len(), 1);
    let e = milestone_items_or_error(None).unwrap_err();
    assert!(matches!(e, GameError::NoMilestoneItems));
    assert_eq!(e.message(), "No milestone items yet");
    assert_eq!(GameError::PreviewNotAvailable.message(), "Preview not available");
}

#[test]
fn later_duplicate_goal_record_supersedes_earlier() {
    let mut g = live_game("R");
    let tick = g.run_live_game(&vec![
        goal_item("101", "1", "1st", "02:30", "first words"),
        goal_item("101", "1", "1st", "02:30", "better words"),
    ]);
    assert_eq!(tick.goal_messages.len(), 1);
    assert_eq!(g.goals.len(), 1);
    assert_eq!(g.goals[0].description, "better words");
}
