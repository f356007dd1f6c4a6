use std::collections::HashMap;

use nhl_notifier::cli::parse_opts;
use nhl_notifier::cli::CliDecision;
use nhl_notifier::cli::CliError;
use nhl_notifier::cli::Command;
use nhl_notifier::cli::Opt;
use nhl_notifier::config::AppConfig;
use nhl_notifier::config::TeamSubscription;
use nhl_notifier::config::TwilioConfig;
use nhl_notifier::game::games_to_notify;
use nhl_notifier::game::log_words;
use nhl_notifier::model::schedule_from_response;
use nhl_notifier::model::team_from_response;
use nhl_notifier::model::teams_from_response;
use nhl_notifier::model::ClientError;
use nhl_notifier::model::Response;
use nhl_notifier::model::Schedule;
use nhl_notifier::model::ScheduleGame;
use nhl_notifier::model::ScheduleGameTeam;
use nhl_notifier::model::ScheduleGameTeamDetail;
use nhl_notifier::model::ScheduleGameTeams;
use nhl_notifier::model::ScheduleResponse;
use nhl_notifier::model::Team;
use nhl_notifier::model::TeamsResponse;
use nhl_notifier::twilio::build_message_request;
use nhl_notifier::twilio::delivery_succeeded;
use nhl_notifier::twilio::message_from_response;
use nhl_notifier::twilio::CreateMessageResponse;
use nhl_notifier::twilio::Response as TwilioResponse;
use nhl_notifier::twilio::TwilioError;

fn team(id: u32, name: &str) -> Team {
    Team {
        id,
        name: name.to_string(),
        link: String::new(),
        abbreviation: String::new(),
        team_name: name.to_string(),
        location_name: String::new(),
        first_year_of_play: String::new(),
        short_name: name.to_string(),
        official_site_url: String::new(),
        franchise_id: id,
        active: true,
    }
}

fn schedule_game(pk: u64, home_id: u32, away_id: u32) -> ScheduleGame {
    ScheduleGame {
        game_pk: pk,
        link: String::new(),
        date: 1_570_000_000,
        game_type: "R".to_string(),
        season: "20192020".to_string(),
        teams: ScheduleGameTeams {
            away: ScheduleGameTeam {
                score: 0,
                detail: ScheduleGameTeamDetail {
                    id: away_id,
                    name: String::new(),
                    link: String::new(),
                },
            },
            home: ScheduleGameTeam {
                score: 0,
                detail: ScheduleGameTeamDetail {
                    id: home_id,
                    name: String::new(),
                    link: String::new(),
                },
            },
        },
    }
}

#[test]
fn teams_response_yields_its_teams() {
    let response = Response::TeamsResponse(Some(TeamsResponse {
        teams: vec![team(1, "One"), team(2, "Two")],
    }));
    let teams = teams_from_response(response).unwrap();
    assert_eq!(teams.len(), 2);
    assert_eq!(teams[0].id, 1);
}

#[test]
fn undecoded_teams_response_is_rejected() {
    let e = teams_from_response(Response::TeamsResponse(None)).unwrap_err();
    assert!(matches!(e, ClientError::FailedTeamsResponse));
    assert_eq!(e.message(), "Failed to get teams response.");
}

#[test]
fn team_lookup_takes_the_last_listed_team() {
    let response = Response::TeamsResponse(Some(TeamsResponse {
        teams: vec![team(1, "One"), team(54, "Fifty-Four")],
    }));
    let t = team_from_response(response).unwrap();
    assert_eq!(t.id, 54);
}

#[test]
fn empty_team_lookup_is_rejected() {
    let response = Response::TeamsResponse(Some(TeamsResponse { teams: vec![] }));
    let e = team_from_response(response).unwrap_err();
    assert!(matches!(e, ClientError::FailedTeamResponse));
    assert_eq!(e.message(), "Failed to get team response.");
}

#[test]
fn schedule_response_yields_the_last_date() {
    let response = Response::ScheudleResponse(Some(ScheduleResponse {
        dates: vec![Schedule { date: "2019-10-04".to_string(), games: vec![schedule_game(7, 1, 2)] }],
    }));
    let s = schedule_from_response(response).unwrap();
    assert_eq!(s.date, "2019-10-04");
    assert_eq!(s.games.len(), 1);
}

#[test]
fn empty_schedule_response_is_rejected() {
    let response = Response::ScheudleResponse(Some(ScheduleResponse { dates: vec![] }));
    let e = schedule_from_response(response).unwrap_err();
    assert!(matches!(e, ClientError::FailedScheduleResponse));
    assert_eq!(e.message(), "Failed to get schedule response.");
}

#[test]
fn message_request_carries_its_fields() {
    let r = build_message_request("+15550000", "+15550123", "Homers win");
    assert_eq!(r.from, "+15550000");
    assert_eq!(r.to, "+15550123");
    assert_eq!(r.body, "Homers win");
}

#[test]
fn decoded_send_reply_is_returned() {
    let reply = TwilioResponse::CreateMessage(Some(CreateMessageResponse {
        error_code: None,
        error_message: None,
        status: "queued".to_string(),
        body: None,
    }));
    let r = message_from_response(reply).unwrap();
    assert_eq!(r.status, "queued");
}

#[test]
fn undecoded_send_reply_is_rejected() {
    let e = message_from_response(TwilioResponse::CreateMessage(None)).unwrap_err();
    assert!(matches!(e, TwilioError::MessageCodec));
    assert_eq!(e.message(), "Could not serialize / deserialize message to send");
}

#[test]
fn sent_and_queued_count_as_delivered() {
    let reply = |status: &str| CreateMessageResponse {
        error_code: None,
        error_message: None,
        status: status.to_string(),
        body: None,
    };
    assert!(delivery_succeeded(&reply("sent")));
    assert!(delivery_succeeded(&reply("queued")));
    assert!(!delivery_succeeded(&reply("failed")));
    assert!(!delivery_succeeded(&reply("")));
    assert!(!delivery_succeeded(&reply("Sent")));
}

#[test]
fn run_requires_all_three_twilio_settings() {
    let opt = Opt {
        cmd: Command::Run {
            config: "config.yml".to_string(),
            twil_sid: Some("sid".to_string()),
            twil_token: Some("token".to_string()),
            twil_from: Some("+15550000".to_string()),
        },
    };
    match parse_opts(opt).unwrap() {
        CliDecision::Run { config, twilio } => {
            assert_eq!(config, "config.yml");
            assert_eq!(twilio.account_sid, "sid");
            assert_eq!(twilio.auth_token, "token");
            assert_eq!(twilio.from, "+15550000");
        }
        other => panic!("expected a run decision, got {:?}", other),
    }

    let opt = Opt {
        cmd: Command::Run {
            config: "config.yml".to_string(),
            twil_sid: Some("sid".to_string()),
            twil_token: None,
            twil_from: Some("+15550000".to_string()),
        },
    };
    let e = parse_opts(opt).unwrap_err();
    assert!(matches!(e, CliError::MissingTwilioSettings));
    assert_eq!(
        e.message(),
        "TWIL_ACCOUNT_SID, TWIL_AUTH_TOKEN & TWIL_FROM env variables must be set, or passed via --twil-sid, --twil-token & --twil-from"
    );
}

#[test]
fn generate_command_is_complete_in_itself() {
    let opt = Opt { cmd: Command::Generate };
    assert!(matches!(parse_opts(opt).unwrap(), CliDecision::GenerateConfig));
}

#[test]
fn default_twilio_config_is_empty() {
    let c = TwilioConfig::default();
    assert_eq!(c.account_sid, "");
    assert_eq!(c.auth_token, "");
    assert_eq!(c.from, "");
}

#[test]
fn app_config_assembles_its_parts() {
    let c = AppConfig::new(
        25200,
        vec![TeamSubscription { team: 1, numbers: vec!["+15550001".to_string()] }],
        "sid".to_string(),
        "token".to_string(),
        "+15550000".to_string(),
    );
    assert_eq!(c.earliest_notification_time, 25200);
    assert_eq!(c.subscriptions.len(), 1);
    assert_eq!(c.twilio.account_sid, "sid");
    assert_eq!(c.twilio.auth_token, "token");
    assert_eq!(c.twilio.from, "+15550000");
}

#[test]
fn subscription_index_keeps_teams_with_numbers() {
    let c = AppConfig::new(
        25200,
        vec![
            TeamSubscription { team: 1, numbers: vec!["+15550001".to_string()] },
            TeamSubscription { team: 2, numbers: vec![] },
            TeamSubscription {
                team: 1,
                numbers: vec!["+15550002".to_string(), "+15550003".to_string()],
            },
        ],
        "sid".to_string(),
        "token".to_string(),
        "+15550000".to_string(),
    );
    let m = c.subscriptions_as_hashmap();
    assert_eq!(m.len(), 1);
    // An empty subscription is dropped; a later entry supersedes an
    // earlier one for the same team.
    assert!(!m.contains_key(&2));
    assert_eq!(m.get(&1).unwrap(), &vec!["+15550002".to_string(), "+15550003".to_string()]);
}

#[test]
fn schedule_filters_to_subscribed_games() {
    let mut subscriptions: HashMap<u32, Vec<String>> = HashMap::new();
    subscriptions.insert(1, vec!["+15550001".to_string()]);
    subscriptions.insert(4, vec!["+15550004".to_string()]);

    let games = vec![
        schedule_game(10, 1, 2),  // home side subscribed
        schedule_game(11, 3, 4),  // away side subscribed
        schedule_game(12, 4, 1),  // both sides subscribed
        schedule_game(13, 5, 6),  // nobody subscribed
    ];
    let picked = games_to_notify(games, &subscriptions);
    assert_eq!(picked.len(), 3);
    assert_eq!(picked[0].game.game_pk, 10);
    assert_eq!(picked[0].numbers, vec!["+15550001".to_string()]);
    assert_eq!(picked[1].game.game_pk, 11);
    assert_eq!(picked[1].numbers, vec!["+15550004".to_string()]);
    assert_eq!(picked[2].game.game_pk, 12);
    // The home side's numbers come first, then the away side's.
    assert_eq!(picked[2].numbers, vec!["+15550004".to_string(), "+15550001".to_string()]);
}

#[test]
fn log_words_agree_with_the_count() {
    let one = [0u8; 1];
    let none: [u8; 0] = [];
    let two = [0u8; 2];
    assert_eq!(log_words(&one), ("is", ""));
    assert_eq!(log_words(&none), ("are", "s"));
    assert_eq!(log_words(&two), ("are", "s"));
}
