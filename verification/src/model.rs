//! Plain data carried by the stats feed.
//!
//! The runtime decodes the feed's JSON into these types; the library's
//! logic reads nothing but the plain fields below. A fetched body either
//! decoded into the expected shape or did not, which the tagged `Response`
//! value records; the selectors at the bottom say exactly which responses
//! yield data and which are rejected.

use vstd::prelude::*;

verus! {

/// A team as the stats feed describes it.
#[derive(Debug)]
pub struct Team {
    pub id: u32,
    pub name: String,
    pub link: String,
    pub abbreviation: String,
    pub team_name: String,
    pub location_name: String,
    pub first_year_of_play: String,
    pub short_name: String,
    pub official_site_url: String,
    pub franchise_id: u32,
    pub active: bool,
}

#[derive(Debug)]
pub struct TeamsResponse {
    pub teams: Vec<Team>,
}

/// One day's schedule: the date as display text, and the games listed for it.
#[derive(Debug)]
pub struct Schedule {
    pub date: String,
    pub games: Vec<ScheduleGame>,
}

#[derive(Debug)]
pub struct ScheduleResponse {
    pub dates: Vec<Schedule>,
}

/// A scheduled game. The start time is kept as seconds since the Unix
/// epoch, UTC.
#[derive(Debug)]
pub struct ScheduleGame {
    pub game_pk: u64,
    pub link: String,
    pub date: i64,
    pub game_type: String,
    pub season: String,
    pub teams: ScheduleGameTeams,
}

#[derive(Debug)]
pub struct ScheduleGameTeams {
    pub away: ScheduleGameTeam,
    pub home: ScheduleGameTeam,
}

#[derive(Debug)]
pub struct ScheduleGameTeam {
    pub score: u8,
    pub detail: ScheduleGameTeamDetail,
}

#[derive(Debug)]
pub struct ScheduleGameTeamDetail {
    pub id: u32,
    pub name: String,
    pub link: String,
}

/// Which shape of response a fetch expects.
#[derive(Debug)]
pub enum ResponseType {
    TeamsResponse,
    ScheduleResponse,
}

/// What a fetch produced: the expected shape, or `None` inside the variant
/// when the body did not decode into it.
#[derive(Debug)]
pub enum Response {
    TeamsResponse(Option<TeamsResponse>),
    ScheudleResponse(Option<ScheduleResponse>),
}

/// Why a response yielded no data.
#[derive(Debug)]
pub enum ClientError {
    FailedTeamsResponse,
    FailedTeamResponse,
    FailedScheduleResponse,
}

impl ClientError {
    pub fn message(&self) -> (r: &'static str)
        ensures
            (match self {
                ClientError::FailedTeamsResponse => r@ == "Failed to get teams response."@,
                ClientError::FailedTeamResponse => r@ == "Failed to get team response."@,
                ClientError::FailedScheduleResponse => r@ == "Failed to get schedule response."@,
            }),
    {
        match self {
            ClientError::FailedTeamsResponse => "Failed to get teams response.",
            ClientError::FailedTeamResponse => "Failed to get team response.",
            ClientError::FailedScheduleResponse => "Failed to get schedule response.",
        }
    }
}

/// The team list of a decoded teams response; any other response is
/// rejected.
pub fn teams_from_response(response: Response) -> (r: Result<Vec<Team>, ClientError>)
    ensures
        (match response {
            Response::TeamsResponse(Some(tr)) => r == Ok::<Vec<Team>, ClientError>(tr.teams),
            _ => r == Err::<Vec<Team>, ClientError>(ClientError::FailedTeamsResponse),
        }),
{
    match response {
        Response::TeamsResponse(Some(tr)) => Ok(tr.teams),
        _ => Err(ClientError::FailedTeamsResponse),
    }
}

/// The last team of a decoded teams response; a response with no team, or
/// of another shape, is rejected. A by-id lookup answers with a single
/// team, so the last entry is the looked-up team.
pub fn team_from_response(response: Response) -> (r: Result<Team, ClientError>)
    ensures
        (match response {
            Response::TeamsResponse(Some(tr)) => {
                if tr.teams@.len() > 0 {
                    r == Ok::<Team, ClientError>(tr.teams@.last())
                } else {
                    r == Err::<Team, ClientError>(ClientError::FailedTeamResponse)
                }
            },
            _ => r == Err::<Team, ClientError>(ClientError::FailedTeamsResponse),
        }),
{
    match response {
        Response::TeamsResponse(Some(tr)) => {
            let mut teams = tr.teams;
            match teams.pop() {
                Some(team) => Ok(team),
                None => Err(ClientError::FailedTeamResponse),
            }
        },
        _ => Err(ClientError::FailedTeamsResponse),
    }
}

/// The last schedule of a decoded schedule response; a response with no
/// dates, or of another shape, is rejected.
pub fn schedule_from_response(response: Response) -> (r: Result<Schedule, ClientError>)
    ensures
        (match response {
            Response::ScheudleResponse(Some(sr)) => {
                if sr.dates@.len() > 0 {
                    r == Ok::<Schedule, ClientError>(sr.dates@.last())
                } else {
                    r == Err::<Schedule, ClientError>(ClientError::FailedScheduleResponse)
                }
            },
            _ => r == Err::<Schedule, ClientError>(ClientError::FailedScheduleResponse),
        }),
{
    match response {
        Response::ScheudleResponse(Some(sr)) => {
            let mut dates = sr.dates;
            match dates.pop() {
                Some(schedule) => Ok(schedule),
                None => Err(ClientError::FailedScheduleResponse),
            }
        },
        _ => Err(ClientError::FailedScheduleResponse),
    }
}

} // verus!
