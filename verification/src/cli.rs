//! Command-line options, as plain values.
//!
//! The runtime parses the process arguments into an `Opt`; the library
//! decides what the options demand, in particular that a run names all
//! three messaging settings.

use vstd::prelude::*;

use crate::config::AppConfig;
use crate::config::TwilioConfig;

verus! {

/// The parsed command line.
#[derive(Debug)]
pub struct Opt {
    pub cmd: Command,
}

/// What the program was asked to do: run against a configuration file, or
/// generate an empty one.
#[derive(Debug)]
pub enum Command {
    Run {
        config: String,
        twil_sid: Option<String>,
        twil_token: Option<String>,
        twil_from: Option<String>,
    },
    Generate,
}

/// What the command line resolved to: a configuration to run with, or a
/// task already done.
#[derive(Debug)]
pub enum CliStatus {
    Continue(AppConfig),
    Exit,
}

/// Why the command line was refused.
#[derive(Debug)]
pub enum CliError {
    MissingTwilioSettings,
}

impl CliError {
    pub fn message(&self) -> (r: &'static str)
        ensures
            (match self {
                CliError::MissingTwilioSettings => r@
                    == "TWIL_ACCOUNT_SID, TWIL_AUTH_TOKEN & TWIL_FROM env variables must be set, or passed via --twil-sid, --twil-token & --twil-from"@,
            }),
    {
        match self {
            CliError::MissingTwilioSettings => "TWIL_ACCOUNT_SID, TWIL_AUTH_TOKEN & TWIL_FROM env variables must be set, or passed via --twil-sid, --twil-token & --twil-from",
        }
    }
}

/// What the command line decided: write the empty configuration file, or
/// run against the named file with the given messaging settings.
#[derive(Debug)]
pub enum CliDecision {
    GenerateConfig,
    Run { config: String, twilio: TwilioConfig },
}

/// What the parsed options ask for. A generate command is complete in
/// itself; a run command must name all three messaging settings, or it is
/// refused.
pub fn parse_opts(opt: Opt) -> (r: Result<CliDecision, CliError>)
    ensures
        (match opt.cmd {
            Command::Generate => r matches Ok(CliDecision::GenerateConfig),
            Command::Run { config, twil_sid, twil_token, twil_from } => {
                match (twil_sid, twil_token, twil_from) {
                    (Some(sid), Some(token), Some(from)) => r matches Ok(CliDecision::Run {
                        config: c,
                        twilio,
                    }) && c == config && twilio == (TwilioConfig {
                        account_sid: sid,
                        auth_token: token,
                        from,
                    }),
                    _ => r matches Err(e) && e is MissingTwilioSettings,
                }
            },
        }),
{
    match opt.cmd {
        Command::Generate => Ok(CliDecision::GenerateConfig),
        Command::Run { config, twil_sid, twil_token, twil_from } => {
            match (twil_sid, twil_token, twil_from) {
                (Some(sid), Some(token), Some(from)) => Ok(
                    CliDecision::Run {
                        config,
                        twilio: TwilioConfig { account_sid: sid, auth_token: token, from },
                    },
                ),
                _ => Err(CliError::MissingTwilioSettings),
            }
        },
    }
}

} // verus!
