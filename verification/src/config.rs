//! Run configuration: the earliest notification time, the team
//! subscriptions, and the messaging credentials.
//!
//! The runtime reads the configuration file and hands the plain values
//! here; the library only assembles and indexes them.

use vstd::prelude::*;

use std::collections::HashMap;

verus! {

/// Messaging-provider credentials and the sending number.
#[derive(Debug)]
pub struct TwilioConfig {
    pub account_sid: String,
    pub auth_token: String,
    pub from: String,
}

impl Default for TwilioConfig {
    /// Empty credentials, to be filled from the command line.
    fn default() -> (c: TwilioConfig)
        ensures
            c.account_sid@.len() == 0,
            c.auth_token@.len() == 0,
            c.from@.len() == 0,
    {
        let account_sid = String::new();
        let auth_token = String::new();
        let from = String::new();
        TwilioConfig { account_sid, auth_token, from }
    }
}

/// One team's subscription: the team id and the recipient numbers that
/// follow it.
#[derive(Debug)]
pub struct TeamSubscription {
    pub team: u32,
    pub numbers: Vec<String>,
}

/// The run's configuration. The earliest notification time is a local
/// time of day in seconds after midnight.
#[derive(Debug)]
pub struct AppConfig {
    pub earliest_notification_time: u32,
    pub subscriptions: Vec<TeamSubscription>,
    pub twilio: TwilioConfig,
}

/// Some subscription for this team names at least one number.
pub open spec fn spec_sub_has(subs: Seq<TeamSubscription>, t: u32) -> bool {
    exists|k: int|
        0 <= k < subs.len() && (#[trigger] subs[k]).team == t && subs[k].numbers@.len() > 0
}

/// The numbers the index keeps for a team: those of its last subscription
/// entry that names any.
pub open spec fn spec_sub_numbers(subs: Seq<TeamSubscription>, t: u32) -> Seq<String>
    decreases subs.len(),
{
    if subs.len() == 0 {
        Seq::empty()
    } else if subs.last().team == t && subs.last().numbers@.len() > 0 {
        subs.last().numbers@
    } else {
        spec_sub_numbers(subs.drop_last(), t)
    }
}

impl AppConfig {
    /// A configuration from its parts, with the messaging credentials
    /// filled in.
    pub fn new(
        earliest_notification_time: u32,
        subscriptions: Vec<TeamSubscription>,
        twil_sid: String,
        twil_token: String,
        twil_from: String,
    ) -> (c: AppConfig)
        ensures
            c.earliest_notification_time == earliest_notification_time,
            c.subscriptions == subscriptions,
            c.twilio.account_sid == twil_sid,
            c.twilio.auth_token == twil_token,
            c.twilio.from == twil_from,
    {
        let twilio = TwilioConfig { account_sid: twil_sid, auth_token: twil_token, from: twil_from };
        AppConfig { earliest_notification_time, subscriptions, twilio }
    }

    /// The subscription index: team id to recipient numbers, keeping only
    /// teams with at least one number; a later entry for the same team
    /// supersedes an earlier one.
    #[verifier::loop_isolation(false)]
    pub fn subscriptions_as_hashmap(&self) -> (m: HashMap<u32, Vec<String>>)
        ensures
            forall|t: u32| #[trigger]
                m@.contains_key(t) <==> spec_sub_has(self.subscriptions@, t),
            forall|t: u32| #[trigger]
                m@.contains_key(t) ==> m@[t]@ == spec_sub_numbers(self.subscriptions@, t),
    {
        let ghost subs = self.subscriptions@;
        let mut m: HashMap<u32, Vec<String>> = HashMap::new();
        let mut i: usize = 0;
        proof {
            assert(subs.take(0) =~= Seq::<TeamSubscription>::empty());
        }
        while i < self.subscriptions.len()
            invariant
                0 <= i <= subs.len(),
                forall|t: u32| #[trigger]
                    m@.contains_key(t) <==> spec_sub_has(subs.take(i as int), t),
                forall|t: u32| #[trigger]
                    m@.contains_key(t) ==> m@[t]@ == spec_sub_numbers(subs.take(i as int), t),
            decreases subs.len() - i,
        {
            proof {
                assert(subs.take(i + 1).drop_last() =~= subs.take(i as int));
                assert(subs.take(i + 1).last() == subs[i as int]);
            }
            let sub = &self.subscriptions[i];
            let ghost m0 = m@;
            if sub.numbers.len() > 0 {
                m.insert(sub.team, sub.numbers.clone());
                proof {
                    assert(m@[sub.team]@ =~= subs[i as int].numbers@);
                    assert forall|t: u32| #[trigger] m@.contains_key(t) <==> spec_sub_has(
                        subs.take(i + 1),
                        t,
                    ) by {
                        if t == sub.team {
                            assert(subs.take(i + 1)[i as int] == subs[i as int]);
                            assert(spec_sub_has(subs.take(i + 1), t));
                        } else {
                            assert(m@.contains_key(t) == m0.contains_key(t));
                            assert(spec_sub_has(subs.take(i as int), t) == spec_sub_has(
                                subs.take(i + 1),
                                t,
                            )) by {
                                if spec_sub_has(subs.take(i as int), t) {
                                    let w = choose|w: int|
                                        0 <= w < i && (#[trigger] subs.take(i as int)[w]).team == t
                                            && subs.take(i as int)[w].numbers@.len() > 0;
                                    assert(subs.take(i + 1)[w] == subs.take(i as int)[w]);
                                }
                                if spec_sub_has(subs.take(i + 1), t) {
                                    let w = choose|w: int|
                                        0 <= w < i + 1 && (#[trigger] subs.take(i + 1)[w]).team
                                            == t && subs.take(i + 1)[w].numbers@.len() > 0;
                                    assert(w < i);
                                    assert(subs.take(i as int)[w] == subs.take(i + 1)[w]);
                                }
                            }
                        }
                    }
                }
            } else {
                proof {
                    assert forall|t: u32| #[trigger] m@.contains_key(t) <==> spec_sub_has(
                        subs.take(i + 1),
                        t,
                    ) by {
                        if spec_sub_has(subs.take(i + 1), t) {
                            let w = choose|w: int|
                                0 <= w < i + 1 && (#[trigger] subs.take(i + 1)[w]).team == t
                                    && subs.take(i + 1)[w].numbers@.len() > 0;
                            assert(w < i);
                            assert(subs.take(i as int)[w] == subs.take(i + 1)[w]);
                        }
                        if spec_sub_has(subs.take(i as int), t) {
                            let w = choose|w: int|
                                0 <= w < i && (#[trigger] subs.take(i as int)[w]).team == t
                                    && subs.take(i as int)[w].numbers@.len() > 0;
                            assert(subs.take(i + 1)[w] == subs.take(i as int)[w]);
                        }
                    }
                }
            }
            i = i + 1;
        }
        proof {
            assert(subs.take(subs.len() as int) =~= subs);
        }
        m
    }
}

} // verus!
