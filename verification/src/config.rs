//! What the operator sets.

use vstd::prelude::*;

use crate::text::uppercase;

verus! {

/// What the operator gives on the command line.
#[derive(Debug, Clone)]
pub struct Args {
    /// Station callsign.
    pub callsign: String,
    /// NetBIOS name advertised to the other stations.
    pub station: String,
    /// Contest name to advertise.
    pub contest: String,
    /// Local IP address to advertise.
    pub local_ip: String,
    /// UDP broadcast address for announces.
    pub broadcast: String,
    /// Path to the contact database.
    pub db: String,
}

/// The settings that every part of the bridge shares.
#[derive(Debug, Clone)]
pub struct Config {
    pub callsign: String,
    pub station: String,
    pub contest: String,
    pub local_ip: String,
    pub broadcast: String,
    pub db_path: String,
}

impl Config {
    /// The settings for a command line: callsign, station and contest in upper case, the rest
    /// as it was given.
    pub fn from_args(a: &Args) -> (r: Self)
        ensures
            r.callsign@ == uppercase(a.callsign@),
            r.station@ == uppercase(a.station@),
            r.contest@ == uppercase(a.contest@),
            r.local_ip@ == a.local_ip@,
            r.broadcast@ == a.broadcast@,
            r.db_path@ == a.db@,
    {
        Config {
            callsign: a.callsign.as_str().to_uppercase(),
            station: a.station.as_str().to_uppercase(),
            contest: a.contest.as_str().to_uppercase(),
            local_ip: a.local_ip.clone(),
            broadcast: a.broadcast.clone(),
            db_path: a.db.clone(),
        }
    }
}

} // verus!
