use vstd::prelude::*;

use crate::setting::Setting;

verus! {

/// A request an operator client sends over the control socket.
#[derive(Debug)]
pub enum Request {
    Unknown,
    ApiAdd { name: String, kind: String, uri: String, token: String },
    ApiList,
    ApiRemoteAutoUpload { name: String },
    ApiRemoteManualUpload { name: String },
    ApiRemove { name: String },
    ApiResultsEventsGet { name: String },
    ApiResultsParticipantsGet { api_name: String, event_slug: String, event_year: String },
    Connect,
    Disconnect,
    KeepaliveAck,
    Quit,
    ParticipantsGet,
    ParticipantsRemove,
    ReaderAdd { name: String, kind: String, ip_address: String, port: u16 },
    ReaderConnect { id: i64 },
    ReaderDisconnect { id: i64 },
    ReaderList,
    ReaderRemove { id: i64 },
    ReaderStart { id: i64 },
    ReaderStop { id: i64 },
    ReadsDeleteAll,
    ReadsDelete { start_seconds: u64, end_seconds: u64 },
    ReadsGetAll,
    ReadsGet { start_seconds: u64, end_seconds: u64 },
    SettingSet { setting: Setting },
    SettingsGet,
    /// Turns the sending socket's read and sighting feeds on or off.
    Subscribe { reads: bool, sightings: bool },
    TimeGet,
    TimeSet { time: String },
}

/// The feeds an operator socket subscribed to.
#[derive(Debug, Clone, Copy, PartialEq, Eq, Structural)]
pub struct Repeaters {
    pub reads: bool,
    pub sightings: bool,
}

impl Request {
    /// The feeds a socket has after this request: a `Subscribe` sets both
    /// flags, any other request leaves them.
    pub fn repeaters_after(&self, current: Repeaters) -> (r: Repeaters)
        ensures
            match self {
                Request::Subscribe { reads, sightings } => r == Repeaters {
                    reads: *reads,
                    sightings: *sightings,
                },
                _ => r == current,
            },
    {
        match self {
            Request::Subscribe { reads, sightings } => Repeaters { reads: *reads, sightings: *sightings },
            _ => current,
        }
    }
}

} // verus!
