use vstd::prelude::*;

use crate::cycle::SETTING_SIGHTING_PERIOD;
use crate::records::{same_text, Reader, ReaderKind};
use crate::setting::Setting;
use crate::text::{decimal, decimal_text, parse_period, parse_u64, period_value, u64_value};

verus! {

/// The setting that holds the advertised name of the portal.
pub const SETTING_PORTAL_NAME: &'static str = "SETTING_PORTAL_NAME";

/// The setting that holds the network port the discovery service listens on.
pub const SETTING_ZERO_CONF_PORT: &'static str = "SETTING_ZERO_CONF_PORT";

/// The setting that holds the network port the control interface listens on.
pub const SETTING_CONTROL_PORT: &'static str = "SETTING_CONTROL_PORT";

/// The port a Zebra reader listens on unless told otherwise.
pub const DEFAULT_ZEBRA_PORT: u16 = 5084;

/// Why an operator command was refused.
#[derive(Debug, Clone, Copy, PartialEq, Eq, Structural)]
pub enum CommandError {
    /// The sighting period is not `SS`, `MM:SS` or `HH:MM:SS`.
    InvalidPeriod,
    /// The port is not a number from 0 to 65535.
    InvalidPort,
    /// No setting goes by that name.
    UnknownSetting,
    /// No reader kind goes by that name.
    UnknownReaderKind,
}

pub uninterp spec fn lower_of(s: Seq<char>) -> Seq<char>;

/// Relies on str::to_lowercase: the lowercase form depends on the text alone.
#[verifier::external_body]
fn lowercase(s: &str) -> (r: String)
    ensures
        r@ == lower_of(s@),
{
    s.to_lowercase()
}

/// The sighting period that `value` writes, where it fits in a `u64`.
pub open spec fn period_of_text(value: Seq<char>) -> Option<u64> {
    match period_value(value) {
        Some(v) => if v <= u64::MAX {
            Some(v as u64)
        } else {
            None
        },
        None => None,
    }
}

/// The port number that `value` writes, if any.
pub open spec fn port_of_text(value: Seq<char>) -> Option<u16> {
    match u64_value(value) {
        Some(v) => if v <= u16::MAX {
            Some(v as u16)
        } else {
            None
        },
        None => None,
    }
}

/// A port number read from `value`.
fn parse_port(value: &str) -> (r: Option<u16>)
    ensures
        r == port_of_text(value@),
{
    match parse_u64(value) {
        Some(v) => if v <= u16::MAX as u64 {
            Some(v as u16)
        } else {
            None
        },
        None => None,
    }
}

/// The setting that `setting <option> <value>` stores, for an option already
/// in lower case: `s`/`sightings` takes a period written `SS`, `MM:SS` or
/// `HH:MM:SS` and stores it in seconds; `z`/`zeroconf` and `c`/`control` take
/// a port; `n`/`name` takes any text. Numbers are stored in plain decimal.
pub fn setting_for_option(o: &str, value: &str) -> (r: Result<Setting, CommandError>)
    ensures
        follows_rule(r, setting_rule(o@, value@)),
{
    if same_text(o, "s") || same_text(o, "sightings") {
        match parse_period(value) {
            Some(p) => Ok(Setting::new(SETTING_SIGHTING_PERIOD.to_owned(), decimal(p))),
            None => Err(CommandError::InvalidPeriod),
        }
    } else if same_text(o, "z") || same_text(o, "zeroconf") {
        match parse_port(value) {
            Some(p) => Ok(Setting::new(SETTING_ZERO_CONF_PORT.to_owned(), decimal(p as u64))),
            None => Err(CommandError::InvalidPort),
        }
    } else if same_text(o, "c") || same_text(o, "control") {
        match parse_port(value) {
            Some(p) => Ok(Setting::new(SETTING_CONTROL_PORT.to_owned(), decimal(p as u64))),
            None => Err(CommandError::InvalidPort),
        }
    } else if same_text(o, "n") || same_text(o, "name") {
        Ok(Setting::new(SETTING_PORTAL_NAME.to_owned(), value.to_owned()))
    } else {
        Err(CommandError::UnknownSetting)
    }
}

/// The `(name, value)` of the setting that `setting <o> <value>` stores, for
/// a lower-case option `o`, or why the command is refused.
pub open spec fn setting_rule(o: Seq<char>, value: Seq<char>) -> Result<(Seq<char>, Seq<char>), CommandError> {
    if o == "s"@ || o == "sightings"@ {
        match period_of_text(value) {
            Some(p) => Ok((SETTING_SIGHTING_PERIOD@, decimal_text(p as nat))),
            None => Err(CommandError::InvalidPeriod),
        }
    } else if o == "z"@ || o == "zeroconf"@ {
        match port_of_text(value) {
            Some(p) => Ok((SETTING_ZERO_CONF_PORT@, decimal_text(p as nat))),
            None => Err(CommandError::InvalidPort),
        }
    } else if o == "c"@ || o == "control"@ {
        match port_of_text(value) {
            Some(p) => Ok((SETTING_CONTROL_PORT@, decimal_text(p as nat))),
            None => Err(CommandError::InvalidPort),
        }
    } else if o == "n"@ || o == "name"@ {
        Ok((SETTING_PORTAL_NAME@, value))
    } else {
        Err(CommandError::UnknownSetting)
    }
}

/// `r` is the setting, or the refusal, that `rule` describes.
pub open spec fn follows_rule(r: Result<Setting, CommandError>, rule: Result<(Seq<char>, Seq<char>), CommandError>) -> bool {
    match rule {
        Ok(pair) => r matches Ok(s) && s@ == pair,
        Err(e) => r == Err::<Setting, CommandError>(e),
    }
}

/// The setting that the operator command `setting <option> <value>` stores;
/// the option is matched in any case.
pub fn setting_for_command(option: &str, value: &str) -> (r: Result<Setting, CommandError>)
    ensures
        follows_rule(r, setting_rule(lower_of(option@), value@)),
{
    let o = lowercase(option);
    setting_for_option(o.as_str(), value)
}

/// The reader that `reader add <name> <kind> <ip> [port]` saves, for a kind
/// already in lower case: only `z`/`zebra` is known, and a port that does not
/// read as one gives the Zebra default.
pub fn reader_for_kind(name: &str, k: &str, ip: &str, port: &str) -> (r: Result<Reader, CommandError>)
    ensures
        reader_rule_of(name@, k@, ip@, port@, r),
{
    if same_text(k, "z") || same_text(k, "zebra") {
        let p = match parse_port(port) {
            Some(p) => p,
            None => DEFAULT_ZEBRA_PORT,
        };
        Ok(
            Reader {
                id: 0,
                nickname: name.to_owned(),
                kind: ReaderKind::Zebra,
                ip_address: ip.to_owned(),
                port: p,
            },
        )
    } else {
        Err(CommandError::UnknownReaderKind)
    }
}

/// `r` is what `reader add <name> <kind> <ip> <port>` gives for the lower-case
/// kind `k`.
pub open spec fn reader_rule_of(name: Seq<char>, k: Seq<char>, ip: Seq<char>, port: Seq<char>, r: Result<Reader, CommandError>) -> bool {
    if k == "z"@ || k == "zebra"@ {
        r matches Ok(rd) && rd.id == 0 && rd.nickname@ == name && rd.kind == ReaderKind::Zebra
            && rd.ip_address@ == ip && rd.port == match port_of_text(port) {
            Some(p) => p,
            None => DEFAULT_ZEBRA_PORT,
        }
    } else {
        r == Err::<Reader, CommandError>(CommandError::UnknownReaderKind)
    }
}

/// The reader that the operator command `reader add <name> <kind> <ip>
/// [port]` saves; the kind is matched in any case.
pub fn reader_for_command(name: &str, kind: &str, ip: &str, port: &str) -> (r: Result<Reader, CommandError>)
    ensures
        reader_rule_of(name@, lower_of(kind@), ip@, port@, r),
{
    let k = lowercase(kind);
    reader_for_kind(name, k.as_str(), ip, port)
}

} // verus!
