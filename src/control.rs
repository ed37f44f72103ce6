use vstd::prelude::*;

use crate::commands::SETTING_PORTAL_NAME;
use crate::cycle::{DEFAULT_SIGHTING_PERIOD, SETTING_SIGHTING_PERIOD};
use crate::setting::Setting;
use crate::store::{setting_named, settings_view, MemStore};
use crate::text::{decimal, decimal_text, parse_u64, u64_value};

verus! {

pub const SETTING_CHIP_TYPE: &'static str = "SETTING_CHIP_TYPE";

pub const SETTING_READ_WINDOW: &'static str = "SETTING_READ_WINDOW";

pub const SETTING_PLAY_SOUND: &'static str = "SETTING_PLAY_SOUND";

pub const SETTING_VOICE: &'static str = "SETTING_VOICE";

/// The voice announcements use unless told otherwise.
pub const DEFAULT_VOICE: &'static str = "Emily";

pub const DEFAULT_CHIP_TYPE: &'static str = "DEC";

pub const DEFAULT_READ_WINDOW: u8 = 20;

pub const DEFAULT_PLAY_SOUND: bool = true;

/// The portal's configuration as the daemon runs with it.
#[derive(Debug, Clone)]
pub struct Control {
    pub name: String,
    pub sighting_period: u32,
    pub read_window: u8,
    pub chip_type: String,
    pub play_sound: bool,
    pub voice: String,
}

/// Whether `s` reads `true` in any ASCII case.
pub open spec fn says_true(s: Seq<char>) -> bool {
    &&& s.len() == 4
    &&& (s[0] == 't' || s[0] == 'T')
    &&& (s[1] == 'r' || s[1] == 'R')
    &&& (s[2] == 'u' || s[2] == 'U')
    &&& (s[3] == 'e' || s[3] == 'E')
}

/// Whether `s` reads `true` in any ASCII case.
pub fn is_true_text(s: &str) -> (r: bool)
    ensures
        r == says_true(s@),
{
    let cs = crate::text::chars_of(s);
    cs.len() == 4 && (cs[0] == 't' || cs[0] == 'T') && (cs[1] == 'r' || cs[1] == 'R') && (cs[2]
        == 'u' || cs[2] == 'U') && (cs[3] == 'e' || cs[3] == 'E')
}

/// The default advertised name for the number `n`.
pub open spec fn default_name(n: u8) -> Seq<char> {
    "Chrono Portal "@ + decimal_text(n as nat)
}

/// The default advertised name, `Chrono Portal <n>`.
pub fn portal_name(n: u8) -> (r: String)
    ensures
        r@ == default_name(n),
{
    let mut s = "Chrono Portal ".to_owned();
    proof {
        reveal_strlit("Chrono Portal ");
    }
    let d = decimal(n as u64);
    s.append(d.as_str());
    s
}

/// The value of the setting named `name` in `store`.
pub open spec fn stored_value(store: MemStore, name: Seq<char>) -> Option<Seq<char>> {
    match setting_named(settings_view(store.settings@), name) {
        Some(v) => Some(v.1),
        None => None,
    }
}

/// A number stored as text, when it reads as one of at most `bound`.
pub open spec fn bounded_value(text: Option<Seq<char>>, bound: int) -> Option<int> {
    match text {
        Some(t) => match u64_value(t) {
            Some(v) => if v <= bound {
                Some(v as int)
            } else {
                None
            },
            None => None,
        },
        None => None,
    }
}

/// The stored value of `name`, if any.
fn value_of(store: &MemStore, name: &str) -> (r: Option<String>)
    ensures
        match r {
            Some(v) => stored_value(*store, name@) == Some(v@),
            None => stored_value(*store, name@) is None,
        },
{
    match store.get_setting(name) {
        Ok(s) => Some(s.value().to_owned()),
        Err(_) => None,
    }
}

/// Stores `value` under `name`.
fn store_default(store: &mut MemStore, name: &str, value: String)
    ensures
        stored_value(*final(store), name@) == Some(value@),
        final(store).reads == old(store).reads,
        final(store).participants == old(store).participants,
        final(store).readers == old(store).readers,
        final(store).apis == old(store).apis,
        final(store).sightings == old(store).sightings,
        final(store).next_id == old(store).next_id,
        forall|other: Seq<char>| other != name@ ==> stored_value(*final(store), other) == stored_value(
            *old(store),
            other,
        ),
{
    let ghost before = settings_view(store.settings@);
    let s = Setting::new(name.to_owned(), value);
    store.set_setting(&s);
    proof {
        let after = settings_view(store.settings@);
        assert(after == before.filter(|x: (Seq<char>, Seq<char>)| x.0 != name@).push((name@, value@)));
        assert(after.drop_last() == before.filter(|x: (Seq<char>, Seq<char>)| x.0 != name@));
        assert forall|other: Seq<char>| other != name@ implies stored_value(*store, other) == stored_value(
            *old(store),
            other,
        ) by {
            let keep = |x: (Seq<char>, Seq<char>)| x.0 != name@;
            lemma_named_after_filter(before, keep, name@, other);
            assert(after.last().0 == name@);
            assert(setting_named(after, other) == setting_named(after.drop_last(), other));
        }
    }
}

proof fn lemma_named_after_filter(
    s: Seq<(Seq<char>, Seq<char>)>,
    keep: spec_fn((Seq<char>, Seq<char>)) -> bool,
    dropped: Seq<char>,
    name: Seq<char>,
)
    requires
        name != dropped,
        forall|x: (Seq<char>, Seq<char>)| #[trigger] keep(x) == (x.0 != dropped),
    ensures
        setting_named(s.filter(keep), name) == setting_named(s, name),
    decreases s.len(),
{
    reveal(Seq::filter);
    if s.len() > 0 {
        lemma_named_after_filter(s.drop_last(), keep, dropped, name);
        let f = s.drop_last().filter(keep);
        assert(f.push(s.last()).drop_last() =~= f);
        assert(f.push(s.last()).last() == s.last());
    }
}

impl Control {
    /// The configuration `store` holds. A setting that is missing is stored
    /// with its default first (the name with the number `n`, which the caller
    /// draws at random); one that is stored but does not read as a value of
    /// its kind is used as the default, and left as it is.
    pub fn new(store: &mut MemStore, n: u8) -> (c: Control)
        ensures
            final(store).reads == old(store).reads,
            final(store).participants == old(store).participants,
            final(store).readers == old(store).readers,
            final(store).apis == old(store).apis,
            final(store).sightings == old(store).sightings,
            final(store).next_id == old(store).next_id,
            match stored_value(*old(store), SETTING_SIGHTING_PERIOD@) {
                Some(t) => c.sighting_period == match bounded_value(Some(t), u32::MAX as int) {
                    Some(v) => v as u32,
                    None => DEFAULT_SIGHTING_PERIOD as u32,
                } && stored_value(*final(store), SETTING_SIGHTING_PERIOD@) == Some(t),
                None => c.sighting_period == DEFAULT_SIGHTING_PERIOD as u32 && stored_value(
                    *final(store),
                    SETTING_SIGHTING_PERIOD@,
                ) == Some(decimal_text(DEFAULT_SIGHTING_PERIOD as nat)),
            },
            match stored_value(*old(store), SETTING_PORTAL_NAME@) {
                Some(n) => c.name@ == n && stored_value(*final(store), SETTING_PORTAL_NAME@) == Some(n),
                None => c.name@ == default_name(n) && stored_value(
                    *final(store),
                    SETTING_PORTAL_NAME@,
                ) == Some(c.name@),
            },
            match stored_value(*old(store), SETTING_CHIP_TYPE@) {
                Some(t) => c.chip_type@ == t && stored_value(*final(store), SETTING_CHIP_TYPE@) == Some(t),
                None => c.chip_type@ == DEFAULT_CHIP_TYPE@ && stored_value(*final(store), SETTING_CHIP_TYPE@)
                    == Some(DEFAULT_CHIP_TYPE@),
            },
            match stored_value(*old(store), SETTING_READ_WINDOW@) {
                Some(t) => c.read_window == match bounded_value(Some(t), u8::MAX as int) {
                    Some(v) => v as u8,
                    None => DEFAULT_READ_WINDOW,
                } && stored_value(*final(store), SETTING_READ_WINDOW@) == Some(t),
                None => c.read_window == DEFAULT_READ_WINDOW && stored_value(
                    *final(store),
                    SETTING_READ_WINDOW@,
                ) == Some(decimal_text(DEFAULT_READ_WINDOW as nat)),
            },
            match stored_value(*old(store), SETTING_PLAY_SOUND@) {
                Some(t) => c.play_sound == says_true(t) && stored_value(*final(store), SETTING_PLAY_SOUND@)
                    == Some(t),
                None => c.play_sound == DEFAULT_PLAY_SOUND && stored_value(
                    *final(store),
                    SETTING_PLAY_SOUND@,
                ) == Some("true"@),
            },
            match stored_value(*old(store), SETTING_VOICE@) {
                Some(t) => c.voice@ == t && stored_value(*final(store), SETTING_VOICE@) == Some(t),
                None => c.voice@ == DEFAULT_VOICE@ && stored_value(*final(store), SETTING_VOICE@) == Some(
                    DEFAULT_VOICE@,
                ),
            },
    {
        proof {
            reveal_strlit("SETTING_SIGHTING_PERIOD");
            reveal_strlit("SETTING_PORTAL_NAME");
            reveal_strlit("SETTING_CHIP_TYPE");
            reveal_strlit("SETTING_READ_WINDOW");
            reveal_strlit("SETTING_PLAY_SOUND");
            reveal_strlit("SETTING_VOICE");
        }
        assert(SETTING_SIGHTING_PERIOD@.len() == 23);
        assert(SETTING_PORTAL_NAME@.len() == 19);
        assert(SETTING_CHIP_TYPE@.len() == 17);
        assert(SETTING_READ_WINDOW@.len() == 19);
        assert(SETTING_PLAY_SOUND@.len() == 18);
        assert(SETTING_VOICE@.len() == 13);
        assert(SETTING_PORTAL_NAME@[8] != SETTING_READ_WINDOW@[8]);
        let default_period: u32 = DEFAULT_SIGHTING_PERIOD as u32;
        let sighting_period = match value_of(store, SETTING_SIGHTING_PERIOD) {
            Some(v) => match parse_u64(v.as_str()) {
                Some(p) => if p <= u32::MAX as u64 {
                    p as u32
                } else {
                    default_period
                },
                None => default_period,
            },
            None => {
                store_default(store, SETTING_SIGHTING_PERIOD, decimal(DEFAULT_SIGHTING_PERIOD));
                default_period
            },
        };
        let name = match value_of(store, SETTING_PORTAL_NAME) {
            Some(v) => v,
            None => {
                let name = portal_name(n);
                store_default(store, SETTING_PORTAL_NAME, name.clone());
                assert(name@ == default_name(n));
                name
            },
        };
        let chip_type = match value_of(store, SETTING_CHIP_TYPE) {
            Some(v) => v,
            None => {
                store_default(store, SETTING_CHIP_TYPE, DEFAULT_CHIP_TYPE.to_owned());
                DEFAULT_CHIP_TYPE.to_owned()
            },
        };
        let read_window = match value_of(store, SETTING_READ_WINDOW) {
            Some(v) => match parse_u64(v.as_str()) {
                Some(p) => if p <= u8::MAX as u64 {
                    p as u8
                } else {
                    DEFAULT_READ_WINDOW
                },
                None => DEFAULT_READ_WINDOW,
            },
            None => {
                store_default(store, SETTING_READ_WINDOW, decimal(DEFAULT_READ_WINDOW as u64));
                DEFAULT_READ_WINDOW
            },
        };
        let play_sound = match value_of(store, SETTING_PLAY_SOUND) {
            Some(v) => is_true_text(v.as_str()),
            None => {
                store_default(store, SETTING_PLAY_SOUND, "true".to_owned());
                DEFAULT_PLAY_SOUND
            },
        };
        let voice = match value_of(store, SETTING_VOICE) {
            Some(v) => v,
            None => {
                store_default(store, SETTING_VOICE, DEFAULT_VOICE.to_owned());
                DEFAULT_VOICE.to_owned()
            },
        };
        Control { name, sighting_period, read_window, chip_type, play_sound, voice }
    }

    /// Takes over every value of `new_control`.
    pub fn update(&mut self, new_control: Control)
        ensures
            *final(self) == new_control,
    {
        *self = new_control;
    }
}

} // verus!
