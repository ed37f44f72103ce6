use portal::control::{
    is_true_text, portal_name, Control, DEFAULT_CHIP_TYPE, DEFAULT_READ_WINDOW, DEFAULT_VOICE,
    SETTING_PLAY_SOUND, SETTING_READ_WINDOW, SETTING_VOICE,
};
use portal::setting::Setting;
use portal::commands::{
    reader_for_command, reader_for_kind, setting_for_command, setting_for_option, CommandError, DEFAULT_ZEBRA_PORT, SETTING_CONTROL_PORT,
    SETTING_PORTAL_NAME, SETTING_ZERO_CONF_PORT,
};
use portal::cycle::{SightingsProcessor, SETTING_SIGHTING_PERIOD};
use portal::read::{IdentType, Read};
use portal::reconnector::{Next, Reconnector, MAX_ATTEMPTS};
use portal::records::{ApiKind, ReaderKind, ResultsApi};
use portal::requests::{Repeaters, Request};
use portal::sound::Sounds;
use portal::store::MemStore;
use portal::text::{parse_period, parse_u64};
use portal::uploader::{chunk_bounds, chunk_of, find_remote_api, uploaded_marks, Status, Uploader};

fn read(chip: &str, seconds: u64) -> Read {
    Read::new(chip.to_string(), seconds, 0, seconds, 0, 1, "r".to_string(), "-1".to_string(), IdentType::Chip)
}

#[test]
fn uploader_chunks_of_fifty() {
    let bounds = chunk_bounds(125);
    assert_eq!(vec![(0, 50), (50, 100), (100, 125)], bounds);
    assert_eq!(0, chunk_bounds(0).len());
    assert_eq!(vec![(0, 50)], chunk_bounds(50));
    assert_eq!(vec![(0, 50), (50, 51)], chunk_bounds(51));
}

#[test]
fn uploader_marks_whole_accepted_chunks() {
    let mut store = MemStore::new();
    let batch: Vec<Read> = (0u64..125).map(|i| read(&format!("c{i}"), i)).collect();
    store.save_reads(&batch).unwrap();
    let pending = store.get_not_uploaded_reads();
    let mut sizes = Vec::new();
    for (start, end) in chunk_bounds(pending.len()) {
        let chunk = chunk_of(&pending, start, end);
        sizes.push(chunk.len());
        let marks = uploaded_marks(&chunk, chunk.len());
        assert!(marks.iter().all(|r| r.uploaded));
        store.update_reads_status(&marks);
    }
    assert_eq!(vec![50, 50, 25], sizes);
    assert!(store.reads.iter().all(|r| r.uploaded));
    assert_eq!(0, store.get_not_uploaded_reads().len());
}

#[test]
fn uploader_marks_nothing_on_partial_acceptance() {
    let chunk = vec![read("a", 1), read("b", 2), read("c", 3)];
    assert_eq!(0, uploaded_marks(&chunk, 2).len());
    assert_eq!(3, uploaded_marks(&chunk, 3).len());
}

#[test]
fn uploader_status_transitions() {
    let mut u = Uploader::new();
    assert_eq!(Status::Stopped, u.status());
    assert!(!u.running());
    assert!(u.begin());
    assert!(u.running());
    assert!(!u.begin());
    assert!(u.keep_going(true));
    assert!(!u.keep_going(false));
    u.stop();
    assert_eq!(Status::Stopping, u.status());
    assert!(!u.keep_going(true));
    u.finish();
    assert_eq!(Status::Stopped, u.status());
}

#[test]
fn remote_api_is_the_first_remote_kind() {
    let mk = |kind| ResultsApi { id: 0, nickname: "n".to_string(), kind, token: "t".to_string(), uri: "u".to_string() };
    let apis = vec![mk(ApiKind::ChronokeepCloud), mk(ApiKind::ChronokeepRemoteSelf), mk(ApiKind::ChronokeepRemote)];
    assert_eq!(Some(1), find_remote_api(&apis));
    assert_eq!(None, find_remote_api(&vec![mk(ApiKind::ChronokeepSelfHosted)]));
}

#[test]
fn reconnector_gives_up_after_five_attempts() {
    let mut attempts = 0;
    let mut link = Reconnector::new(7, 1);
    loop {
        if !link.should_attempt() {
            break;
        }
        attempts += 1;
        match link.after_attempt(false, None) {
            Next::Retry(c) => link = Reconnector::new(link.id, c),
            Next::GiveUp => break,
            Next::Rejoin => panic!("a failed attempt cannot rejoin"),
        }
    }
    assert_eq!(5, attempts);
    assert_eq!(5, MAX_ATTEMPTS);
    assert_eq!(Next::Rejoin, Reconnector::new(7, 3).after_attempt(true, Some(true)));
    assert_eq!(Next::Retry(4), Reconnector::new(7, 3).after_attempt(true, Some(false)));
    assert!(!Reconnector::new(7, 6).should_attempt());
    assert!(Reconnector::retry_initialize(4));
    assert!(!Reconnector::retry_initialize(5));
}

#[test]
fn processor_flags() {
    let mut p = SightingsProcessor::new();
    assert!(!p.running());
    assert!(p.should_quit(true));
    p.begin();
    assert!(!p.should_quit(true));
    assert!(p.should_quit(false));
    assert!(!p.has_work());
    p.notify();
    assert!(p.has_work());
    p.drained();
    assert!(!p.has_work());
    p.stop();
    assert!(p.should_quit(true));
}

#[test]
fn sounds_keep_half_a_second_apart() {
    let mut s = Sounds::new(true);
    assert!(s.pulse(1000));
    assert!(!s.pulse(1499));
    assert!(s.pulse(1500));
    let mut quiet = Sounds::new(false);
    assert!(!quiet.pulse(1000));
}

#[test]
fn decimal_parsing() {
    assert_eq!(Some(42), parse_u64("42"));
    assert_eq!(Some(7), parse_u64("+7"));
    assert_eq!(None, parse_u64(""));
    assert_eq!(None, parse_u64("+"));
    assert_eq!(None, parse_u64("-1"));
    assert_eq!(None, parse_u64("4a"));
    assert_eq!(Some(u64::MAX), parse_u64("18446744073709551615"));
    assert_eq!(None, parse_u64("18446744073709551616"));
}

#[test]
fn sighting_period_forms() {
    assert_eq!(Some(45), parse_period("45"));
    assert_eq!(Some(125), parse_period("2:05"));
    assert_eq!(Some(3723), parse_period("1:02:03"));
    assert_eq!(None, parse_period("1:2:3:4"));
    assert_eq!(None, parse_period("1::3"));
    assert_eq!(None, parse_period("ab"));
    assert_eq!(None, parse_period("18446744073709551615:00"));
}

#[test]
fn setting_commands() {
    let s = setting_for_command("S", "1:02:03").unwrap();
    assert_eq!(SETTING_SIGHTING_PERIOD, s.name());
    assert_eq!("3723", s.value());
    let s = setting_for_command("sightings", "2:05").unwrap();
    assert_eq!("125", s.value());
    assert_eq!("90", setting_for_command("s", "1:30").unwrap().value());
    assert_eq!("45", setting_for_command("sightings", "45").unwrap().value());
    assert_eq!("3723", setting_for_option("sightings", "01:02:03").unwrap().value());
    assert_eq!(Err(CommandError::UnknownSetting), setting_for_option("S", "45").map(|_| ()));
    assert_eq!(Err(CommandError::InvalidPeriod), setting_for_command("s", "x").map(|_| ()));
    let s = setting_for_command("zeroconf", "+4488").unwrap();
    assert_eq!(SETTING_ZERO_CONF_PORT, s.name());
    assert_eq!("4488", s.value());
    let s = setting_for_command("C", "4489").unwrap();
    assert_eq!(SETTING_CONTROL_PORT, s.name());
    assert_eq!(Err(CommandError::InvalidPort), setting_for_command("c", "70000").map(|_| ()));
    let s = setting_for_command("n", "Finish Line").unwrap();
    assert_eq!(SETTING_PORTAL_NAME, s.name());
    assert_eq!("Finish Line", s.value());
    assert_eq!(Err(CommandError::UnknownSetting), setting_for_command("volume", "3").map(|_| ()));
}

#[test]
fn reader_commands() {
    let r = reader_for_command("zebra-1", "Zebra", "192.168.1.100", "").unwrap();
    assert_eq!(ReaderKind::Zebra, r.kind);
    assert_eq!(DEFAULT_ZEBRA_PORT, r.port);
    assert_eq!("zebra-1", r.nickname);
    let r = reader_for_command("zebra-2", "z", "10.0.0.2", "6000").unwrap();
    assert_eq!(6000, r.port);
    assert_eq!(Err(CommandError::UnknownReaderKind), reader_for_command("x", "llrp", "ip", "1").map(|_| ()));
    assert_eq!(ReaderKind::Zebra, reader_for_kind("a", "zebra", "ip", "1").unwrap().kind);
    assert_eq!(Err(CommandError::UnknownReaderKind), reader_for_kind("a", "Zebra", "ip", "1").map(|_| ()));
}

#[test]
fn subscribe_sets_repeaters() {
    let now = Repeaters { reads: false, sightings: true };
    let sub = Request::Subscribe { reads: true, sightings: false };
    assert_eq!(Repeaters { reads: true, sightings: false }, sub.repeaters_after(now));
    assert_eq!(now, Request::ReaderList.repeaters_after(now));
}

#[test]
fn control_fills_missing_settings_with_defaults() {
    let mut store = MemStore::new();
    let c = Control::new(&mut store, 7);
    assert_eq!(300, c.sighting_period);
    assert_eq!(DEFAULT_VOICE, c.voice);
    assert_eq!("20", store.get_setting(SETTING_READ_WINDOW).unwrap().value());
    assert_eq!("true", store.get_setting(SETTING_PLAY_SOUND).unwrap().value());
    assert_eq!(DEFAULT_VOICE, store.get_setting(SETTING_VOICE).unwrap().value());
    assert_eq!(c.name, store.get_setting(SETTING_PORTAL_NAME).unwrap().value());
    assert_eq!(DEFAULT_READ_WINDOW, c.read_window);
    assert_eq!(DEFAULT_CHIP_TYPE, c.chip_type);
    assert!(c.play_sound);
    assert_eq!("Chrono Portal 7", c.name);
    assert_eq!(6, store.settings.len());
    assert_eq!("300", store.get_setting(SETTING_SIGHTING_PERIOD).unwrap().value());
    let again = Control::new(&mut store, 7);
    assert_eq!(c.name, again.name);
    assert_eq!(6, store.settings.len());
}

#[test]
fn control_reads_stored_settings() {
    let mut store = MemStore::new();
    store.set_setting(&Setting::new(SETTING_SIGHTING_PERIOD.to_string(), "45".to_string()));
    store.set_setting(&Setting::new(SETTING_PORTAL_NAME.to_string(), "Finish".to_string()));
    store.set_setting(&Setting::new(SETTING_READ_WINDOW.to_string(), "999".to_string()));
    store.set_setting(&Setting::new(SETTING_PLAY_SOUND.to_string(), "TRUE".to_string()));
    let mut c = Control::new(&mut store, 7);
    assert_eq!(45, c.sighting_period);
    assert_eq!("Finish", c.name);
    assert_eq!(20, c.read_window);
    assert!(c.play_sound);
    let mut other = c.clone();
    other.play_sound = false;
    c.update(other);
    assert!(!c.play_sound);
}

#[test]
fn portal_names_and_true_text() {
    assert_eq!("Chrono Portal 7", portal_name(7));
    assert_eq!("Chrono Portal 255", portal_name(255));
    assert!(is_true_text("True"));
    assert!(!is_true_text("yes"));
    assert!(!is_true_text("true "));
}
