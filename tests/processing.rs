use portal::cycle::{run_cycle, SETTING_SIGHTING_PERIOD};
use portal::participant::Participant;
use portal::processor::classify;
use portal::read::{IdentType, Read, ReadStatus};
use portal::setting::Setting;
use portal::store::MemStore;

fn read(chip: &str, seconds: u64, ms: u32) -> Read {
    Read::new(chip.to_string(), seconds, ms, seconds, ms, 1, "reader-1".to_string(), "-25dba".to_string(), IdentType::Chip)
}

fn bib_read(bib: &str, seconds: u64, ms: u32) -> Read {
    Read::new(bib.to_string(), seconds, ms, seconds, ms, 1, "reader-1".to_string(), "-25dba".to_string(), IdentType::Bib)
}

fn participant(bib: &str, chip: &str) -> Participant {
    Participant {
        id: 0,
        bib: bib.to_string(),
        first: "John".to_string(),
        last: "Smith".to_string(),
        age: 22,
        gender: "M".to_string(),
        age_group: "0-110".to_string(),
        distance: "50k".to_string(),
        chip: chip.to_string(),
        anonymous: false,
    }
}

fn store_with_period(period: u64) -> MemStore {
    let mut store = MemStore::new();
    store.set_setting(&Setting::new(SETTING_SIGHTING_PERIOD.to_string(), period.to_string()));
    store
}

fn status_at(store: &MemStore, seconds: u64, ms: u32) -> ReadStatus {
    store.reads.iter().find(|r| r.seconds == seconds && r.milliseconds == ms).unwrap().status
}

#[test]
fn duplicate_reads_are_dropped() {
    let mut store = MemStore::new();
    let saved = store.save_reads(&vec![read("A", 10, 0), read("A", 10, 0)]).unwrap();
    assert_eq!(1, saved);
    assert_eq!(1, store.get_reads(0, 20).len());
}

#[test]
fn resubmitted_batch_persists_nothing() {
    let mut store = MemStore::new();
    let batch = vec![read("A", 1, 0), read("B", 1, 0), read("A", 1, 0), read("A", 2, 0)];
    assert_eq!(3, store.save_reads(&batch).unwrap());
    assert_eq!(0, store.save_reads(&batch).unwrap());
    assert_eq!(3, store.reads.len());
}

#[test]
fn hardware_retransmit_is_ignored() {
    let mut store = MemStore::new();
    assert_eq!(1, store.save_reads(&vec![read("C", 7, 250)]).unwrap());
    let mut again = read("C", 7, 250);
    again.antenna = 4;
    assert_eq!(0, store.save_reads(&vec![again]).unwrap());
    assert_eq!(1, store.reads.len());
    assert_eq!(1, store.reads[0].antenna);
}

#[test]
fn quiet_window_scenario() {
    let mut store = store_with_period(10);
    store
        .save_reads(&vec![read("A", 5, 0), read("A", 14, 999), read("A", 15, 0), read("A", 25, 0)])
        .unwrap();
    let outcome = run_cycle(&mut store).ok().unwrap();
    assert_eq!(3, outcome.sightings.len());
    assert_eq!(ReadStatus::Used, status_at(&store, 5, 0));
    assert_eq!(ReadStatus::TooSoon, status_at(&store, 14, 999));
    assert_eq!(ReadStatus::Used, status_at(&store, 15, 0));
    assert_eq!(ReadStatus::Used, status_at(&store, 25, 0));
    assert_eq!(3, store.sightings.len());
}

#[test]
fn quiet_window_exact_boundary_is_used() {
    let cycle = classify(&vec![read("A", 100, 0), read("A", 130, 0)], &vec![participant("1", "A")], 30);
    assert_eq!(ReadStatus::Used, cycle.reads[0].status);
    assert_eq!(ReadStatus::Used, cycle.reads[1].status);
    assert_eq!(2, cycle.sightings.len());
}

#[test]
fn quiet_window_milliseconds_break_ties() {
    let cycle = classify(&vec![read("A", 100, 500), read("A", 130, 400)], &vec![participant("1", "A")], 30);
    assert_eq!(ReadStatus::Used, cycle.reads[0].status);
    assert_eq!(ReadStatus::TooSoon, cycle.reads[1].status);
    assert_eq!(1, cycle.sightings.len());
}

#[test]
fn earlier_used_read_opens_the_window() {
    let mut used = read("A", 100, 0);
    used.status = ReadStatus::Used;
    let cycle = classify(&vec![used, read("A", 105, 0), read("A", 110, 0)], &vec![], 10);
    assert_eq!(2, cycle.reads.len());
    assert_eq!(ReadStatus::TooSoon, cycle.reads[0].status);
    assert_eq!(ReadStatus::Used, cycle.reads[1].status);
}

#[test]
fn unknown_chip_gets_placeholder() {
    let mut store = store_with_period(10);
    store.save_reads(&vec![read("X", 100, 0)]).unwrap();
    let outcome = run_cycle(&mut store).ok().unwrap();
    assert_eq!(1, store.participants.len());
    let p = &store.participants[0];
    assert_eq!("X", p.bib);
    assert_eq!("J", p.first);
    assert_eq!("Doe", p.last);
    assert_eq!("X", p.chip);
    assert_eq!("Unknown", p.distance);
    assert_eq!(1, outcome.sightings.len());
    assert_eq!(p.id, outcome.sightings[0].participant.id);
    assert_ne!(0, p.id);
    assert_eq!(ReadStatus::Used, store.reads[0].status);
}

#[test]
fn bib_read_is_credited_to_its_participant() {
    let mut store = store_with_period(10);
    store.add_participants(&vec![participant("7", "CHIP7")]).unwrap();
    store.save_reads(&vec![bib_read("7", 1, 0)]).unwrap();
    let outcome = run_cycle(&mut store).ok().unwrap();
    assert_eq!(1, store.participants.len());
    assert_eq!(1, outcome.sightings.len());
    assert_eq!("CHIP7", outcome.sightings[0].participant.chip);
    assert_eq!(store.participants[0].id, outcome.sightings[0].participant.id);
    assert_eq!(ReadStatus::Used, store.reads[0].status);
}

#[test]
fn unknown_bib_is_taken_as_chip() {
    let cycle = classify(&vec![bib_read("42", 1, 0)], &vec![participant("7", "CHIP7")], 10);
    assert_eq!(1, cycle.participants.len());
    assert_eq!("42", cycle.participants[0].chip);
    assert_eq!("42", cycle.participants[0].bib);
    assert_eq!(1, cycle.sightings.len());
    assert_eq!("42", cycle.sightings[0].participant.chip);
}

#[test]
fn second_cycle_without_new_reads_is_idle() {
    let mut store = store_with_period(10);
    store.save_reads(&vec![read("A", 1, 0), read("B", 2, 0)]).unwrap();
    let first = run_cycle(&mut store).ok().unwrap();
    assert_eq!(2, first.sightings.len());
    let second = run_cycle(&mut store).ok().unwrap();
    assert_eq!(0, second.sightings.len());
    assert_eq!(0, second.cycle.reads.len());
    assert_eq!(2, store.sightings.len());
}

#[test]
fn missing_period_setting_uses_default() {
    let mut store = MemStore::new();
    store.save_reads(&vec![read("A", 0, 0), read("A", 299, 999), read("A", 300, 0)]).unwrap();
    run_cycle(&mut store).ok().unwrap();
    assert_eq!(ReadStatus::TooSoon, status_at(&store, 299, 999));
    assert_eq!(ReadStatus::Used, status_at(&store, 300, 0));
}

#[test]
fn placeholder_displacing_a_credited_participant_fails_the_cycle() {
    let mut store = store_with_period(10);
    let mut lookalike = participant("X", "Y");
    lookalike.first = "J".to_string();
    lookalike.last = "Doe".to_string();
    lookalike.distance = "Unknown".to_string();
    store.add_participants(&vec![lookalike]).unwrap();
    store.save_reads(&vec![read("X", 1, 0), read("Y", 2, 0)]).unwrap();
    assert!(run_cycle(&mut store).is_err());
    assert!(store.reads.iter().all(|r| r.status == ReadStatus::Unused));
    assert_eq!(0, store.sightings.len());
}
