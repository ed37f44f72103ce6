use portal::participant::Participant;
use portal::read::{IdentType, Read, ReadStatus};
use portal::records::{ApiKind, Reader, ReaderKind, ResultsApi};
use portal::saver::ReadSaver;
use portal::setting::Setting;
use portal::store::{plan_migration, plan_setup, DBError, MemStore, Migration, DATABASE_VERSION};

fn read(chip: &str, seconds: u64, ms: u32) -> Read {
    Read::new(chip.to_string(), seconds, ms, seconds, ms, 1, "reader-1".to_string(), "-25dba".to_string(), IdentType::Chip)
}

fn zebra(nickname: &str, ip: &str, port: u16) -> Reader {
    Reader { id: 0, nickname: nickname.to_string(), kind: ReaderKind::Zebra, ip_address: ip.to_string(), port }
}

fn api(nickname: &str, kind: ApiKind, token: &str, uri: &str) -> ResultsApi {
    ResultsApi { id: 0, nickname: nickname.to_string(), kind, token: token.to_string(), uri: uri.to_string() }
}

fn person(bib: &str, first: &str, last: &str, chip: &str) -> Participant {
    Participant {
        id: 0,
        bib: bib.to_string(),
        first: first.to_string(),
        last: last.to_string(),
        age: 30,
        gender: "F".to_string(),
        age_group: "0-110".to_string(),
        distance: "50k".to_string(),
        chip: chip.to_string(),
        anonymous: false,
    }
}

#[test]
fn reader_saved_twice_leaves_one_row() {
    let mut store = MemStore::new();
    store.save_reader(&zebra("zebra-1", "192.168.1.100", 5084)).unwrap();
    let written = store.save_reader(&zebra("zebra-1", "random_ip", 12345)).unwrap();
    assert_eq!(1, written);
    let id = store.next_id - 1;
    let readers = store.get_readers().unwrap();
    assert_eq!(1, readers.len());
    assert_eq!("random_ip", readers[0].ip_address);
    assert_eq!(12345, readers[0].port);
    assert_eq!(id, readers[0].id);
    store.save_reader(&zebra("zebra-2", "192.168.1.101", 5084)).unwrap();
    assert_eq!(2, store.get_readers().unwrap().len());
    assert_eq!(1, store.delete_reader(&"zebra-1".to_string()));
    assert_eq!(0, store.delete_reader(&"zebra-1".to_string()));
    assert_eq!(1, store.get_readers().unwrap().len());
}

#[test]
fn api_upsert_is_keyed_by_uri_and_token() {
    let mut store = MemStore::new();
    store.save_api(&api("results-api", ApiKind::ChronokeepCloud, "random-token-value", "https:://example.com/")).unwrap();
    store
        .save_api(&api("new-nickname", ApiKind::ChronokeepSelfHosted, "random-token-value", "https:://example.com/"))
        .unwrap();
    let apis = store.get_apis();
    assert_eq!(1, apis.len());
    assert_eq!("new-nickname", apis[0].nickname);
    assert_eq!(ApiKind::ChronokeepSelfHosted, apis[0].kind);
    store
        .save_api(&api("new-nickname", ApiKind::ChronokeepRemote, "a-different-random-token", "https:://random.com/"))
        .unwrap();
    assert_eq!(2, store.get_apis().len());
    assert_eq!(2, store.delete_api(&"new-nickname".to_string()));
    assert_eq!(0, store.get_apis().len());
}

#[test]
fn colliding_participants_are_replaced() {
    let mut store = MemStore::new();
    let parts = vec![
        person("1005", "", "", "1005"),
        person("1006", "John", "Smith", "1006"),
        person("1007", "Jenny", "Appfelsauce", "1007"),
        person("1008", "Jon", "Johnson", "1008"),
        person("1009", "George", "Analabousch", "1009"),
    ];
    assert_eq!(5, store.add_participants(&parts).unwrap());
    assert_eq!(5, store.get_participants().len());
    // same chip as 1006 and same (bib, first, last, distance) as nobody
    let update = person("1009", "George", "Analabousch", "1006");
    assert_eq!(1, store.add_participants(&vec![update]).unwrap());
    let stored = store.get_participants();
    assert_eq!(4, stored.len());
    assert_eq!(1, stored.iter().filter(|p| p.chip == "1006").count());
    assert_eq!(0, stored.iter().filter(|p| p.chip == "1009").count());
    let renamed = person("1007", "Jenny", "Appfelsauce", "2007");
    store.add_participants(&vec![renamed]).unwrap();
    let stored = store.get_participants();
    assert_eq!(4, stored.len());
    assert_eq!(0, stored.iter().filter(|p| p.chip == "1007").count());
    assert_eq!(1, stored.iter().filter(|p| p.chip == "2007").count());
}

#[test]
fn deleting_participants() {
    let mut store = MemStore::new();
    store.add_participants(&vec![person("1", "A", "B", "c1"), person("2", "C", "D", "c2")]).unwrap();
    assert_eq!(1, store.delete_participant(&"1".to_string()));
    assert_eq!(0, store.delete_participant(&"1".to_string()));
    assert_eq!(0, store.delete_participant(&"invalid".to_string()));
    assert_eq!(1, store.get_participants().len());
    assert_eq!(1, store.delete_participants());
    assert_eq!(0, store.get_participants().len());
}

#[test]
fn settings_are_upserted_by_name() {
    let mut store = MemStore::new();
    assert!(matches!(store.get_setting("RANDOM_SETTING"), Err(DBError::NotFound)));
    store.set_setting(&Setting::new("RANDOM_SETTING".to_string(), "random_value".to_string()));
    let back = store.set_setting(&Setting::new("RANDOM_SETTING".to_string(), "new_random_value".to_string()));
    assert_eq!("new_random_value", back.value());
    assert_eq!(1, store.settings.len());
    let got = store.get_setting("RANDOM_SETTING").unwrap();
    assert_eq!("RANDOM_SETTING", got.name());
    assert_eq!("new_random_value", got.value());
}

#[test]
fn reads_by_range_and_deletion() {
    let mut store = MemStore::new();
    let batch: Vec<Read> = (1000u64..1100).map(|i| read(&format!("{i}"), i, 100)).collect();
    assert_eq!(100, store.save_reads(&batch).unwrap());
    assert_eq!(100, store.get_reads(0, 2000).len());
    assert_eq!(11, store.get_reads(1000, 1010).len());
    assert_eq!(11, store.delete_reads(1000, 1010));
    assert_eq!(89, store.get_reads(0, 2000).len());
    assert_eq!(0, store.delete_reads(1000, 1010));
}

#[test]
fn status_updates_keep_uploaded_marks() {
    let mut store = MemStore::new();
    store.save_reads(&vec![read("A", 1, 0), read("B", 2, 0)]).unwrap();
    let mut up = store.reads[0].clone();
    up.uploaded = true;
    up.status = ReadStatus::Used;
    store.update_reads_status(&vec![up]);
    assert!(store.reads[0].uploaded);
    assert_eq!(ReadStatus::Used, store.reads[0].status);
    let mut down = store.reads[0].clone();
    down.uploaded = false;
    down.status = ReadStatus::Ignored;
    store.update_reads_status(&vec![down]);
    assert!(store.reads[0].uploaded);
    assert_eq!(ReadStatus::Ignored, store.reads[0].status);
    assert!(!store.reads[1].uploaded);
    assert_eq!(1, store.get_not_uploaded_reads().len());
    assert_eq!(1, store.get_useful_reads().len());
}

#[test]
fn marking_uploaded_keeps_status() {
    let mut store = MemStore::new();
    store.save_reads(&vec![read("A", 1, 0), read("B", 2, 0)]).unwrap();
    let fetched = store.get_not_uploaded_reads();
    let mut done = store.reads[0].clone();
    done.status = ReadStatus::Used;
    store.update_reads_status(&vec![done]);
    store.mark_uploaded(&vec![fetched[0].clone()]);
    assert!(store.reads[0].uploaded);
    assert_eq!(ReadStatus::Used, store.reads[0].status);
    assert!(!store.reads[1].uploaded);
}

#[test]
fn saver_notifies_only_when_something_was_stored() {
    let mut store = MemStore::new();
    let mut saver = ReadSaver::new();
    saver.push(read("A", 1, 0));
    saver.push(read("A", 1, 0));
    assert!(saver.drain(&mut store).unwrap());
    assert_eq!(0, saver.inbox.len());
    assert_eq!(1, store.reads.len());
    saver.push(read("A", 1, 0));
    assert!(!saver.drain(&mut store).unwrap());
    assert!(!saver.drain(&mut store).unwrap());
}

#[test]
fn running_out_of_identifiers_stores_nothing() {
    let mut store = MemStore::new();
    store.next_id = u64::MAX - 1;
    assert!(matches!(store.save_reads(&vec![read("A", 1, 0), read("B", 1, 0)]), Err(DBError::DataInsertionError(_))));
    assert_eq!(0, store.reads.len());
    assert_eq!(1, store.save_reads(&vec![read("A", 1, 0)]).unwrap());
    assert!(store.save_reader(&zebra("z", "ip", 1)).is_err());
}

#[test]
fn migration_plans() {
    assert_eq!(Migration::UpToDate, plan_migration(1, 1).unwrap());
    assert_eq!(Migration::CreateTables, plan_migration(1, 2).unwrap());
    assert!(matches!(plan_migration(0, 2), Err(DBError::InvalidVersion(_))));
    assert!(matches!(plan_migration(3, 2), Err(DBError::DatabaseTooNew(_))));
    assert_eq!(Migration::CreateTables, plan_setup(None).unwrap());
    assert_eq!(Migration::UpToDate, plan_setup(Some("1")).unwrap());
    assert_eq!(1, DATABASE_VERSION);
    assert!(matches!(plan_setup(Some("2")), Err(DBError::DatabaseTooNew(_))));
    assert!(matches!(plan_setup(Some("x")), Err(DBError::DataRetrievalError(_))));
    assert!(matches!(plan_setup(Some("70000")), Err(DBError::DataRetrievalError(_))));
}

#[test]
fn kind_names_round_trip() {
    for k in [ReaderKind::Zebra, ReaderKind::Impinj, ReaderKind::Rfid] {
        assert_eq!(Some(k), ReaderKind::from_name(k.name()));
    }
    assert_eq!(None, ReaderKind::from_name("random_type"));
    for k in [ApiKind::ChronokeepCloud, ApiKind::ChronokeepSelfHosted, ApiKind::ChronokeepRemote, ApiKind::ChronokeepRemoteSelf] {
        assert_eq!(Some(k), ApiKind::from_name(k.name()));
    }
    assert_eq!(Some(ApiKind::ChronokeepRemote), ApiKind::from_name("chronokeep-remote"));
    assert_eq!(None, ApiKind::from_name("invalid-type"));
}
