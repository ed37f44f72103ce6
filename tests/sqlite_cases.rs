use portal::commands::DEFAULT_ZEBRA_PORT;
use portal::participant::Participant;
use portal::read::{IdentType, Read, ReadStatus};
use portal::records::{ApiKind, Reader, ReaderKind, ResultsApi};
use portal::setting::Setting;
use portal::store::MemStore;

fn stored_read(chip: &str, seconds: u64, ms: u32, antenna: u32, rssi: &str, status: ReadStatus) -> Read {
    let mut r = Read::new(chip.to_string(), seconds, ms, seconds, ms, antenna, "reader-1".to_string(), rssi.to_string(), IdentType::Chip);
    r.status = status;
    r
}

fn make_reads() -> Vec<Read> {
    let mut output = vec![
        stored_read("1005", 1005, 100, 2, "-25dba", ReadStatus::Used),
        stored_read("1005", 11005, 90, 4, "-20dba", ReadStatus::TooSoon),
        // this entry should be ignored on save
        stored_read("1005", 1005, 100, 3, "-5dba", ReadStatus::Unused),
    ];
    for i in 1006u64..1100 {
        output.push(stored_read(&format!("{i}"), i, 100, 1, "-25dba", ReadStatus::Unused));
    }
    output
}

fn same_read(a: &Read, b: &Read) -> bool {
    a.chip == b.chip && a.seconds == b.seconds && a.milliseconds == b.milliseconds && a.antenna == b.antenna
        && a.reader == b.reader && a.rssi == b.rssi && a.status == b.status
}

fn zebra(id: u64, nickname: String, ip: String, port: u16) -> Reader {
    Reader { id, nickname, kind: ReaderKind::Zebra, ip_address: ip, port }
}

fn same_reader(a: &Reader, b: &Reader) -> bool {
    a.nickname == b.nickname && a.kind == b.kind && a.ip_address == b.ip_address && a.port == b.port
}

fn results_api(nickname: String, kind: ApiKind, token: String, uri: String) -> ResultsApi {
    ResultsApi { id: 0, nickname, kind, token, uri }
}

fn same_api(a: &ResultsApi, b: &ResultsApi) -> bool {
    a.nickname == b.nickname && a.kind == b.kind && a.token == b.token && a.uri == b.uri
}

fn part(bib: &str, first: &str, last: &str, age: u32, gender: &str, chip: &str, anonymous: bool) -> Participant {
    Participant {
        id: 0,
        bib: bib.to_string(),
        first: first.to_string(),
        last: last.to_string(),
        age,
        gender: gender.to_string(),
        age_group: "0-110".to_string(),
        distance: "50k".to_string(),
        chip: chip.to_string(),
        anonymous,
    }
}

fn make_participants() -> Vec<Participant> {
    vec![
        part("1005", "", "", 50, "F", "1005", true),
        part("1006", "John", "Smith", 22, "M", "1006", false),
        part("1007", "Jenny", "Appfelsauce", 34, "F", "1007", false),
        part("1008", "Jon", "Johnson", 20, "NB", "1008", false),
        part("1009", "George", "Analabousch", 65, "U", "1009", false),
    ]
}

fn same_participant(a: &Participant, b: &Participant) -> bool {
    a.bib == b.bib && a.first == b.first && a.last == b.last && a.age == b.age && a.gender == b.gender
        && a.age_group == b.age_group && a.distance == b.distance && a.chip == b.chip && a.anonymous == b.anonymous
}

#[test]
fn test_set_setting() {
    let mut store = MemStore::new();
    let setting = store.set_setting(&Setting::new("RANDOM_SETTING".to_string(), "random_value".to_string()));
    assert_eq!("RANDOM_SETTING", setting.name());
    assert_eq!("random_value", setting.value());
    let setting = store.set_setting(&Setting::new("RANDOM_SETTING".to_string(), "new_random_value".to_string()));
    assert_eq!("RANDOM_SETTING", setting.name());
    assert_eq!("new_random_value", setting.value());
}

#[test]
fn test_get_setting() {
    let mut store = MemStore::new();
    store.set_setting(&Setting::new("RANDOM_SETTING".to_string(), "random_value".to_string()));
    let setting = store.get_setting("RANDOM_SETTING").unwrap();
    assert_eq!("RANDOM_SETTING", setting.name());
    assert_eq!("random_value", setting.value());
    store.set_setting(&Setting::new("RANDOM_SETTING".to_string(), "new_random_value".to_string()));
    let setting = store.get_setting("RANDOM_SETTING").unwrap();
    assert_eq!("RANDOM_SETTING", setting.name());
    assert_eq!("new_random_value", setting.value());
}

#[test]
fn test_save_reader() {
    let mut store = MemStore::new();
    let original = zebra(0, "zebra-1".to_string(), "192.168.1.100".to_string(), DEFAULT_ZEBRA_PORT);
    assert_eq!(1, store.save_reader(&original).unwrap());
    let readers = store.get_readers().unwrap();
    assert_eq!(1, readers.len());
    assert!(same_reader(&original, &readers[0]));
    let updated = zebra(0, "zebra-1".to_string(), "random_ip".to_string(), 12345);
    assert_eq!(1, store.save_reader(&updated).unwrap());
    let readers = store.get_readers().unwrap();
    assert_eq!(1, readers.len());
    assert_eq!("zebra-1", readers[0].nickname);
    assert_eq!(ReaderKind::Zebra, readers[0].kind);
    assert_eq!("random_ip", readers[0].ip_address);
    assert_eq!(12345, readers[0].port);
    // an unknown kind cannot be made into a reader at all
    assert_eq!(None, ReaderKind::from_name("random_type"));
}

#[test]
fn test_get_readers() {
    let mut store = MemStore::new();
    let original = zebra(0, "zebra-1".to_string(), "192.168.1.101".to_string(), DEFAULT_ZEBRA_PORT + 1);
    store.save_reader(&original).unwrap();
    let readers = store.get_readers().unwrap();
    assert_eq!(1, readers.len());
    assert!(same_reader(&readers[0], &original));
    for i in 2u16..8 {
        store.save_reader(&zebra(0, format!("zebra-{i}"), format!("192.168.1.10{i}"), DEFAULT_ZEBRA_PORT + i)).unwrap();
    }
    let readers = store.get_readers().unwrap();
    assert_eq!(7, readers.len());
    for reader in readers {
        let num = reader.port - DEFAULT_ZEBRA_PORT;
        assert_eq!(format!("zebra-{num}"), reader.nickname);
        assert_eq!(ReaderKind::Zebra, reader.kind);
        assert_eq!(format!("192.168.1.10{num}"), reader.ip_address);
    }
}

#[test]
fn reserved_reader_kinds_cannot_be_loaded() {
    let mut store = MemStore::new();
    store.save_reader(&zebra(0, "zebra-1".to_string(), "192.168.1.101".to_string(), DEFAULT_ZEBRA_PORT)).unwrap();
    let impinj = Reader { id: 0, nickname: "impinj-1".to_string(), kind: ReaderKind::Impinj, ip_address: "10.0.0.1".to_string(), port: 5084 };
    store.save_reader(&impinj).unwrap();
    assert!(matches!(store.get_readers(), Err(portal::store::DBError::DataRetrievalError(_))));
    assert_eq!(1, store.delete_reader(&"impinj-1".to_string()));
    assert_eq!(1, store.get_readers().unwrap().len());
}

#[test]
fn test_delete_reader() {
    let mut store = MemStore::new();
    let original = zebra(0, "zebra-1".to_string(), "192.168.1.101".to_string(), DEFAULT_ZEBRA_PORT + 1);
    store.save_reader(&original).unwrap();
    let readers = store.get_readers().unwrap();
    assert_eq!(1, readers.len());
    assert!(same_reader(&readers[0], &original));
    assert_eq!(1, store.delete_reader(&original.nickname));
    assert_eq!(0, store.get_readers().unwrap().len());
    assert_eq!(0, store.delete_reader(&original.nickname));
    let middle = 4;
    for i in 0..(middle * 2) {
        store.save_reader(&zebra(0, format!("zebra-{i}"), format!("192.168.1.10{i}"), DEFAULT_ZEBRA_PORT)).unwrap();
    }
    assert_eq!(middle * 2, store.get_readers().unwrap().len());
    assert_eq!(1, store.delete_reader(&format!("zebra-{middle}")));
    assert_eq!((middle * 2) - 1, store.get_readers().unwrap().len());
}

#[test]
fn test_save_api() {
    let mut store = MemStore::new();
    let original = results_api(
        "results-api".to_string(),
        ApiKind::ChronokeepCloud,
        "random-token-value".to_string(),
        "https:://example.com/".to_string(),
    );
    assert_eq!(1, store.save_api(&original).unwrap());
    let apis = store.get_apis();
    assert_eq!(1, apis.len());
    assert!(same_api(&apis[0], &original));
    // same nickname, another (uri, token): a second row, since only (uri, token) is unique
    let other = results_api(
        original.nickname.clone(),
        ApiKind::ChronokeepSelfHosted,
        "a-different-random-token".to_string(),
        "https:://random.com/".to_string(),
    );
    assert_eq!(1, store.save_api(&other).unwrap());
    assert_eq!(2, store.get_apis().len());
    // the same (uri, token) again replaces the row
    assert_eq!(1, store.save_api(&original).unwrap());
    assert_eq!(2, store.get_apis().len());
    let renamed = results_api(
        "new-nickname".to_string(),
        ApiKind::ChronokeepSelfHosted,
        original.token.clone(),
        original.uri.clone(),
    );
    assert_eq!(1, store.save_api(&renamed).unwrap());
    let apis = store.get_apis();
    assert_eq!(2, apis.len());
    let row = apis.iter().find(|a| a.uri == original.uri && a.token == original.token).unwrap();
    assert_eq!("new-nickname", row.nickname);
    assert_eq!(ApiKind::ChronokeepSelfHosted, row.kind);
    // an unknown kind cannot be made into a service at all
    assert_eq!(None, ApiKind::from_name("invalid-type"));
}

#[test]
fn test_get_apis() {
    let mut store = MemStore::new();
    let original = results_api(
        "results-api".to_string(),
        ApiKind::ChronokeepCloud,
        "random-token-value".to_string(),
        "https:://example.com/".to_string(),
    );
    store.save_api(&original).unwrap();
    let apis = store.get_apis();
    assert!(same_api(&apis[0], &original));
    for i in 0..5 {
        store
            .save_api(&results_api(
                format!("api-{i}"),
                ApiKind::ChronokeepCloud,
                format!("token-number-10302031{i}"),
                "https::api.chronokeep.com/".to_string(),
            ))
            .unwrap();
    }
    assert_eq!(6, store.get_apis().len());
}

#[test]
fn test_delete_api() {
    let mut store = MemStore::new();
    let original = results_api(
        "results-api".to_string(),
        ApiKind::ChronokeepCloud,
        "random-token-value".to_string(),
        "https:://example.com/".to_string(),
    );
    store.save_api(&original).unwrap();
    assert_eq!(1, store.get_apis().len());
    assert_eq!(1, store.delete_api(&original.nickname));
    assert_eq!(0, store.get_apis().len());
    assert_eq!(0, store.delete_api(&original.nickname));
    for i in 0..10 {
        store
            .save_api(&results_api(
                format!("results-api-{i}"),
                ApiKind::ChronokeepCloud,
                format!("random-token-value-{i}"),
                "https:://example.com/".to_string(),
            ))
            .unwrap();
    }
    assert_eq!(10, store.get_apis().len());
    assert_eq!(1, store.delete_api(&"results-api-5".to_string()));
    assert_eq!(9, store.get_apis().len());
}

#[test]
fn test_save_reads() {
    let new_reads = make_reads();
    let mut store = MemStore::new();
    assert_eq!(new_reads.len() - 1, store.save_reads(&new_reads).unwrap());
    let temp = &new_reads[0];
    let updated = stored_read(&temp.chip, temp.seconds, temp.milliseconds, 500, "15dba", ReadStatus::Used);
    assert_eq!(0, store.save_reads(&vec![updated]).unwrap());
    // a status outside the four known ones cannot be represented
    assert_eq!(None, ReadStatus::from_code(255));
}

#[test]
fn test_get_reads() {
    let new_reads = make_reads();
    let mut store = MemStore::new();
    store.save_reads(&new_reads).unwrap();
    let reads = store.get_reads(0, 2000);
    assert_eq!(new_reads.len() - 2, reads.len());
    for outer in reads.iter() {
        assert!(new_reads.iter().any(|inner| same_read(outer, inner)));
    }
}

#[test]
fn test_delete_reads() {
    let new_reads = make_reads();
    let mut store = MemStore::new();
    let count = store.save_reads(&new_reads).unwrap();
    assert_eq!(1, store.delete_reads(2000, 90000));
    assert_eq!(count - 1, store.get_reads(0, 90000).len());
    assert_eq!(count - 1, store.delete_reads(0, 2000));
    assert_eq!(0, store.get_reads(0, 90000).len());
    assert_eq!(0, store.delete_reads(0, 90000));
}

#[test]
fn test_add_participants() {
    let participants = make_participants();
    let mut store = MemStore::new();
    assert_eq!(participants.len(), store.add_participants(&participants).unwrap());
    let parts = store.get_participants();
    for outer in participants.iter() {
        assert!(parts.iter().any(|inner| same_participant(outer, inner)));
    }
    let new_part = vec![Participant {
        id: 0,
        bib: "1009".to_string(),
        first: "Updated First".to_string(),
        last: "Updated Last".to_string(),
        age: 3,
        gender: "M".to_string(),
        age_group: "0-110".to_string(),
        distance: "50k".to_string(),
        chip: "1006".to_string(),
        anonymous: false,
    }];
    assert_eq!(1, store.add_participants(&new_part).unwrap());
    let parts = store.get_participants();
    // the row with chip 1006 is replaced; the row with bib 1009 stays, since
    // bib alone is no key: only (bib, first, last, distance) is
    assert_eq!(participants.len(), parts.len());
    assert!(parts.iter().any(|p| same_participant(&new_part[0], p)));
    assert_eq!(1, parts.iter().filter(|p| p.chip == "1006").count());
}

#[test]
fn test_delete_participants() {
    let participants = make_participants();
    let mut store = MemStore::new();
    store.add_participants(&participants).unwrap();
    assert_eq!(participants.len(), store.get_participants().len());
    assert_eq!(participants.len(), store.delete_participants());
    assert_eq!(0, store.get_participants().len());
}

#[test]
fn test_delete_participant() {
    let participants = make_participants();
    let mut store = MemStore::new();
    store.add_participants(&participants).unwrap();
    assert_eq!(participants.len(), store.get_participants().len());
    assert_eq!(1, store.delete_participant(&"1009".to_string()));
    assert_eq!(participants.len() - 1, store.get_participants().len());
    assert_eq!(0, store.delete_participant(&"1009".to_string()));
    assert_eq!(participants.len() - 1, store.get_participants().len());
    assert_eq!(0, store.delete_participant(&"invalid".to_string()));
    assert_eq!(participants.len() - 1, store.get_participants().len());
}
