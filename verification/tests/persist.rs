use rustload::common::Failure;
use rustload::database::{
    check_version, check_weights, compare_majors, filename_to_uri, uri_to_filename, ExeMapRow,
    MapRow, MarkovRecord, MarkovRow, VersionCheck,
};
use rustload::persist::{lookup, Rows, SeqIndex, Snapshot};
use rustload::proc::{MemInfo, ProcMap, Process};
use rustload::spy::{scan, update_model, Probe};
use rustload::state::{BadExe, Exe, Region, State};

fn rules(list: &[&str]) -> Vec<String> {
    list.iter().map(|s| s.to_string()).collect()
}

fn mapping(path: &str, offset: u64, length: u64) -> ProcMap {
    ProcMap { start: 0, end: length, offset, path: Some(path.to_string()) }
}

fn stored_region(seq: i32, path: &str, offset: u64, length: u64) -> Region {
    let mut r = Region::new(path.to_string(), offset, length);
    r.seq = seq;
    r
}

fn stored_exe(seq: i32, path: &str, time: i32) -> Exe {
    Exe {
        path: path.to_string(),
        time,
        update_time: 3,
        size: 0,
        running_timestamp: -1,
        change_timestamp: -1,
        seq,
    }
}

fn blob(weight: [[i32; 4]; 4]) -> Vec<u8> {
    let record =
        MarkovRecord { a_seq: 0, b_seq: 0, time: 0, time_to_leave: [0; 4], weight: Some(weight) };
    record.to_row().unwrap().weight
}

fn record(a_seq: i32, b_seq: i32, weight: Option<[[i32; 4]; 4]>) -> MarkovRecord {
    MarkovRecord { a_seq, b_seq, time: 17, time_to_leave: [1, 2, 3, 4], weight }
}

fn balanced() -> [[i32; 4]; 4] {
    [[3, 1, 1, 1], [0, 0, 0, 0], [2, 0, 2, 0], [0, 300, 70000, 70300]]
}

fn markov_row(a_seq: i32, b_seq: i32, weight: Vec<u8>) -> MarkovRow {
    MarkovRow { a_seq, b_seq, time: 17, time_to_leave: [1, 2, 3, 4], weight }
}

fn empty_snapshot() -> Snapshot {
    Snapshot {
        time: None,
        maps: Vec::new(),
        bad_exes: Vec::new(),
        exes: Vec::new(),
        exemaps: Vec::new(),
        markovs: Vec::new(),
    }
}

fn trained() -> State {
    let mut state = State::new();
    let probes = vec![
        Probe {
            path: "/usr/bin/x".to_string(),
            pid: 10,
            maps: Some(vec![mapping("/usr/lib/a.so", 0, 3000), mapping("/usr/lib/b b.so", 4096, 2000)]),
        },
        Probe {
            path: "/usr/bin/y".to_string(),
            pid: 11,
            maps: Some(vec![mapping("/usr/lib/a.so", 0, 3000)]),
        },
        Probe { path: "/usr/bin/tiny".to_string(), pid: 12, maps: Some(vec![mapping("/usr/lib/t.so", 0, 10)]) },
    ];
    let running = vec![
        Process { pid: 10, exe: "/usr/bin/x".to_string() },
        Process { pid: 11, exe: "/usr/bin/y".to_string() },
    ];
    scan(&mut state, &running, 1, None);
    state.advance(10);
    update_model(&mut state, &probes, &rules(&["/"]), 1000, 20);
    state.advance(10);
    scan(&mut state, &vec![Process { pid: 10, exe: "/usr/bin/x".to_string() }], 1, None);
    state.advance(10);
    update_model(&mut state, &Vec::new(), &rules(&["/"]), 1000, 20);
    state.set_time_to_leave(0, 3, 20.0f64.to_bits());
    state
}

#[test]
fn file_paths_become_file_uris() {
    assert_eq!(filename_to_uri("/tmp/foo.txt"), Ok("file:///tmp/foo.txt".to_string()));
    assert_eq!(filename_to_uri("/usr/lib/b b.so"), Ok("file:///usr/lib/b%20b.so".to_string()));
    assert_eq!(filename_to_uri("/"), Ok("file:///".to_string()));
    assert_eq!(filename_to_uri("relative/path"), Err(Failure::BadPath));
    assert_eq!(filename_to_uri(""), Err(Failure::BadPath));
}

#[test]
fn file_uris_become_file_paths() {
    assert_eq!(uri_to_filename("file:///tmp/foo.txt"), Ok("/tmp/foo.txt".to_string()));
    assert_eq!(uri_to_filename("file:///usr/lib/b%20b.so"), Ok("/usr/lib/b b.so".to_string()));
    assert_eq!(uri_to_filename("file://localhost/etc/passwd"), Ok("/etc/passwd".to_string()));
    assert_eq!(uri_to_filename("file://elsewhere/etc/passwd"), Err(Failure::BadUri));
    assert_eq!(uri_to_filename("not a uri"), Err(Failure::BadUri));
    assert_eq!(uri_to_filename("mailto:someone@example.org"), Err(Failure::BadUri));
    assert_eq!(uri_to_filename("file:///tmp/%ff"), Err(Failure::BadUri));
}

#[test]
fn versions_are_compared_by_their_major_number() {
    assert_eq!(check_version("1.4.2", "2.0.0"), Ok(VersionCheck::Newer));
    assert_eq!(check_version("2.0.0", "1.9.9"), Ok(VersionCheck::Older));
    assert_eq!(check_version("1.0.0", "1.9.9-beta.1"), Ok(VersionCheck::Same));
    assert_eq!(check_version("1.0", "1.0.0"), Err(Failure::BadVersion));
    assert_eq!(check_version("1.0.0", ""), Err(Failure::BadVersion));
    assert_eq!(compare_majors(1, 2), VersionCheck::Newer);
    assert_eq!(compare_majors(2, 1), VersionCheck::Older);
    assert_eq!(compare_majors(0, 0), VersionCheck::Same);
    assert_eq!(compare_majors(u64::MAX, u64::MAX), VersionCheck::Same);
}

#[test]
fn weights_are_stored_as_messagepack() {
    let zero = blob([[0; 4]; 4]);
    let mut expected = vec![0x94];
    for _ in 0..4 {
        expected.extend([0x94, 0, 0, 0, 0]);
    }
    assert_eq!(zero, expected);
    let packed = blob(balanced());
    assert_eq!(
        packed,
        vec![
            0x94, 0x94, 3, 1, 1, 1, 0x94, 0, 0, 0, 0, 0x94, 2, 0, 2, 0, 0x94, 0, 0xcd, 0x01, 0x2c,
            0xce, 0x00, 0x01, 0x11, 0x70, 0xce, 0x00, 0x01, 0x12, 0x9c
        ]
    );
    assert_eq!(MarkovRecord::from_row(&markov_row(4, 5, packed)), record(4, 5, Some(balanced())));
    let negative = [[-1, 0, 0, 0], [0; 4], [0; 4], [0, 0, i32::MIN, i32::MAX]];
    let row = markov_row(1, 2, blob(negative));
    assert_eq!(MarkovRecord::from_row(&row).weight, Some(negative));
}

#[test]
fn a_record_without_weights_has_no_row() {
    assert_eq!(record(1, 2, None).to_row().err(), Some(Failure::BadWeights));
    let row = record(1, 2, Some(balanced())).to_row().unwrap();
    assert_eq!((row.a_seq, row.b_seq, row.time, row.time_to_leave), (1, 2, 17, [1, 2, 3, 4]));
}

#[test]
fn a_blob_that_is_no_matrix_gives_a_record_without_weights() {
    assert_eq!(MarkovRecord::from_row(&markov_row(1, 2, vec![])), record(1, 2, None));
    assert_eq!(MarkovRecord::from_row(&markov_row(1, 2, vec![0x94, 0x94, 0, 0])).weight, None);
    assert_eq!(MarkovRecord::from_row(&markov_row(1, 2, vec![0xc0])).weight, None);
    let mut three = vec![0x93];
    for _ in 0..3 {
        three.extend([0x94, 0, 0, 0, 0]);
    }
    assert_eq!(MarkovRecord::from_row(&markov_row(1, 2, three)).weight, None);
}

#[test]
fn balanced_weights() {
    assert!(check_weights(&[[0; 4]; 4]));
    assert!(check_weights(&balanced()));
    assert!(!check_weights(&[[1, 0, 0, 0], [0; 4], [0; 4], [0; 4]]));
    assert!(!check_weights(&[[0, 1, 0, 0], [0; 4], [0; 4], [0; 4]]));
    assert!(!check_weights(&[[0; 4], [0; 4], [0; 4], [1, -1, 0, 0]]));
    assert!(check_weights(&[[0; 4], [0; 4], [0; 4], [i32::MAX, 0, 0, i32::MAX]]));
}

#[test]
fn lookup_finds_the_last_entry() {
    let table = vec![
        SeqIndex { seq: 5, index: 0 },
        SeqIndex { seq: 7, index: 1 },
        SeqIndex { seq: 5, index: 2 },
    ];
    assert_eq!(lookup(&table, 5), Some(2));
    assert_eq!(lookup(&table, 7), Some(1));
    assert_eq!(lookup(&table, 6), None);
    assert_eq!(lookup(&Vec::new(), 6), None);
}

#[test]
fn rows_of_regions_and_exes() {
    let mut r = stored_region(9, "/usr/lib/b b.so", 4096, 8192);
    r.update_time = 5;
    let row = r.to_row().unwrap();
    assert_eq!((row.seq, row.update_time, row.offset, row.length), (9, 5, 4096, 8192));
    assert_eq!(row.uri, "file:///usr/lib/b%20b.so");
    let back = Region::from_row(&row).unwrap();
    assert!(back.is_same(&r));
    assert_eq!((back.seq, back.update_time, back.block), (9, 5, -1));
    assert_eq!(stored_region(1, "relative", 0, 1).to_row().err(), Some(Failure::BadPath));
    let bad = MapRow { seq: 1, update_time: 0, offset: 0, length: 1, uri: "x".to_string() };
    assert_eq!(Region::from_row(&bad).err(), Some(Failure::BadUri));
    let wide = stored_region(1, "/a", (1 << 32) + 5, u64::MAX).to_row().unwrap();
    assert_eq!((wide.offset, wide.length), (5, -1));
    let back = Region::from_row(&MapRow { offset: -1, ..wide }).unwrap();
    assert_eq!((back.offset, back.length), (u64::MAX, u64::MAX));

    let e = stored_exe(4, "/usr/bin/x", 77);
    let row = e.to_row().unwrap();
    assert_eq!((row.seq, row.update_time, row.time, row.uri.as_str()), (4, 3, 77, "file:///usr/bin/x"));
    let back = Exe::from_row(&row).unwrap();
    assert_eq!(back.path, "/usr/bin/x");
    assert_eq!((back.seq, back.time, back.update_time), (4, 77, 3));
    assert_eq!((back.running_timestamp, back.change_timestamp, back.size), (-1, -1, 0));

    let b = BadExe { path: "/usr/bin/tiny".to_string(), size: 1234 };
    let row = b.to_row().unwrap();
    assert_eq!((row.update_time, row.uri.as_str()), (1234, "file:///usr/bin/tiny"));
    let back = BadExe::from_row(&row).unwrap();
    assert_eq!((back.path.as_str(), back.size), ("/usr/bin/tiny", 1234));
}

#[test]
fn read_state_of_nothing() {
    let state = State::read_state(&empty_snapshot(), 20).unwrap();
    assert_eq!(state.time, 0);
    assert!(state.exes.is_empty() && state.maps.is_empty() && state.chains.is_empty());
    let mut snapshot = empty_snapshot();
    snapshot.time = Some(500);
    let state = State::read_state(&snapshot, 20).unwrap();
    assert_eq!(state.time, 500);
    assert_eq!(state.last_accounting_timestamp, 500);
}

#[test]
fn read_state_joins_by_stored_numbers() {
    let mut snapshot = empty_snapshot();
    snapshot.time = Some(100);
    snapshot.maps = vec![stored_region(7, "/lib/a", 0, 100), stored_region(3, "/lib/b", 0, 50)];
    snapshot.exes = vec![stored_exe(20, "/bin/x", 40), stored_exe(10, "/bin/y", 50)];
    snapshot.bad_exes = vec![BadExe { path: "/bin/tiny".to_string(), size: 9 }];
    snapshot.exemaps = vec![
        ExeMapRow { seq: 10, map_seq: 7, prob: 11 },
        ExeMapRow { seq: 20, map_seq: 3, prob: 12 },
        ExeMapRow { seq: 99, map_seq: 3, prob: 13 },
        ExeMapRow { seq: 10, map_seq: 99, prob: 14 },
        ExeMapRow { seq: 10, map_seq: 7, prob: 15 },
    ];
    snapshot.markovs = vec![
        record(10, 20, Some(balanced())),
        record(10, 99, None),
        record(20, 20, None),
        record(20, 10, None),
    ];
    let state = State::read_state(&snapshot, 30).unwrap();
    assert_eq!(state.maps.iter().map(|m| m.seq).collect::<Vec<_>>(), vec![1, 2]);
    assert_eq!(state.exes.iter().map(|e| e.seq).collect::<Vec<_>>(), vec![1, 2]);
    assert_eq!(state.exes[0].path, "/bin/x");
    let uses: Vec<(usize, usize, u64)> = state.exemaps.iter().map(|u| (u.exe, u.map, u.prob)).collect();
    assert_eq!(uses, vec![(1, 0, 11), (0, 1, 12)]);
    assert_eq!(state.exes[1].size, 100);
    assert_eq!(state.exes[0].size, 50);
    assert_eq!(state.chains.len(), 1);
    let c = &state.chains[0];
    assert_eq!((c.a, c.b, c.state, c.time, c.change_timestamp, c.cycle), (1, 0, 0, 17, 0, 30));
    assert_eq!(c.weight, balanced());
    assert_eq!(c.time_to_leave, [1, 2, 3, 4]);
    assert_eq!(state.bad_exes.len(), 1);
    assert!(state.running_exes.is_empty());
}

#[test]
fn read_state_failures() {
    let mut snapshot = empty_snapshot();
    snapshot.maps = vec![stored_region(7, "/lib/a", 0, 100), stored_region(7, "/lib/b", 0, 50)];
    assert_eq!(State::read_state(&snapshot, 20).err(), Some(Failure::DuplicateSeq));

    let mut snapshot = empty_snapshot();
    snapshot.exes = vec![stored_exe(1, "/bin/x", 0), stored_exe(1, "/bin/y", 0)];
    assert_eq!(State::read_state(&snapshot, 20).err(), Some(Failure::DuplicateSeq));

    let mut snapshot = empty_snapshot();
    snapshot.exes = vec![stored_exe(1, "/bin/x", 0), stored_exe(2, "/bin/x", 0)];
    assert_eq!(State::read_state(&snapshot, 20).err(), Some(Failure::DuplicateExe));

    let mut snapshot = empty_snapshot();
    snapshot.exes = vec![stored_exe(1, "/bin/x", 0), stored_exe(2, "/bin/y", 0)];
    snapshot.markovs = vec![record(1, 2, None)];
    assert_eq!(State::read_state(&snapshot, 20).err(), Some(Failure::BadBlob));
    snapshot.markovs = vec![record(1, 2, Some([[1, 0, 0, 0], [0; 4], [0; 4], [0; 4]]))];
    assert_eq!(State::read_state(&snapshot, 20).err(), Some(Failure::BadBlob));
}

#[test]
fn read_state_takes_an_equal_region_once() {
    let mut snapshot = empty_snapshot();
    snapshot.maps = vec![stored_region(1, "/lib/a", 0, 100), stored_region(2, "/lib/a", 0, 100)];
    snapshot.exes = vec![stored_exe(1, "/bin/x", 0)];
    snapshot.exemaps = vec![ExeMapRow { seq: 1, map_seq: 2, prob: 1 }];
    let state = State::read_state(&snapshot, 20).unwrap();
    assert_eq!(state.maps.len(), 1);
    assert_eq!((state.exemaps[0].exe, state.exemaps[0].map), (0, 0));
}

#[test]
fn save_then_load_then_save_gives_the_same_rows() {
    let state = trained();
    let first = state.write_state().to_rows("1.2.3").unwrap();
    assert_eq!(first.state.as_ref().unwrap().version, "1.2.3");
    assert_eq!(first.state.as_ref().unwrap().time, 30);
    assert_eq!(first.maps.len(), 2);
    assert_eq!(first.maps[1].uri, "file:///usr/lib/b%20b.so");
    assert_eq!(first.exes.len(), 2);
    assert_eq!(first.badexes.len(), 1);
    assert_eq!(first.exemaps.len(), 3);
    assert_eq!(first.markovs.len(), 1);
    let kept = format!("{:?}", first);
    assert_eq!(first.read_self("1.0.0"), Ok(VersionCheck::Same));
    let loaded = State::load(
        &first.to_snapshot().unwrap(),
        VersionCheck::Same,
        20,
        &Vec::new(),
        1,
        None,
        MemInfo::zero(),
    )
    .unwrap();
    let second = loaded.write_state().to_rows("1.2.3").unwrap();
    assert_eq!(format!("{:?}", second), kept);
    assert_eq!(second.markovs[0].time_to_leave[3], 20.0f64.to_bits());
}

#[test]
fn a_state_of_a_newer_version_is_ignored() {
    let rows = trained().write_state().to_rows("2.0.0").unwrap();
    let check = rows.read_self("1.9.0").unwrap();
    assert_eq!(check, VersionCheck::Newer);
    let state =
        State::load(&rows.to_snapshot().unwrap(), check, 20, &Vec::new(), 1, None, MemInfo::zero())
            .unwrap();
    assert!(state.exes.is_empty() && state.maps.is_empty() && state.chains.is_empty());
    assert_eq!(state.time, 0);
}

#[test]
fn a_state_of_an_older_version_is_taken_in() {
    let rows = trained().write_state().to_rows("1.0.0").unwrap();
    let check = rows.read_self("2.0.0").unwrap();
    assert_eq!(check, VersionCheck::Older);
    let state =
        State::load(&rows.to_snapshot().unwrap(), check, 20, &Vec::new(), 1, None, MemInfo::zero())
            .unwrap();
    assert_eq!(state.exes.len(), 2);
    assert_eq!(state.time, 30);
}

#[test]
fn load_tells_the_model_what_is_running() {
    let rows = trained().write_state().to_rows("1.0.0").unwrap();
    let running = vec![
        Process { pid: 1, exe: "/usr/bin/x".to_string() },
        Process { pid: 20, exe: "/usr/bin/y".to_string() },
        Process { pid: 21, exe: "/usr/bin/y".to_string() },
        Process { pid: 22, exe: "/usr/bin/unknown".to_string() },
    ];
    let snapshot = MemInfo { total: 5, free: 4, buffers: 3, cached: 2, pagein: 1, pageout: 0 };
    let state = State::load(
        &rows.to_snapshot().unwrap(),
        VersionCheck::Same,
        20,
        &running,
        1,
        None,
        snapshot,
    )
    .unwrap();
    assert_eq!(state.running_exes, vec![1]);
    assert_eq!(state.exes[1].running_timestamp, 30);
    assert_eq!(state.exes[0].running_timestamp, -1);
    assert_eq!(state.last_running_timestamp, 30);
    assert_eq!(state.chains[0].state, 2);
    assert_eq!(state.memstat, snapshot);
    assert_eq!(state.memstat_timestamp, 30);
    assert!(state.new_exes.is_empty());
}

#[test]
fn a_bad_blob_fails_the_load_only_where_its_row_joins() {
    let mut rows = trained().write_state().to_rows("1.0.0").unwrap();
    rows.markovs.push(markov_row(98, 99, vec![0xc0]));
    let snapshot = rows.to_snapshot().unwrap();
    assert_eq!(State::read_state(&snapshot, 20).unwrap().chains.len(), 1);
    let mut rows = trained().write_state().to_rows("1.0.0").unwrap();
    rows.markovs[0].weight = vec![0xc0];
    let snapshot = rows.to_snapshot().unwrap();
    assert_eq!(State::read_state(&snapshot, 20).err(), Some(Failure::BadBlob));
}

#[test]
fn rows_with_a_bad_uri_are_refused() {
    let mut rows = trained().write_state().to_rows("1.0.0").unwrap();
    rows.exes[1].uri = "nonsense".to_string();
    assert_eq!(rows.to_snapshot().err(), Some(Failure::BadUri));
    let mut state = trained();
    state.bad_exes[0].path = "relative".to_string();
    assert_eq!(state.write_state().to_rows("1.0.0").err(), Some(Failure::BadPath));
}

fn no_rows() -> Rows {
    Rows {
        state: None,
        maps: Vec::new(),
        badexes: Vec::new(),
        exes: Vec::new(),
        exemaps: Vec::new(),
        markovs: Vec::new(),
    }
}

#[test]
fn a_store_without_a_state_row_says_so() {
    assert_eq!(no_rows().read_self("1.0.0"), Ok(VersionCheck::NoState));
    assert_eq!(no_rows().read_self("not a version"), Ok(VersionCheck::NoState));
    let (state, check) =
        no_rows().load("1.0.0", 20, &Vec::new(), 1, None, MemInfo::zero()).unwrap();
    assert_eq!(check, VersionCheck::NoState);
    assert!(state.exes.is_empty());
    assert_eq!(state.time, 0);
}

#[test]
fn rows_load_looks_at_the_version_first() {
    let mut rows = trained().write_state().to_rows("2.0.0").unwrap();
    rows.exes[0].uri = "nonsense".to_string();
    let (state, check) = rows.load("1.0.0", 20, &Vec::new(), 1, None, MemInfo::zero()).unwrap();
    assert_eq!(check, VersionCheck::Newer);
    assert!(state.exes.is_empty() && state.maps.is_empty());

    let mut rows = trained().write_state().to_rows("1.0.0").unwrap();
    rows.exes[0].uri = "nonsense".to_string();
    assert_eq!(
        rows.load("1.0.0", 20, &Vec::new(), 1, None, MemInfo::zero()).err(),
        Some(Failure::BadUri)
    );

    let rows = trained().write_state().to_rows("bad").unwrap();
    assert_eq!(
        rows.load("1.0.0", 20, &Vec::new(), 1, None, MemInfo::zero()).err(),
        Some(Failure::BadVersion)
    );

    let rows = trained().write_state().to_rows("1.0.0").unwrap();
    let running = vec![Process { pid: 20, exe: "/usr/bin/y".to_string() }];
    let (state, check) = rows.load("1.5.0", 20, &running, 1, None, MemInfo::zero()).unwrap();
    assert_eq!(check, VersionCheck::Same);
    assert_eq!(state.exes.len(), 2);
    assert_eq!(state.running_exes, vec![1]);
}

#[test]
fn a_saved_model_always_has_rows_where_its_paths_have_uris() {
    let state = trained();
    assert!(state.write_state().to_rows("1.0.0").is_ok());
    let nothing = Snapshot {
        time: None,
        maps: Vec::new(),
        bad_exes: Vec::new(),
        exes: Vec::new(),
        exemaps: Vec::new(),
        markovs: Vec::new(),
    };
    let rows = nothing.to_rows("1.0.0").unwrap();
    assert!(rows.state.is_none() && rows.markovs.is_empty());
    let mut snapshot = trained().write_state();
    snapshot.markovs[0].weight = None;
    assert_eq!(snapshot.to_rows("1.0.0").err(), Some(Failure::BadWeights));
}
