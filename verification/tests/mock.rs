use ckb::mock::{ChunkState, MockedResult, MockedScripts, Script, ScriptError, ScriptVersion};

fn result_bytes(err_type: u32, err_details: u32, cycles: u64) -> Vec<u8> {
    let mut v = Vec::new();
    v.extend_from_slice(&err_type.to_le_bytes());
    v.extend_from_slice(&err_details.to_le_bytes());
    v.extend_from_slice(&cycles.to_le_bytes());
    v
}

fn script(hash_type: u8, args: Vec<u8>) -> Script {
    Script { code_hash: [3u8; 32], hash_type, args }
}

fn message(e: ScriptError) -> String {
    match e {
        ScriptError::Mock(m) => m,
        other => panic!("unexpected error {:?}", other),
    }
}

#[test]
fn registry_insert_remove_contains() {
    let mut reg = MockedScripts::init();
    let a = [1u8; 32];
    let b = [2u8; 32];
    assert!(!reg.contains_data_hash(&a));
    assert!(reg.insert_data_hash(a));
    assert!(!reg.insert_data_hash(a));
    assert!(reg.contains_data_hash(&a));
    assert!(!reg.contains_type_hash(&a));
    assert!(reg.insert_type_hash(b));
    assert!(reg.contains_type_hash(&b));
    assert!(reg.remove_data_hash(&a));
    assert!(!reg.remove_data_hash(&a));
    assert!(!reg.contains_data_hash(&a));
    assert!(reg.remove_type_hash(&b));
    assert!(!reg.contains_type_hash(&b));
    reg.insert_data_hash(a);
    reg.insert_type_hash(b);
    reg.clear();
    assert!(!reg.contains_data_hash(&a));
    assert!(!reg.contains_type_hash(&b));
}

#[test]
fn contains_by_hash_type() {
    let mut reg = MockedScripts::init();
    reg.insert_data_hash([3u8; 32]);
    assert!(reg.contains(&script(0, vec![])));
    assert!(!reg.contains(&script(1, vec![])));
    assert!(reg.contains(&script(2, vec![])));
    assert!(!reg.contains(&script(3, vec![])));
    assert!(reg.contains(&script(4, vec![])));
    assert!(!reg.contains(&script(9, vec![])));
    reg.clear();
    reg.insert_type_hash([3u8; 32]);
    assert!(reg.contains(&script(1, vec![])));
    assert!(!reg.contains(&script(0, vec![])));
}

#[test]
fn resume_completed_adds_cycles() {
    let s = script(0, result_bytes(0, 0, 100));
    match MockedScripts::resume(ScriptVersion::V0, &s, 1000, 50) {
        MockedResult::Completed(c) => assert_eq!(c, 150),
        other => panic!("unexpected {:?}", other),
    }
}

#[test]
fn resume_suspends_past_limit() {
    let s = script(0, result_bytes(0, 0, 2000));
    match MockedScripts::resume(ScriptVersion::V0, &s, 1000, 50) {
        MockedResult::Suspended(c) => assert_eq!(c, 1050),
        other => panic!("unexpected {:?}", other),
    }
}

#[test]
fn resume_reports_mocked_error() {
    let s = script(0, result_bytes(1, 0xdead_beef, 10));
    match MockedScripts::resume(ScriptVersion::V0, &s, 1000, 0) {
        MockedResult::Error(e) => assert_eq!(message(e), "unknown error [0x00000001, 0xdeadbeef]"),
        other => panic!("unexpected {:?}", other),
    }
}

#[test]
fn resume_v1_reads_second_result() {
    let mut args = result_bytes(5, 5, 5);
    args.extend(result_bytes(0, 0, 7));
    let s = script(1, args);
    match MockedScripts::resume(ScriptVersion::V1, &s, 100, 1) {
        MockedResult::Completed(c) => assert_eq!(c, 8),
        other => panic!("unexpected {:?}", other),
    }
}

#[test]
fn resume_short_args() {
    let s = script(0, result_bytes(0, 0, 7));
    match MockedScripts::resume(ScriptVersion::V1, &s, 100, 0) {
        MockedResult::Error(e) => {
            assert_eq!(message(e), "no enough args (length is 16 but requires 16..32)")
        }
        other => panic!("unexpected {:?}", other),
    }
    let s = script(0, vec![0u8; 3]);
    match MockedScripts::execute(ScriptVersion::V0, &s, 100) {
        MockedResult::Error(e) => assert_eq!(message(e), "no enough args (length is 3 but requires 0..16)"),
        other => panic!("unexpected {:?}", other),
    }
}

#[test]
fn from_mocked_formats_hex() {
    let e = ScriptError::from_mocked(&[0x0a, 0, 0, 0, 0xff, 0xff, 0xff, 0xff]);
    assert_eq!(message(e), "unknown error [0x0000000a, 0xffffffff]");
}

#[test]
fn run_maps_outcomes() {
    let done = script(0, result_bytes(0, 0, 30));
    assert_eq!(MockedScripts::run(ScriptVersion::V0, &done, 30).unwrap(), 30);
    match MockedScripts::run(ScriptVersion::V0, &done, 29) {
        Err(ScriptError::ExceededMaximumCycles(c)) => assert_eq!(c, 29),
        other => panic!("unexpected {:?}", other),
    }
    let failed = script(0, result_bytes(2, 3, 1));
    assert_eq!(
        message(MockedScripts::run(ScriptVersion::V0, &failed, 10).unwrap_err()),
        "unknown error [0x00000002, 0x00000003]"
    );
}

#[test]
fn chunk_run_resumes_from_snapshot() {
    let s = script(0, result_bytes(0, 0, 30));
    assert_eq!(MockedScripts::chunk_run(ScriptVersion::V0, &s, 40, None).unwrap(), ChunkState::Completed(30));
    assert_eq!(MockedScripts::chunk_run(ScriptVersion::V0, &s, 40, Some(100)).unwrap(), ChunkState::Completed(130));
    assert_eq!(MockedScripts::chunk_run(ScriptVersion::V0, &s, 20, Some(100)).unwrap(), ChunkState::Suspended(120));
}

#[test]
fn resume_fits_only_where_the_reported_sum_fits() {
    let done = script(0, result_bytes(0, 0, 10));
    assert!(MockedScripts::resume_fits(ScriptVersion::V0, &done, 100, u64::MAX - 10));
    assert!(!MockedScripts::resume_fits(ScriptVersion::V0, &done, 100, u64::MAX - 9));
    let long = script(0, result_bytes(0, 0, 500));
    assert!(MockedScripts::resume_fits(ScriptVersion::V0, &long, 100, u64::MAX - 100));
    assert!(!MockedScripts::resume_fits(ScriptVersion::V0, &long, 100, u64::MAX - 99));
    let failed = script(0, result_bytes(4, 4, 1));
    assert!(MockedScripts::resume_fits(ScriptVersion::V0, &failed, u64::MAX, u64::MAX));
    let short = script(0, vec![]);
    assert!(MockedScripts::resume_fits(ScriptVersion::V0, &short, u64::MAX, u64::MAX));
}

#[test]
fn chunk_run_large_snapshot_without_overflow() {
    let short = script(0, vec![]);
    match MockedScripts::chunk_run(ScriptVersion::V0, &short, u64::MAX, Some(1)) {
        Err(e) => assert_eq!(message(e), "no enough args (length is 0 but requires 0..16)"),
        other => panic!("unexpected {:?}", other),
    }
    let done = script(0, result_bytes(0, 0, 5));
    assert_eq!(
        MockedScripts::chunk_run(ScriptVersion::V0, &done, u64::MAX, Some(u64::MAX - 5)).unwrap(),
        ChunkState::Completed(u64::MAX)
    );
    let failed = script(0, result_bytes(9, 1, 1));
    match MockedScripts::chunk_run(ScriptVersion::V0, &failed, u64::MAX, Some(u64::MAX)) {
        Err(e) => assert_eq!(message(e), "unknown error [0x00000009, 0x00000001]"),
        other => panic!("unexpected {:?}", other),
    }
}
