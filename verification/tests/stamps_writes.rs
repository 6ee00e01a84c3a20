use bowties::capture::create_new_layout_now;
use bowties::config_write::{action_bytes, classify_write, tally_writes, WriteOutcome};
use bowties::layout_types::validate_node_key;
use bowties::offline::{
    record_bowtie_metadata, record_offline_change, replace_offline_changes_now, set_bowtie_metadata, OfflineChangeInput,
    OfflineChangeKind, OfflineChangeStatus,
};
use bowties::placeholders::{check_profile_stem, new_placeholder_key};
use bowties::stamps::new_change_id;

fn input(kind: &str, offset: &str) -> OfflineChangeInput {
    OfflineChangeInput {
        kind: kind.to_string(),
        node_id: Some("050201020300".to_string()),
        space: Some(253),
        offset: Some(offset.to_string()),
        baseline_value: "1".to_string(),
        planned_value: "2".to_string(),
    }
}

fn is_uuid_shape(s: &str) -> bool {
    s.len() == 36
        && s.char_indices().all(|(i, c)| if [8, 13, 18, 23].contains(&i) { c == '-' } else { c.is_ascii_hexdigit() })
}

#[test]
fn change_ids_are_uuid_then_millis() {
    let id = new_change_id();
    assert!(is_uuid_shape(&id[..36]));
    assert_eq!(&id[36..37], "-");
    assert!(id[37..].parse::<i64>().is_ok());
    assert_ne!(new_change_id()[..36], id[..36]);
}

#[test]
fn recorded_change_gets_a_fresh_id() {
    let mut cache = Vec::new();
    let id = record_offline_change(&mut cache, true, input("config", "0x10")).unwrap();
    assert_eq!(cache.len(), 1);
    assert_eq!(cache[0].change_id, id);
    assert!(cache[0].status == OfflineChangeStatus::Pending);
    assert!(!cache[0].updated_at.is_empty());
    let again = record_offline_change(&mut cache, true, input("config", "0x10")).unwrap();
    assert_eq!(again, id);
    assert_eq!(cache.len(), 1);
    assert_eq!(record_offline_change(&mut cache, false, input("config", "0x10")).unwrap_err(), "No offline layout is active");
    assert_eq!(record_offline_change(&mut cache, true, input("bogus", "0x10")).unwrap_err(), "Invalid change kind: bogus");
}

#[test]
fn replaced_changes_share_one_time_and_get_distinct_ids() {
    let mut cache = Vec::new();
    let n = replace_offline_changes_now(&mut cache, true, vec![input("config", "0x10"), input("config", "0x20")]).unwrap();
    assert_eq!(n, 2);
    assert_ne!(cache[0].change_id, cache[1].change_id);
    assert_eq!(cache[0].updated_at, cache[1].updated_at);
    let err = replace_offline_changes_now(&mut cache, true, vec![input("config", "0x30"), input("nope", "0x40")]).unwrap_err();
    assert_eq!(err, "Invalid change kind: nope");
    assert_eq!(cache.len(), 2);
}

#[test]
fn new_layout_id_is_layout_dash_seconds() {
    let r = create_new_layout_now();
    assert!(r.layout_id.starts_with("layout-"));
    assert!(r.layout_id["layout-".len()..].parse::<i64>().unwrap() > 1_600_000_000);
    assert!(!r.created_at.is_empty());
}

#[test]
fn minted_placeholder_keys_are_valid_node_keys() {
    let key = new_placeholder_key();
    assert!(key.starts_with("placeholder:"));
    assert!(is_uuid_shape(&key[12..]));
    assert!(validate_node_key(&key).is_ok());
    assert!(check_profile_stem("tower-lcc").is_ok());
    assert_eq!(check_profile_stem("  ").unwrap_err(), "EmptyProfileStem");
}

#[test]
fn write_results_are_counted_by_outcome() {
    assert!(classify_write(&Ok(())) == WriteOutcome::Written);
    assert!(classify_write(&Err("Datagram rejected: error 0x1083".to_string())) == WriteOutcome::ReadOnly);
    assert!(classify_write(&Err("Timeout".to_string())) == WriteOutcome::Failed);
    let r = tally_writes(&vec![
        Some(Ok(())),
        Some(Err("code 1083".to_string())),
        Some(Err("Timeout".to_string())),
        Some(Ok(())),
        None,
    ]);
    assert_eq!(r.total, 5);
    assert_eq!(r.succeeded, 2);
    assert_eq!(r.read_only_rejected, 1);
    assert_eq!(r.failed, 1);
}

#[test]
fn bowtie_metadata_is_recorded_as_json_once_per_bowtie() {
    let mut cache = Vec::new();
    let id = set_bowtie_metadata(&mut cache, true, "05.01.01.01.FF.00.00.01", Some("Yard \"east\"".to_string()), vec!["a".to_string(), "b".to_string()]).unwrap();
    assert_eq!(cache.len(), 1);
    assert_eq!(cache[0].change_id, id);
    assert!(cache[0].kind == OfflineChangeKind::BowtieMetadata);
    assert_eq!(cache[0].baseline_value, "event:05.01.01.01.FF.00.00.01");
    assert_eq!(cache[0].planned_value, "{\"name\":\"Yard \\\"east\\\"\",\"tags\":[\"a\",\"b\"]}");
    assert!(cache[0].node_id.is_none() && cache[0].space.is_none() && cache[0].offset.is_none());
    let again = set_bowtie_metadata(&mut cache, true, "05.01.01.01.FF.00.00.01", None, vec![]).unwrap();
    assert_eq!(again, id);
    assert_eq!(cache.len(), 1);
    assert_eq!(cache[0].planned_value, "{\"name\":null,\"tags\":[]}");
    assert_eq!(set_bowtie_metadata(&mut cache, false, "x", None, vec![]).unwrap(), "");
    assert_eq!(cache.len(), 1);
}

#[test]
fn metadata_with_blank_id_is_refused() {
    let mut cache = Vec::new();
    let r = record_bowtie_metadata(&mut cache, "e", "{}".to_string(), " ".to_string(), "t".to_string());
    assert_eq!(r.unwrap_err(), "changeId must not be empty");
    assert!(cache.is_empty());
    let ok = record_bowtie_metadata(&mut cache, "e", "{}".to_string(), "id-1".to_string(), "t".to_string()).unwrap();
    assert_eq!(ok, "id-1");
    assert_eq!(cache[0].baseline_value, "event:e");
}

#[test]
fn action_trigger_bytes_follow_the_element_size() {
    assert_eq!(action_bytes(1, 1), vec![1]);
    assert_eq!(action_bytes(1, 0x1ff), vec![0xff]);
    assert_eq!(action_bytes(2, 0x1234), vec![0x12, 0x34]);
    assert_eq!(action_bytes(2, -1), vec![0xff, 0xff]);
    assert_eq!(action_bytes(4, 258), vec![0, 0, 1, 2]);
    assert_eq!(action_bytes(8, -2), vec![0xff, 0xff, 0xff, 0xff, 0xff, 0xff, 0xff, 0xfe]);
    assert_eq!(action_bytes(3, 0x0102), vec![0x02]);
    assert_eq!(action_bytes(0, 7), vec![7]);
}

#[test]
fn metadata_json_escapes_controls_and_backslashes() {
    let mut cache = Vec::new();
    set_bowtie_metadata(&mut cache, true, "e", Some("a\\b\tc\u{1}".to_string()), vec!["x\ny".to_string()]).unwrap();
    assert_eq!(cache[0].planned_value, "{\"name\":\"a\\\\b\\tc\\u0001\",\"tags\":[\"x\\ny\"]}");
}
