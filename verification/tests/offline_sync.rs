use bowties::cdi::{FieldMeta, LeafType};
use bowties::offline::{
    list_offline_changes, parse_offset, replace_offline_changes, revert_offline_change, same_change_target,
    set_offline_change, OfflineChange, OfflineChangeInput, OfflineChangeKind, OfflineChangeStatus,
};
use bowties::sync::{
    apply_sync_changes, build_sync_session, compute_layout_match_status, hex8_string, normalize_node_key,
    set_sync_mode, sync_target, ApplyCheck, ApplyProbe, SyncCheck, SyncMode, SyncProbe,
};

fn input(kind: &str, node: Option<&str>, offset: Option<&str>, baseline: &str, planned: &str) -> OfflineChangeInput {
    OfflineChangeInput {
        kind: kind.to_string(),
        node_id: node.map(|s| s.to_string()),
        space: Some(253),
        offset: offset.map(|s| s.to_string()),
        baseline_value: baseline.to_string(),
        planned_value: planned.to_string(),
    }
}

fn change(id: &str, kind: OfflineChangeKind, node: Option<&str>, offset: &str, baseline: &str, planned: &str) -> OfflineChange {
    OfflineChange {
        change_id: id.to_string(),
        kind,
        node_id: node.map(|s| s.to_string()),
        space: Some(253),
        offset: Some(offset.to_string()),
        baseline_value: baseline.to_string(),
        planned_value: planned.to_string(),
        status: OfflineChangeStatus::Pending,
        error: None,
        updated_at: "t0".to_string(),
    }
}

#[test]
fn offsets_parse_as_hex_addresses() {
    assert_eq!(parse_offset("0x00000120"), Some(0x120));
    assert_eq!(parse_offset("0X1f"), Some(0x1f));
    assert_eq!(parse_offset("ff"), Some(0xff));
    assert_eq!(parse_offset("0x+10"), Some(0x10));
    assert_eq!(parse_offset("0xFFFFFFFF"), Some(u32::MAX));
    assert_eq!(parse_offset("0x100000000"), None);
    assert_eq!(parse_offset("0x"), None);
    assert_eq!(parse_offset("0xZZ"), None);
    assert_eq!(parse_offset(""), None);
}

#[test]
fn change_rows_validate() {
    let mut c = change("id-1", OfflineChangeKind::Config, Some("050201020300"), "0x10", "1", "2");
    assert!(c.validate().is_ok());
    c.change_id = "  ".to_string();
    assert_eq!(c.validate().unwrap_err(), "changeId must not be empty");
    c.change_id = "id-1".to_string();
    c.status = OfflineChangeStatus::Failed;
    assert_eq!(c.validate().unwrap_err(), "failed rows must include error text");
    c.error = Some("\t".to_string());
    assert!(c.validate().is_err());
    c.error = Some("timeout".to_string());
    assert!(c.validate().is_ok());
}

#[test]
fn setting_a_change_upserts_on_the_same_target() {
    let mut cache: Vec<OfflineChange> = Vec::new();
    let id1 = set_offline_change(
        &mut cache,
        true,
        input("config", Some("05.02.01.02.03.00"), Some("0x10"), "1", "2"),
        "c-1".to_string(),
        "t1".to_string(),
    )
    .unwrap();
    assert_eq!(id1, "c-1");
    let id2 = set_offline_change(
        &mut cache,
        true,
        input("config", Some("05.02.01.02.03.00"), Some("0x10"), "1", "3"),
        "c-2".to_string(),
        "t2".to_string(),
    )
    .unwrap();
    assert_eq!(id2, "c-1");
    assert_eq!(cache.len(), 1);
    assert_eq!(cache[0].planned_value, "3");
    assert_eq!(cache[0].updated_at, "t2");
    let id3 = set_offline_change(
        &mut cache,
        true,
        input("bowtieMetadata", None, None, "", "Yard"),
        "c-3".to_string(),
        "t3".to_string(),
    )
    .unwrap();
    assert_eq!(id3, "c-3");
    assert_eq!(cache.len(), 2);
    assert!(same_change_target(&cache[0], &cache[0]));
    assert!(!same_change_target(&cache[0], &cache[1]));
}

#[test]
fn setting_a_change_reports_errors_and_leaves_the_list() {
    let mut cache: Vec<OfflineChange> = Vec::new();
    assert_eq!(
        set_offline_change(&mut cache, false, input("config", None, None, "", ""), "c".to_string(), "t".to_string())
            .unwrap_err(),
        "No offline layout is active"
    );
    assert_eq!(
        set_offline_change(&mut cache, true, input("bogus", None, None, "", ""), "c".to_string(), "t".to_string())
            .unwrap_err(),
        "Invalid change kind: bogus"
    );
    assert_eq!(
        set_offline_change(&mut cache, true, input("config", None, None, "", ""), " ".to_string(), "t".to_string())
            .unwrap_err(),
        "changeId must not be empty"
    );
    assert!(cache.is_empty());
}

#[test]
fn reverting_removes_the_change() {
    let mut cache = vec![
        change("a", OfflineChangeKind::Config, Some("050201020300"), "0x10", "1", "2"),
        change("b", OfflineChangeKind::Config, Some("050201020300"), "0x20", "1", "2"),
    ];
    assert_eq!(revert_offline_change(&mut cache, true, "a"), Ok(true));
    assert_eq!(cache.len(), 1);
    assert_eq!(cache[0].change_id, "b");
    assert_eq!(revert_offline_change(&mut cache, true, "a").unwrap_err(), "Change not found: a");
    assert_eq!(revert_offline_change(&mut cache, false, "b").unwrap_err(), "No offline layout is active");
    assert_eq!(cache.len(), 1);
}

#[test]
fn listing_names_kinds_and_statuses_in_lower_case() {
    let mut c = change("a", OfflineChangeKind::BowtieMetadata, None, "0x10", "", "x");
    c.status = OfflineChangeStatus::AlreadyApplied;
    let rows = list_offline_changes(&vec![c], true).unwrap();
    assert_eq!(rows[0].kind, "bowtiemetadata");
    assert_eq!(rows[0].status, "alreadyapplied");
    assert_eq!(rows[0].change_id, "a");
    assert!(list_offline_changes(&vec![], false).is_err());
}

#[test]
fn replacing_validates_every_row_first() {
    let mut cache = vec![change("old", OfflineChangeKind::Config, None, "0x10", "1", "2")];
    let bad = vec![
        (input("config", None, None, "", ""), "n1".to_string()),
        (input("nope", None, None, "", ""), "n2".to_string()),
    ];
    assert_eq!(replace_offline_changes(&mut cache, true, bad, "now").unwrap_err(), "Invalid change kind: nope");
    assert_eq!(cache[0].change_id, "old");
    let good = vec![
        (input("config", None, None, "", ""), "n1".to_string()),
        (input("bowtieEvent", None, None, "", ""), "n2".to_string()),
    ];
    assert_eq!(replace_offline_changes(&mut cache, true, good, "now"), Ok(2));
    assert_eq!(cache.len(), 2);
    assert_eq!(cache[1].change_id, "n2");
    assert!(cache[1].kind == OfflineChangeKind::BowtieEvent);
    assert_eq!(cache[1].updated_at, "now");
}

#[test]
fn layout_match_counts_distinct_node_keys() {
    let layout = vec!["05.02.01.02.03.00".to_string(), "050201020300".to_string(), "05.02.01.02.03.01".to_string()];
    let bus = vec!["050201020300".to_string(), "FFFFFFFFFFFF".to_string()];
    let m = compute_layout_match_status(true, &layout, &bus).unwrap();
    assert_eq!(m.total, 2);
    assert_eq!(m.matched, 1);
    assert_eq!(m.classification, "uncertain");
    assert_eq!(m.expected_thresholds.likely_same_min, 80);
    let none = compute_layout_match_status(true, &vec![], &bus).unwrap();
    assert_eq!(none.classification, "likely_different");
    let all = compute_layout_match_status(true, &bus, &bus).unwrap();
    assert_eq!(all.classification, "likely_same");
    assert_eq!(compute_layout_match_status(false, &layout, &bus).err().unwrap(), "No layout is active");
    assert_eq!(normalize_node_key("05.02.01.02.03.0a"), "05020102030A");
}

#[test]
fn sync_session_sorts_rows_by_bus_value() {
    let meta = FieldMeta { leaf_type: LeafType::Int, size: 1 };
    let checks = vec![
        SyncCheck {
            change: change("same", OfflineChangeKind::Config, Some("050201020300"), "0x10", "1", "2"),
            probe: SyncProbe::Read(meta, vec![2]),
        },
        SyncCheck {
            change: change("clean", OfflineChangeKind::Config, Some("050201020300"), "0x11", "1", "2"),
            probe: SyncProbe::Read(meta, vec![1]),
        },
        SyncCheck {
            change: change("conflict", OfflineChangeKind::Config, Some("050201020300"), "0x12", "1", "2"),
            probe: SyncProbe::Read(meta, vec![7]),
        },
        SyncCheck {
            change: change("meta", OfflineChangeKind::BowtieMetadata, None, "0x0", "", "x"),
            probe: SyncProbe::NodeAbsent,
        },
        SyncCheck {
            change: change("nonode", OfflineChangeKind::Config, None, "0x0", "", "x"),
            probe: SyncProbe::NodeAbsent,
        },
        SyncCheck {
            change: change("bad", OfflineChangeKind::Config, Some("zz"), "0x0", "", "x"),
            probe: SyncProbe::NodeAbsent,
        },
        SyncCheck {
            change: change("field", OfflineChangeKind::Config, Some("050201020300"), "0x120", "", "x"),
            probe: SyncProbe::FieldMissing,
        },
        SyncCheck {
            change: change("absent", OfflineChangeKind::Config, Some("050201020300"), "0x120", "", "x"),
            probe: SyncProbe::NodeAbsent,
        },
    ];
    let s = build_sync_session(&checks);
    assert_eq!(s.already_applied_count, 1);
    assert_eq!(s.clean_rows.len(), 2);
    assert_eq!(s.clean_rows[0].change_id, "clean");
    assert_eq!(s.clean_rows[0].bus_value.as_deref(), Some("1"));
    assert_eq!(s.clean_rows[1].change_id, "meta");
    assert_eq!(s.clean_rows[1].bus_value, None);
    assert_eq!(s.conflict_rows.len(), 1);
    assert_eq!(s.conflict_rows[0].bus_value.as_deref(), Some("7"));
    assert_eq!(s.conflict_rows[0].resolution, "unresolved");
    assert_eq!(s.node_missing_rows.len(), 4);
    assert_eq!(s.node_missing_rows[0].error.as_deref(), Some("No node ID"));
    assert_eq!(s.node_missing_rows[1].error.as_deref(), Some("Invalid node ID: zz"));
    assert_eq!(
        s.node_missing_rows[2].error.as_deref(),
        Some("Field not found in CDI at space=253 address=0x00000120")
    );
    assert_eq!(s.node_missing_rows[3].error, None);
}

#[test]
fn sync_targets_name_node_space_and_address() {
    let c = change("x", OfflineChangeKind::Config, Some("05.02.01.02.03.0a"), "0x120", "", "");
    let (node, key, space, address) = sync_target(&c).unwrap();
    assert_eq!(node.to_canonical(), "05020102030A");
    assert_eq!(key, "05020102030A");
    assert_eq!(space, 253);
    assert_eq!(address, 0x120);
    assert!(sync_target(&change("y", OfflineChangeKind::BowtieEvent, Some("050201020300"), "0x1", "", "")).is_none());
}

#[test]
fn apply_run_sorts_outcomes_and_clears_rows() {
    let mut cache = vec![
        change("w", OfflineChangeKind::Config, Some("050201020300"), "0x10", "1", "2"),
        change("ro", OfflineChangeKind::Config, Some("050201020300"), "0x11", "1", "2"),
        change("f", OfflineChangeKind::Config, Some("050201020300"), "0x12", "1", "2"),
        change("m", OfflineChangeKind::BowtieMetadata, None, "0x0", "", "x"),
        change("u", OfflineChangeKind::Config, Some("050201020300"), "0x13", "1", "abc"),
    ];
    let apply = vec![
        ApplyCheck { change_id: "w".to_string(), probe: ApplyProbe::Written },
        ApplyCheck { change_id: "ro".to_string(), probe: ApplyProbe::WriteFailed("error 0x1083 read only".to_string()) },
        ApplyCheck { change_id: "f".to_string(), probe: ApplyProbe::WriteFailed("Timeout".to_string()) },
        ApplyCheck { change_id: "m".to_string(), probe: ApplyProbe::NodeAbsent },
        ApplyCheck { change_id: "u".to_string(), probe: ApplyProbe::Unconvertible(LeafType::Int) },
        ApplyCheck { change_id: "gone".to_string(), probe: ApplyProbe::Written },
    ];
    let (res, details) = apply_sync_changes(&mut cache, true, true, &apply, &vec!["s".to_string()]).unwrap();
    assert_eq!(res.applied, vec!["w", "m"]);
    assert_eq!(res.read_only_cleared, vec!["ro"]);
    assert_eq!(res.skipped, vec!["s"]);
    assert_eq!(res.failed.len(), 3);
    assert_eq!(res.failed[0].reason, "Timeout");
    assert_eq!(res.failed[1].reason, "Cannot convert planned value 'abc' to bytes for leaf type Int");
    assert_eq!(res.failed[2].reason, "Change not found in cache");
    assert_eq!(details.len(), 1);
    assert_eq!(details[0].node_key, "050201020300");
    assert_eq!(details[0].offset, "0x10");
    assert_eq!(details[0].planned_value, "2");
    let left: Vec<String> = cache.iter().map(|c| c.change_id.clone()).collect();
    assert_eq!(left, vec!["f", "u"]);
    assert_eq!(
        apply_sync_changes(&mut cache, true, false, &apply, &vec![]).err().unwrap(),
        "Not connected to network"
    );
}

#[test]
fn addresses_format_as_eight_hex_digits() {
    assert_eq!(hex8_string(0x120), "0x00000120");
    assert_eq!(hex8_string(0xDEADBEEF), "0xdeadbeef");
    assert_eq!(set_sync_mode(SyncMode::TargetLayoutBus), "target_layout_bus");
    assert_eq!(set_sync_mode(SyncMode::BenchOtherBus), "bench_other_bus");
}

#[test]
fn reverting_a_new_change_restores_the_list() {
    let mut cache = vec![change("a", OfflineChangeKind::Config, Some("050201020300"), "0x10", "1", "2")];
    let id = set_offline_change(&mut cache, true, input("config", Some("050201020300"), Some("0x20"), "3", "4"), "b".to_string(), "t1".to_string()).unwrap();
    assert_eq!(id, "b");
    assert_eq!(cache.len(), 2);
    assert_eq!(revert_offline_change(&mut cache, true, "b"), Ok(true));
    assert_eq!(cache.len(), 1);
    assert_eq!(cache[0].change_id, "a");
    assert_eq!(revert_offline_change(&mut cache, true, "b").unwrap_err(), "Change not found: b");
}

#[test]
fn one_row_per_target_is_kept() {
    let mut cache = Vec::new();
    set_offline_change(&mut cache, true, input("config", Some("050201020300"), Some("0x10"), "1", "2"), "a".to_string(), "t1".to_string()).unwrap();
    let again = set_offline_change(&mut cache, true, input("config", Some("050201020300"), Some("0x10"), "1", "9"), "b".to_string(), "t2".to_string()).unwrap();
    assert_eq!(again, "a");
    assert_eq!(cache.len(), 1);
    assert_eq!(cache[0].planned_value, "9");
    assert_eq!(cache[0].updated_at, "t2");
}
