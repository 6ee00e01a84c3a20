use bowties::capture::{capture_summary, close_layout, create_new_layout_capture, CloseLayoutDecision};
use bowties::cdi::{FieldMeta, LeafType};
use bowties::diagnostics::{
    generate_summary, CdiDownloadStats, DiagError, DiagnosticStats, DiscoveryStats, NodeConfigReadStats,
    NodeDiscoveryStat,
};
use bowties::facility::{
    bicolor_pin_events, consumer_leaf_index_for_style, lamp_event_leaf_map, lamp_row_pin_events, parse_hex_id,
    producer_leaf_index_for_style,
};
use bowties::layout_io::{derive_companion_dir_name, derive_companion_dir_path, derive_node_file_path};
use bowties::layout_types::{apply_layout_delta, recent_layout_now, LayoutEditDelta, LayoutFile};
use bowties::offline::{change_kind_name, change_status_name, parse_change_kind, OfflineChangeKind, OfflineChangeStatus};
use bowties::strmap::StrMap;
use bowties::sync::bus_read_size;
use bowties::values::{field_meta_to_leaf, raw_bytes_to_value_string, string_to_config_value, TreeValue};

#[test]
fn layout_close_and_new_layout_ids() {
    let c = close_layout(CloseLayoutDecision::Cancel);
    assert!(!c.closed);
    assert_eq!(c.reason.as_deref(), Some("cancelled"));
    assert!(close_layout(CloseLayoutDecision::Save).closed);
    assert!(close_layout(CloseLayoutDecision::Discard).reason.is_none());
    let n = create_new_layout_capture("2026-05-01T00:00:00Z", -12);
    assert_eq!(n.layout_id, "layout--12");
    assert_eq!(n.created_at, "2026-05-01T00:00:00Z");
    let s = capture_summary("t", &vec![]);
    assert_eq!((s.node_count, s.complete_count, s.partial_count), (0, 0, 0));
}

#[test]
fn companion_paths_follow_the_layout_file() {
    assert_eq!(derive_companion_dir_name("/x/yard.bowties-layout.yaml").unwrap(), "yard.layout.d");
    assert_eq!(derive_companion_dir_name("/x/yard.yml").unwrap(), "yard.layout.d");
    assert_eq!(derive_companion_dir_name("/x/yard").unwrap(), "yard.layout.d");
    assert_eq!(derive_companion_dir_name("/tmp/x/").unwrap(), "x.layout.d");
    assert_eq!(derive_companion_dir_name("/tmp/x/.").unwrap(), "x.layout.d");
    assert_eq!(derive_companion_dir_name("/tmp/x/..").unwrap_err(), "Invalid base layout filename: /tmp/x/..");
    assert_eq!(derive_companion_dir_path("/tmp/x/").unwrap(), "/tmp/x.layout.d");
    assert_eq!(derive_companion_dir_path("/yard.layout").unwrap(), "/yard.layout.d");
    assert_eq!(derive_companion_dir_path("yard.yaml").unwrap(), "yard.layout.d");
    assert_eq!(derive_companion_dir_path("a/./b.yml").unwrap(), "a/b.layout.d");
    assert_eq!(derive_companion_dir_path("/x/yard.layout").unwrap(), "/x/yard.layout.d");
    assert_eq!(derive_companion_dir_path("/").unwrap_err(), "Layout file has no parent directory: /");
    assert_eq!(derive_node_file_path("/x/nodes", "050201020300ab"), "/x/nodes/050201020300AB.yaml");
    assert_eq!(derive_node_file_path("/x/nodes/", "ß"), "/x/nodes/SS.yaml");
    assert_eq!(derive_node_file_path("", "a"), "A.yaml");
}

#[test]
fn event_ids_in_hex_and_lamp_pins() {
    assert_eq!(parse_hex_id("05.01.01.01.22.00.00.FF"), Some([5, 1, 1, 1, 0x22, 0, 0, 0xFF]));
    assert_eq!(parse_hex_id("05 01 01 01 22 00 00 ff"), Some([5, 1, 1, 1, 0x22, 0, 0, 0xFF]));
    assert_eq!(parse_hex_id("05.01.01.01.22.00.00"), None);
    let p = producer_leaf_index_for_style("bod-block-detector-input").unwrap();
    assert_eq!(p.get("occupied"), Some(&0));
    assert_eq!(p.get("clear"), Some(&1));
    assert!(producer_leaf_index_for_style("other").is_none());
    assert!(consumer_leaf_index_for_style("single-led-direct-lamp").is_some());
    assert!(consumer_leaf_index_for_style("bod-block-detector-input").is_none());
    let lamp = lamp_event_leaf_map();
    assert_eq!(lamp.get("on"), Some(&0));
    assert_eq!(lamp.get("off"), Some(&1));

    let mut ev = StrMap::new();
    ev.insert("on".to_string(), "05.01.01.01.22.00.00.01".to_string());
    assert_eq!(
        lamp_row_pin_events(3, Some(&ev)).err().unwrap(),
        "lamp row 3 Off event not available — read config from the Signal LCC node first"
    );
    ev.insert("off".to_string(), "zz".to_string());
    assert_eq!(lamp_row_pin_events(3, Some(&ev)).err().unwrap(), "lamp row 3 Off event invalid hex: zz");
    ev.insert("off".to_string(), "0501010122000002".to_string());
    let pins = lamp_row_pin_events(3, Some(&ev)).ok().unwrap();
    assert_eq!(pins.on_event, [5, 1, 1, 1, 0x22, 0, 0, 1]);
    assert_eq!(pins.off_event, [5, 1, 1, 1, 0x22, 0, 0, 2]);
    assert_eq!(lamp_row_pin_events(7, None).err().unwrap(), "lamp row 7 not found in CDI tree");
    let empty: StrMap<String> = StrMap::new();
    assert_eq!(
        lamp_row_pin_events(0, Some(&empty)).err().unwrap(),
        "lamp row 0 On event not available — read config from the Signal LCC node first"
    );
}

#[test]
fn diagnostics_summary_lines() {
    let mut stats = DiagnosticStats {
        app_version: "1".to_string(),
        connected_at: None,
        adapter_type: None,
        connection_label: None,
        baud_rate: None,
        flow_control: None,
        frame_encoding: None,
        discovery: DiscoveryStats { probes: vec![], nodes: vec![] },
        cdi_downloads: StrMap::new(),
        config_reads: StrMap::new(),
        event_role_exchange: None,
        errors: vec![],
    };
    assert!(generate_summary(&stats).is_empty());
    stats.discovery.nodes.push(NodeDiscoveryStat { node_id: "a".to_string(), snip_name: None, ms_after_connect: 40, snip_query_duration_ms: None });
    stats.discovery.nodes.push(NodeDiscoveryStat { node_id: "b".to_string(), snip_name: None, ms_after_connect: 250, snip_query_duration_ms: None });
    let dl = |from_cache: bool, bytes: usize| CdiDownloadStats {
        node_id: "a".to_string(), snip_name: None, from_cache, total_bytes: bytes, chunks: 0,
        chunk_durations_ms: vec![], retries: 0, total_duration_ms: 0,
    };
    stats.cdi_downloads.insert("a".to_string(), dl(false, 1000));
    stats.cdi_downloads.insert("b".to_string(), dl(true, 500));
    stats.cdi_downloads.insert("c".to_string(), dl(false, 24));
    stats.config_reads.insert("a".to_string(), NodeConfigReadStats {
        node_id: "a".to_string(), snip_name: None, snip: None, total_batches: 1, successful_batches: 1,
        failed_batches: 0, total_elements: 12, successful_elements: 10, failed_elements: 2, total_duration_ms: 0,
        batch_stats: vec![],
    });
    let err = |t: &str| DiagError { at: "t".to_string(), phase: "p".to_string(), node_id: None, error_type: t.to_string(), detail: String::new() };
    stats.errors = vec![err("timeout"), err("timeout"), err("other-kind")];
    assert_eq!(
        generate_summary(&stats),
        vec![
            "Discovery: 2 node(s) found in 250ms".to_string(),
            "CDI: 2 downloaded (1024 bytes), 1 from cache".to_string(),
            "Config: 1 node(s) read (12 elements, 2 failed)".to_string(),
            "Errors: 2 timeout(s), 1 other".to_string(),
        ]
    );
}

#[test]
fn change_kinds_and_statuses_have_names() {
    assert!(parse_change_kind("bowtieEvent").unwrap() == OfflineChangeKind::BowtieEvent);
    assert_eq!(parse_change_kind("Config").err().unwrap(), "Invalid change kind: Config");
    assert_eq!(change_kind_name(OfflineChangeKind::BowtieMetadata), "bowtiemetadata");
    assert_eq!(change_status_name(OfflineChangeStatus::Pending), "pending");
}

#[test]
fn values_convert_between_text_and_bytes() {
    let int_leaf = field_meta_to_leaf(&FieldMeta { leaf_type: LeafType::Int, size: 2 }, 253, 0x10);
    assert_eq!(int_leaf.address, 0x10);
    assert_eq!(int_leaf.size, 2);
    assert!(matches!(string_to_config_value("-42", &int_leaf), Some(TreeValue::Int { value: -42 })));
    assert!(string_to_config_value("4x", &int_leaf).is_none());
    let ev_leaf = field_meta_to_leaf(&FieldMeta { leaf_type: LeafType::EventId, size: 8 }, 253, 0);
    match string_to_config_value("05.01.01.01.22.00.00.0A", &ev_leaf) {
        Some(TreeValue::EventId { bytes, hex }) => {
            assert_eq!(bytes, [5, 1, 1, 1, 0x22, 0, 0, 0x0A]);
            assert_eq!(hex, "05.01.01.01.22.00.00.0A");
        }
        _ => panic!("expected an event id"),
    }
    assert!(string_to_config_value("05.01.01", &ev_leaf).is_none());
    let meta = FieldMeta { leaf_type: LeafType::Int, size: 2 };
    assert_eq!(raw_bytes_to_value_string(&meta, &[0xFF, 0xFE]).as_deref(), Some("-2"));
    assert_eq!(raw_bytes_to_value_string(&FieldMeta { leaf_type: LeafType::Int, size: 1 }, &[0xFF]).as_deref(), Some("255"));
    assert_eq!(raw_bytes_to_value_string(&FieldMeta { leaf_type: LeafType::String, size: 8 }, b"Ab\xFFc\0zz").as_deref(), Some("Abc"));
    assert_eq!(
        raw_bytes_to_value_string(&FieldMeta { leaf_type: LeafType::EventId, size: 8 }, &[5, 1, 1, 1, 0x22, 0, 0, 0x0A]).as_deref(),
        Some("05.01.01.01.22.00.00.0A")
    );
    assert_eq!(bus_read_size(&FieldMeta { leaf_type: LeafType::String, size: 100 }), 64);
    assert_eq!(bus_read_size(&FieldMeta { leaf_type: LeafType::String, size: 16 }), 16);
}

#[test]
fn layout_deltas_and_recent_layouts() {
    let mut layout = LayoutFile::default();
    apply_layout_delta(&mut layout, LayoutEditDelta::CreateBowtie { event_id_hex: "05.01.01.01.FF.00.00.01".to_string(), name: Some("Yard".to_string()) });
    assert_eq!(layout.bowties.get("05.01.01.01.FF.00.00.01").unwrap().name.as_deref(), Some("Yard"));
    let r = recent_layout_now("/x/yard.layout".to_string());
    assert_eq!(r.path, "/x/yard.layout");
    assert!(!r.last_opened.is_empty());
}

#[test]
fn bicolor_channel_takes_two_consecutive_rows() {
    let mut red = StrMap::new();
    red.insert("on".to_string(), "05.01.01.01.22.00.00.01".to_string());
    red.insert("off".to_string(), "05.01.01.01.22.00.00.02".to_string());
    let mut green = StrMap::new();
    green.insert("on".to_string(), "05.01.01.01.22.00.00.03".to_string());
    green.insert("off".to_string(), "05.01.01.01.22.00.00.04".to_string());
    let pins = bicolor_pin_events(4, Some(&red), Some(&green)).ok().unwrap();
    assert_eq!(pins.len(), 2);
    assert_eq!(pins[0].on_event, [5, 1, 1, 1, 0x22, 0, 0, 1]);
    assert_eq!(pins[0].off_event, [5, 1, 1, 1, 0x22, 0, 0, 2]);
    assert_eq!(pins[1].on_event, [5, 1, 1, 1, 0x22, 0, 0, 3]);
    assert_eq!(pins[1].off_event, [5, 1, 1, 1, 0x22, 0, 0, 4]);
    assert_eq!(
        bicolor_pin_events(4, Some(&red), None).err().unwrap(),
        "lamp row 5 not found in CDI tree"
    );
    assert_eq!(
        bicolor_pin_events(4, None, None).err().unwrap(),
        "lamp row 4 not found in CDI tree"
    );
}
