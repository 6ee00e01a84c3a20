use bowties::card::{navigate_and_build_card_tree, parse_elem_path_step};
use bowties::cdi::{
    build_read_plan, calculate_size, card_element_footprint, expand_replicated_group,
    extract_all_elements_with_addresses, find_field_meta_in_cdi, get_element_size, parse_config_value,
    write_response, ActionElement, BlobElement, Cdi, CdiError, ConfigValue, DataElement, EventIdElement,
    FieldMeta, FloatElement, Group, IntElement, LeafType, Segment, StringElement,
};
use bowties::nodes::{get_discovered_nodes, get_node_display_name, DiscoveredNode, NodeInfo, SnipData};
use bowties::node_id::NodeId;

fn int_el(name: Option<&str>, size: u8, offset: i32) -> DataElement {
    DataElement::Int(IntElement {
        name: name.map(|s| s.to_string()),
        description: None,
        size,
        offset,
        min: None,
        max: None,
        default: None,
        map: None,
    })
}

fn make_replicated_line_cdi() -> Cdi {
    Cdi {
        segments: vec![Segment {
            name: Some("Port I/O".to_string()),
            description: None,
            space: 253,
            origin: 0,
            elements: vec![DataElement::Group(Group {
                name: Some("Line".to_string()),
                description: Some("Config for one line".to_string()),
                offset: 0,
                replication: 3,
                repname: vec!["Line".to_string()],
                elements: vec![
                    DataElement::String(StringElement {
                        name: Some("User Name".to_string()),
                        description: Some("User-assigned label".to_string()),
                        size: 16,
                        offset: 0,
                    }),
                    DataElement::EventId(EventIdElement {
                        name: Some("Set Event".to_string()),
                        description: Some("Event that activates this line".to_string()),
                        offset: 0,
                    }),
                ],
            })],
        }],
    }
}

fn make_flat_cdi() -> Cdi {
    Cdi {
        segments: vec![Segment {
            name: Some("Config".to_string()),
            description: None,
            space: 0xFD,
            origin: 0,
            elements: vec![int_el(Some("A"), 1, 0), int_el(Some("B"), 2, 0), int_el(Some("C"), 4, 0)],
        }],
    }
}

fn make_offset_cdi() -> Cdi {
    Cdi {
        segments: vec![Segment {
            name: None,
            description: None,
            space: 0xFD,
            origin: 100,
            elements: vec![int_el(Some("X"), 2, 0), int_el(Some("Y"), 1, 3)],
        }],
    }
}

fn path(steps: &[&str]) -> Vec<String> {
    steps.iter().map(|s| s.to_string()).collect()
}

#[test]
fn test_discovered_node_struct() {
    let node = DiscoveredNode { node_id: "05.01.01.01.03.01".to_string(), node_name: "Test Node".to_string(), has_cdi: true };
    assert_eq!(node.node_id, "05.01.01.01.03.01");
    assert!(node.has_cdi);
}

#[test]
fn test_cdi_error_messages() {
    let err1 = CdiError::CdiNotRetrieved("test_node".to_string());
    assert!(err1.message().contains("not yet retrieved"));

    let err2 = CdiError::InvalidXml("parse error".to_string());
    assert!(err2.message().contains("InvalidXml"));
}

#[test]
fn cdi_error_texts_are_exact() {
    assert_eq!(CdiError::CdiUnavailable("n".to_string()).message(), "CdiUnavailable: Node n does not provide CDI");
    assert_eq!(CdiError::NodeNotFound("n".to_string()).message(), "NodeNotFound: Node n not found");
    assert_eq!(CdiError::RetrievalFailed("x".to_string()).message(), "RetrievalFailed: x");
    assert_eq!(CdiError::IoError("x".to_string()).message(), "IoError: x");
}

#[test]
fn test_card_tree_basic_build() {
    let cdi = make_replicated_line_cdi();
    let result = navigate_and_build_card_tree(&cdi, &path(&["seg:0", "elem:0#1"]));
    assert!(result.is_ok());
    let tree = result.unwrap();
    assert_eq!(tree.group_name.as_deref(), Some("Line"));
    assert_eq!(tree.group_description.as_deref(), Some("Config for one line"));
    assert_eq!(tree.fields.len(), 2, "Expected 2 fields");
    assert!(tree.sub_groups.is_empty(), "Expected no sub-groups");
    assert_eq!(tree.fields[0].name, "User Name");
    assert_eq!(tree.fields[0].data_type, "string");
    assert_eq!(tree.fields[0].memory_address, 0);
    assert_eq!(tree.fields[0].size_bytes, 16);
    assert_eq!(tree.fields[1].name, "Set Event");
    assert_eq!(tree.fields[1].data_type, "eventid");
    assert_eq!(tree.fields[1].memory_address, 16);
    assert_eq!(tree.fields[1].size_bytes, 8);
}

#[test]
fn test_replicated_group_instance_address() {
    let cdi = make_replicated_line_cdi();
    let tree = navigate_and_build_card_tree(&cdi, &path(&["seg:0", "elem:0#3"])).unwrap();
    assert_eq!(tree.fields[0].name, "User Name");
    assert_eq!(tree.fields[0].memory_address, 48);
    assert_eq!(tree.fields[1].name, "Set Event");
    assert_eq!(tree.fields[1].memory_address, 64);
}

#[test]
fn test_invalid_segment_returns_invalidpath_error() {
    let cdi = make_replicated_line_cdi();
    let result = navigate_and_build_card_tree(&cdi, &path(&["seg:5", "elem:0"]));
    assert!(result.is_err());
    assert!(result.err().unwrap().contains("InvalidPath"));
}

#[test]
fn test_invalid_element_index_returns_error() {
    let cdi = make_replicated_line_cdi();
    let result = navigate_and_build_card_tree(&cdi, &path(&["seg:0", "elem:99"]));
    assert!(result.is_err());
    assert!(result.err().unwrap().contains("InvalidPath"));
}

#[test]
fn test_path_to_non_group_returns_error() {
    let cdi = make_replicated_line_cdi();
    let result = navigate_and_build_card_tree(&cdi, &path(&["seg:0", "elem:0#1", "elem:0"]));
    assert!(result.is_err());
    assert!(result.err().unwrap().contains("InvalidPath"));
}

#[test]
fn test_empty_group_returns_empty_fields() {
    let cdi = Cdi {
        segments: vec![Segment {
            name: Some("Empty".to_string()),
            description: None,
            space: 253,
            origin: 0,
            elements: vec![DataElement::Group(Group {
                name: Some("EmptyGroup".to_string()),
                description: None,
                offset: 0,
                replication: 1,
                repname: vec![],
                elements: vec![],
            })],
        }],
    };
    let result = navigate_and_build_card_tree(&cdi, &path(&["seg:0", "elem:0"]));
    assert!(result.is_ok());
    let tree = result.unwrap();
    assert!(tree.fields.is_empty());
    assert!(tree.sub_groups.is_empty());
}

#[test]
fn test_nested_subgroup_addresses() {
    let cdi = Cdi {
        segments: vec![Segment {
            name: Some("Settings".to_string()),
            description: None,
            space: 253,
            origin: 0,
            elements: vec![DataElement::Group(Group {
                name: Some("Advanced".to_string()),
                description: None,
                offset: 0,
                replication: 1,
                repname: vec![],
                elements: vec![
                    DataElement::Int(IntElement {
                        name: Some("Mode".to_string()),
                        description: None,
                        size: 1,
                        offset: 0,
                        min: None,
                        max: None,
                        default: Some(0),
                        map: None,
                    }),
                    DataElement::Group(Group {
                        name: Some("Timing".to_string()),
                        description: Some("Timing parameters".to_string()),
                        offset: 0,
                        replication: 1,
                        repname: vec![],
                        elements: vec![DataElement::Int(IntElement {
                            name: Some("Delay".to_string()),
                            description: None,
                            size: 2,
                            offset: 0,
                            min: Some(0),
                            max: Some(1000),
                            default: None,
                            map: None,
                        })],
                    }),
                ],
            })],
        }],
    };
    let tree = navigate_and_build_card_tree(&cdi, &path(&["seg:0", "elem:0"])).unwrap();
    assert_eq!(tree.fields.len(), 1);
    assert_eq!(tree.fields[0].name, "Mode");
    assert_eq!(tree.fields[0].memory_address, 0);
    assert_eq!(tree.fields[0].default_value.as_deref(), Some("0"));
    assert_eq!(tree.sub_groups.len(), 1);
    assert_eq!(tree.sub_groups[0].name, "Timing");
    assert_eq!(tree.sub_groups[0].fields.len(), 1);
    assert_eq!(tree.sub_groups[0].fields[0].name, "Delay");
    assert_eq!(tree.sub_groups[0].fields[0].memory_address, 1);
}

#[test]
fn test_element_paths_include_full_group_path() {
    let cdi = make_replicated_line_cdi();
    let tree = navigate_and_build_card_tree(&cdi, &path(&["seg:0", "elem:0#1"])).unwrap();
    assert_eq!(tree.fields[0].element_path, vec!["seg:0", "elem:0#1", "elem:0"]);
    assert_eq!(tree.fields[1].element_path, vec!["seg:0", "elem:0#1", "elem:1"]);
}

#[test]
fn test_address_space_propagated_to_all_fields() {
    let cdi = make_replicated_line_cdi();
    let tree = navigate_and_build_card_tree(&cdi, &path(&["seg:0", "elem:0#1"])).unwrap();
    for field in &tree.fields {
        assert_eq!(field.address_space, 253);
    }
}

#[test]
fn card_tree_expands_repeated_sub_groups_with_instance_paths() {
    let cdi = Cdi {
        segments: vec![Segment {
            name: None,
            description: None,
            space: 253,
            origin: 10,
            elements: vec![DataElement::Group(Group {
                name: Some("Outer".to_string()),
                description: None,
                offset: 2,
                replication: 1,
                repname: vec![],
                elements: vec![DataElement::Group(Group {
                    name: None,
                    description: None,
                    offset: 1,
                    replication: 2,
                    repname: vec![],
                    elements: vec![int_el(None, 4, 0)],
                })],
            })],
        }],
    };
    let tree = navigate_and_build_card_tree(&cdi, &path(&["seg:0", "elem:0"])).unwrap();
    assert_eq!(tree.sub_groups.len(), 2);
    assert_eq!(tree.sub_groups[0].name, "Group 0");
    assert_eq!(tree.sub_groups[0].group_path, vec!["seg:0", "elem:0", "elem:0#1"]);
    assert_eq!(tree.sub_groups[1].group_path, vec!["seg:0", "elem:0", "elem:0#2"]);
    assert_eq!(tree.sub_groups[0].replication, 2);
    assert_eq!(tree.sub_groups[0].fields[0].name, "Int 0");
    assert_eq!(tree.sub_groups[0].fields[0].memory_address, 13);
    assert_eq!(tree.sub_groups[1].fields[0].memory_address, 17);
}

#[test]
fn card_tree_path_errors_are_exact() {
    let cdi = make_replicated_line_cdi();
    assert_eq!(
        navigate_and_build_card_tree(&cdi, &path(&["seg:0"])).err().unwrap(),
        "InvalidPath: group_path must have at least a segment step and one element step"
    );
    assert_eq!(
        navigate_and_build_card_tree(&cdi, &path(&["segment", "elem:0"])).err().unwrap(),
        "InvalidPath: segment id must be 'seg:N', got 'segment'"
    );
    assert_eq!(
        navigate_and_build_card_tree(&cdi, &path(&["seg:0", "elem:7"])).err().unwrap(),
        "InvalidPath: element index 7 out of range (len=1)"
    );
    assert_eq!(
        navigate_and_build_card_tree(&cdi, &path(&["seg:0", "elem:0#1", "elem:1"])).err().unwrap(),
        "InvalidPath: element at index 1 is not a group"
    );
    assert_eq!(
        navigate_and_build_card_tree(&cdi, &path(&["seg:1", "elem:0"])).err().unwrap(),
        "InvalidPath: segment index 1 out of range"
    );
}

#[test]
fn path_steps_parse() {
    assert_eq!(parse_elem_path_step("elem:3").unwrap(), (3, None));
    assert_eq!(parse_elem_path_step("elem:3#2").unwrap(), (3, Some(2)));
    assert_eq!(parse_elem_path_step("elem:+4").unwrap(), (4, None));
    assert_eq!(
        parse_elem_path_step("group:3").unwrap_err(),
        "InvalidPath: expected 'elem:N' or 'elem:N#I', got 'group:3'"
    );
    assert_eq!(parse_elem_path_step("elem:x").unwrap_err(), "InvalidPath: bad element index in 'elem:x'");
    assert_eq!(parse_elem_path_step("elem:1#").unwrap_err(), "InvalidPath: bad instance number in 'elem:1#'");
    assert_eq!(parse_elem_path_step("elem:-1").unwrap_err(), "InvalidPath: bad element index in 'elem:-1'");
}

#[test]
fn test_parse_int_value_1_byte() {
    let r = parse_config_value(&int_el(None, 1, 0), &[42u8]).unwrap();
    assert!(matches!(r, ConfigValue::Int { value: 42, size_bytes: 1 }));
}

#[test]
fn test_parse_int_value_1_byte_negative() {
    let r = parse_config_value(&int_el(None, 1, 0), &[0xFFu8]).unwrap();
    assert!(matches!(r, ConfigValue::Int { value: -1, size_bytes: 1 }));
}

#[test]
fn test_parse_int_value_2_bytes() {
    let r = parse_config_value(&int_el(None, 2, 0), &[0x01u8, 0x00u8]).unwrap();
    assert!(matches!(r, ConfigValue::Int { value: 256, size_bytes: 2 }));
}

#[test]
fn test_parse_int_value_4_bytes() {
    let data = 1_000_000i32.to_be_bytes();
    let r = parse_config_value(&int_el(None, 4, 0), &data).unwrap();
    assert!(matches!(r, ConfigValue::Int { value: 1_000_000, size_bytes: 4 }));
}

#[test]
fn test_parse_int_value_8_bytes() {
    let data = 0x0102030405060708i64.to_be_bytes();
    let r = parse_config_value(&int_el(None, 8, 0), &data).unwrap();
    assert!(matches!(r, ConfigValue::Int { value: 0x0102030405060708, size_bytes: 8 }));
}

#[test]
fn test_parse_int_insufficient_data() {
    let r = parse_config_value(&int_el(None, 4, 0), &[0x00u8, 0x01u8]);
    assert!(r.is_err());
}

#[test]
fn parse_int_errors_are_exact() {
    assert_eq!(
        parse_config_value(&int_el(None, 4, 0), &[0x00u8]).err().unwrap(),
        "Insufficient data for 4-byte int"
    );
    assert_eq!(parse_config_value(&int_el(None, 3, 0), &[0u8; 3]).err().unwrap(), "Invalid int size: 3");
    let g = DataElement::Group(Group {
        name: None,
        description: None,
        offset: 0,
        replication: 1,
        repname: vec![],
        elements: vec![],
    });
    assert_eq!(parse_config_value(&g, &[]).err().unwrap(), "Unsupported element type for config reading");
    assert_eq!(
        parse_config_value(&make_eventid(), &[0u8; 3]).err().unwrap(),
        "EventId must be 8 bytes, got 3"
    );
}

fn make_string(size: usize) -> DataElement {
    DataElement::String(StringElement { name: None, description: None, size, offset: 0 })
}

fn make_eventid() -> DataElement {
    DataElement::EventId(EventIdElement { name: None, description: None, offset: 0 })
}

fn make_float() -> DataElement {
    DataElement::Float(FloatElement { name: None, description: None, offset: 0, size: 4 })
}

#[test]
fn test_parse_string_value() {
    let mut data = [0u8; 32];
    data[..5].copy_from_slice(b"hello");
    match parse_config_value(&make_string(32), &data).unwrap() {
        ConfigValue::String { value, size_bytes: 32 } => assert_eq!(value, "hello"),
        _ => panic!("Expected String"),
    }
}

#[test]
fn test_parse_string_no_null() {
    match parse_config_value(&make_string(4), b"abcd").unwrap() {
        ConfigValue::String { value, .. } => assert_eq!(value, "abcd"),
        _ => panic!("Expected String"),
    }
}

#[test]
fn test_parse_string_filters_0xff() {
    match parse_config_value(&make_string(8), &[0xFFu8; 8]).unwrap() {
        ConfigValue::String { value, .. } => assert_eq!(value, ""),
        _ => panic!("Expected String"),
    }
}

#[test]
fn test_parse_string_mixed_ff_bytes() {
    let data = [b'h', b'i', 0xFF, 0xFF, 0x00, 0x00, 0x00, 0x00];
    match parse_config_value(&make_string(8), &data).unwrap() {
        ConfigValue::String { value, .. } => assert_eq!(value, "hi"),
        _ => panic!("Expected String"),
    }
}

#[test]
fn test_parse_eventid_value() {
    let bytes: [u8; 8] = [0x01, 0x02, 0x03, 0x04, 0x05, 0x06, 0x07, 0x08];
    match parse_config_value(&make_eventid(), &bytes).unwrap() {
        ConfigValue::EventId { value } => assert_eq!(value, bytes),
        _ => panic!("Expected EventId"),
    }
}

#[test]
fn test_parse_eventid_wrong_length() {
    assert!(parse_config_value(&make_eventid(), &[0x01u8; 4]).is_err());
}

#[test]
fn test_parse_float_value() {
    let data = 1.5f32.to_be_bytes();
    match parse_config_value(&make_float(), &data).unwrap() {
        ConfigValue::Float { raw } => {
            let value = f32::from_be_bytes(raw);
            assert!((value - 1.5f32).abs() < f32::EPSILON)
        }
        _ => panic!("Expected Float"),
    }
}

#[test]
fn test_parse_float_wrong_length() {
    assert!(parse_config_value(&make_float(), &[0x00u8; 2]).is_err());
}

#[test]
fn test_parse_float_f32_wrong_length() {
    assert!(parse_config_value(&make_float(), &[0x00u8; 3]).is_err());
}

#[test]
fn test_extract_flat_addresses() {
    let cdi = make_flat_cdi();
    let elems = extract_all_elements_with_addresses(&cdi);
    assert_eq!(elems.len(), 3);
    assert_eq!(elems[0].name, "A");
    assert_eq!(elems[0].absolute_address(), 0);
    assert_eq!(elems[0].space, 0xFD);
    assert_eq!(elems[1].name, "B");
    assert_eq!(elems[1].absolute_address(), 1);
    assert_eq!(elems[2].name, "C");
    assert_eq!(elems[2].absolute_address(), 3);
}

#[test]
fn test_extract_segment_origin_and_element_offset() {
    let cdi = make_offset_cdi();
    let elems = extract_all_elements_with_addresses(&cdi);
    assert_eq!(elems.len(), 2);
    assert_eq!(elems[0].absolute_address(), 100);
    assert_eq!(elems[1].absolute_address(), 105);
}

#[test]
fn test_extract_empty_cdi_returns_empty() {
    let cdi = Cdi { segments: vec![] };
    assert!(extract_all_elements_with_addresses(&cdi).is_empty());
}

#[test]
fn test_extract_replicated_group_addresses() {
    let cdi = Cdi {
        segments: vec![Segment {
            name: None,
            description: None,
            space: 253,
            origin: 0,
            elements: vec![DataElement::Group(Group {
                name: Some("G".to_string()),
                description: None,
                offset: 0,
                replication: 2,
                repname: vec!["G".to_string()],
                elements: vec![int_el(Some("V"), 4, 0)],
            })],
        }],
    };
    let elems = extract_all_elements_with_addresses(&cdi);
    assert_eq!(elems.len(), 2);
    assert_eq!(elems[0].absolute_address(), 0);
    assert_eq!(elems[1].absolute_address(), 4);
    assert!(elems[0].path[1].contains('#'));
    assert!(elems[1].path[1].contains('#'));
}

#[test]
fn test_extract_path_structure() {
    let cdi = make_flat_cdi();
    let elems = extract_all_elements_with_addresses(&cdi);
    for e in &elems {
        assert_eq!(e.path[0], "seg:0");
        assert!(e.path[1].starts_with("elem:"));
    }
}

#[test]
fn extraction_skips_actions_and_blobs_but_advances_past_them() {
    let cdi = Cdi {
        segments: vec![Segment {
            name: None,
            description: None,
            space: 253,
            origin: 0,
            elements: vec![
                DataElement::Action(ActionElement { name: None, description: None, offset: 0 }),
                DataElement::Blob(BlobElement { name: None, description: None, offset: 2, size: 5 }),
                int_el(None, 1, 0),
                DataElement::Group(Group {
                    name: None,
                    description: None,
                    offset: 0,
                    replication: 4,
                    repname: vec![],
                    elements: vec![],
                }),
                int_el(None, 2, 0),
            ],
        }],
    };
    let elems = extract_all_elements_with_addresses(&cdi);
    assert_eq!(elems.len(), 2);
    assert_eq!(elems[0].absolute_address(), 8);
    assert_eq!(elems[0].name, "int");
    assert_eq!(elems[0].path, vec!["seg:0", "elem:2"]);
    assert_eq!(elems[1].absolute_address(), 9);
    assert_eq!(elems[1].path, vec!["seg:0", "elem:4"]);
}

#[test]
fn test_build_read_plan_single_element() {
    let cdi = make_flat_cdi();
    let elems = extract_all_elements_with_addresses(&cdi);
    let plan = build_read_plan(&elems[..1]);
    assert_eq!(plan.items.len(), 1);
    assert_eq!(plan.batches.len(), 1);
    assert!(plan.multi_chunk_indices.is_empty());
    assert_eq!(plan.invalid_element_count, 0);
}

#[test]
fn test_build_read_plan_consecutive_elements_grouped() {
    let cdi = make_flat_cdi();
    let elems = extract_all_elements_with_addresses(&cdi);
    let plan = build_read_plan(&elems);
    assert_eq!(plan.items.len(), 3);
    assert_eq!(plan.batches.len(), 1);
}

#[test]
fn test_build_read_plan_different_spaces_split() {
    let cdi = Cdi {
        segments: vec![
            Segment { name: None, description: None, space: 0xFD, origin: 0, elements: vec![int_el(Some("P"), 1, 0)] },
            Segment { name: None, description: None, space: 0xFE, origin: 0, elements: vec![int_el(Some("Q"), 1, 0)] },
        ],
    };
    let elems = extract_all_elements_with_addresses(&cdi);
    let plan = build_read_plan(&elems);
    assert_eq!(plan.batches.len(), 2);
}

#[test]
fn test_build_read_plan_large_element_chunked() {
    let cdi = Cdi {
        segments: vec![Segment {
            name: None,
            description: None,
            space: 0xFD,
            origin: 0,
            elements: vec![DataElement::String(StringElement {
                name: Some("Long".to_string()),
                description: None,
                size: 130,
                offset: 0,
            })],
        }],
    };
    let elems = extract_all_elements_with_addresses(&cdi);
    let plan = build_read_plan(&elems);
    assert_eq!(plan.items.len(), 3);
    assert!(plan.multi_chunk_indices.contains(&0));
    assert_eq!(plan.items[0].size, 64);
    assert_eq!(plan.items[1].size, 64);
    assert_eq!(plan.items[2].size, 2);
}

#[test]
fn test_build_read_plan_gap_elements_same_batch_if_span_fits() {
    let cdi = make_offset_cdi();
    let elems = extract_all_elements_with_addresses(&cdi);
    let plan = build_read_plan(&elems);
    assert_eq!(plan.batches.len(), 1);
}

#[test]
fn read_plan_orders_by_space_then_address_and_splits_wide_spans() {
    let cdi = Cdi {
        segments: vec![
            Segment { name: None, description: None, space: 0xFE, origin: 0, elements: vec![int_el(None, 1, 0)] },
            Segment {
                name: None,
                description: None,
                space: 0xFD,
                origin: 0,
                elements: vec![int_el(None, 4, 100), int_el(None, 1, -104)],
            },
        ],
    };
    let elems = extract_all_elements_with_addresses(&cdi);
    let plan = build_read_plan(&elems);
    let order: Vec<(u8, u32)> = plan.items.iter().map(|i| (i.space, i.absolute_address)).collect();
    assert_eq!(order, vec![(0xFD, 0), (0xFD, 100), (0xFE, 0)]);
    assert_eq!(plan.batches, vec![vec![0], vec![1], vec![2]]);
}

#[test]
fn element_sizes_and_footprints() {
    assert_eq!(get_element_size(&int_el(None, 2, 0)).unwrap(), 2);
    assert_eq!(get_element_size(&make_eventid()).unwrap(), 8);
    assert_eq!(get_element_size(&make_float()).unwrap(), 4);
    assert_eq!(
        get_element_size(&DataElement::Action(ActionElement { name: None, description: None, offset: 0 })).unwrap_err(),
        "Unsupported element type for config reading"
    );
    let g = DataElement::Group(Group {
        name: None,
        description: None,
        offset: 3,
        replication: 2,
        repname: vec![],
        elements: vec![make_string(16), make_eventid()],
    });
    assert_eq!(card_element_footprint(&g), 3 + 2 * 24);
    assert_eq!(get_element_size(&g).unwrap_err(), "Cannot read value from group element");
    assert_eq!(calculate_size(&vec![g, int_el(None, 1, -1)]), 51);
}

#[test]
fn field_meta_found_by_address() {
    let cdi = make_replicated_line_cdi();
    assert_eq!(
        find_field_meta_in_cdi(&cdi, 253, 40),
        Some(FieldMeta { leaf_type: LeafType::EventId, size: 8 })
    );
    assert_eq!(
        find_field_meta_in_cdi(&cdi, 253, 48),
        Some(FieldMeta { leaf_type: LeafType::String, size: 16 })
    );
    assert_eq!(find_field_meta_in_cdi(&cdi, 253, 41), None);
    assert_eq!(find_field_meta_in_cdi(&cdi, 254, 40), None);
    assert_eq!(find_field_meta_in_cdi(&cdi, 253, 72), None);
}

#[test]
fn replicated_group_expansion_is_not_offered() {
    assert_eq!(
        expand_replicated_group("05.01.01.01.03.01", &vec!["seg:0".to_string()]).err().unwrap(),
        "Group not found or not replicated"
    );
}

#[test]
fn write_responses_report_the_outcome() {
    let ok = write_response(16, 253, Ok(()));
    assert!(ok.success);
    assert_eq!(ok.error_message, None);
    let bad = write_response(16, 253, Err("Timeout".to_string()));
    assert!(!bad.success);
    assert_eq!(bad.error_message.as_deref(), Some("Timeout"));
    assert_eq!(bad.address, 16);
    assert_eq!(bad.space, 253);
}

#[test]
fn node_names_follow_their_precedence() {
    let id = NodeId::new([5, 2, 1, 2, 3, 0]);
    let snip = |user: &str, desc: &str, model: &str, manufacturer: &str| SnipData {
        manufacturer: manufacturer.to_string(),
        model: model.to_string(),
        hardware_version: String::new(),
        software_version: String::new(),
        user_name: user.to_string(),
        user_description: desc.to_string(),
    };
    assert_eq!(get_node_display_name(&NodeInfo { node_id: id, snip_data: Some(snip("Yard", "d", "m", "x")) }), "Yard");
    assert_eq!(get_node_display_name(&NodeInfo { node_id: id, snip_data: Some(snip("", "d", "m", "x")) }), "d");
    assert_eq!(get_node_display_name(&NodeInfo { node_id: id, snip_data: Some(snip("", "", "m", "x")) }), "m");
    assert_eq!(get_node_display_name(&NodeInfo { node_id: id, snip_data: None }), "05.02.01.02.03.00");
    let listed = get_discovered_nodes(&vec![
        (NodeInfo { node_id: id, snip_data: Some(snip("", "d", "Tower", "RR-Cirkits")) }, true),
        (NodeInfo { node_id: id, snip_data: Some(snip("", "", "Tower", "")) }, false),
    ]);
    assert_eq!(listed.nodes[0].node_name, "RR-Cirkits Tower");
    assert_eq!(listed.nodes[0].node_id, "05.02.01.02.03.00");
    assert!(listed.nodes[0].has_cdi);
    assert_eq!(listed.nodes[1].node_name, "Node 05.02.01.02.03.00");
    assert!(!listed.nodes[1].has_cdi);
}
