use bowties::cdi::{DataElement, EventIdElement, Group, IntElement, IntMap, MapEntry, StringElement};
use bowties::cdi_details::{details_node_name, element_details, ConstraintValue};

fn path() -> Vec<String> {
    vec!["Port I/O".to_string(), "Line 1".to_string(), "Mode".to_string()]
}

#[test]
fn integer_details_list_range_then_labels() {
    let e = DataElement::Int(IntElement {
        name: Some("Mode".to_string()),
        description: Some("Line mode".to_string()),
        size: 1,
        offset: 12,
        min: Some(0),
        max: None,
        default: Some(-3),
        map: Some(IntMap { entries: vec![MapEntry { value: 0, label: "Off".to_string() }] }),
    });
    let d = element_details("Tower", &path(), &e).unwrap();
    assert_eq!(d.name, "Mode");
    assert_eq!(d.description.as_deref(), Some("Line mode"));
    assert_eq!(d.data_type, "Integer (1 bytes)");
    assert_eq!(d.full_path, "Tower › Port I/O › Line 1 › Mode");
    assert_eq!(d.element_path, path());
    assert_eq!(d.constraints.len(), 2);
    assert_eq!(d.constraints[0].constraint_type, "range");
    assert_eq!(d.constraints[0].description, "Range: 0 to ∞");
    assert!(matches!(d.constraints[0].value, ConstraintValue::Range { min: Some(0), max: None }));
    assert_eq!(d.constraints[1].constraint_type, "map");
    assert_eq!(d.constraints[1].description, "Value mapping");
    match &d.constraints[1].value {
        ConstraintValue::ValueLabels { entries } => assert_eq!(entries, &vec![(0, "Off".to_string())]),
        _ => panic!("expected labels"),
    }
    assert_eq!(d.default_value.as_deref(), Some("-3"));
    assert_eq!(d.memory_address, 12);
}

#[test]
fn unbounded_below_reads_minus_infinity() {
    let e = DataElement::Int(IntElement {
        name: None, description: None, size: 2, offset: 0, min: None, max: Some(10), default: None, map: None,
    });
    let d = element_details("N", &vec![], &e).unwrap();
    assert_eq!(d.name, "Integer");
    assert_eq!(d.constraints[0].description, "Range: −∞ to 10");
    assert!(d.default_value.is_none());
}

#[test]
fn text_and_event_details() {
    let s = DataElement::String(StringElement { name: None, description: None, size: 16, offset: 4 });
    let d = element_details("N", &path(), &s).unwrap();
    assert_eq!(d.name, "String");
    assert_eq!(d.data_type, "String (max 16 bytes)");
    assert_eq!(d.constraints[0].description, "Max length: 16 bytes");
    assert!(matches!(d.constraints[0].value, ConstraintValue::Length { max_length: 16 }));
    let ev = DataElement::EventId(EventIdElement { name: None, description: None, offset: 8 });
    let d = element_details("N", &path(), &ev).unwrap();
    assert_eq!(d.name, "Event ID");
    assert_eq!(d.data_type, "Event ID (8 bytes)");
    assert!(d.constraints.is_empty());
    assert_eq!(d.memory_address, 8);
}

#[test]
fn groups_have_no_details() {
    let g = DataElement::Group(Group { name: None, description: None, offset: 0, replication: 1, repname: vec![], elements: vec![] });
    assert_eq!(element_details("N", &path(), &g).err().unwrap(), "Element is a group, not a primitive element");
    assert_eq!(details_node_name(Some("Yard"), "x"), "Yard");
    assert_eq!(details_node_name(None, "05.01.01.01.22.00"), "Node 05.01.01.01.22.00");
}
