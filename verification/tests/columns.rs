use bowties::cdi::{DataElement, EventIdElement, Group, GroupInstance, IntElement};
use bowties::columns::column_items;

fn int_el(name: Option<&str>) -> DataElement {
    DataElement::Int(IntElement {
        name: name.map(|s| s.to_string()),
        description: None,
        size: 1,
        offset: 0,
        min: None,
        max: None,
        default: None,
        map: None,
    })
}

fn group(name: Option<&str>, replication: u32, children: Vec<DataElement>) -> DataElement {
    DataElement::Group(Group {
        name: name.map(|s| s.to_string()),
        description: Some("desc".to_string()),
        offset: 4,
        replication,
        repname: vec![],
        elements: children,
    })
}

#[test]
fn element_column_names_unnamed_values_by_kind_and_index() {
    let els = vec![
        int_el(Some("Speed")),
        int_el(None),
        DataElement::EventId(EventIdElement { name: None, description: Some("ev".to_string()), offset: 0 }),
    ];
    let c = column_items(&els, &vec![true; 3], &vec![vec![], vec![], vec![]]);
    assert_eq!(c.column_type, "elements");
    assert_eq!(c.items.len(), 3);
    assert_eq!(c.items[0].name, "Speed");
    assert_eq!(c.items[1].name, "Int 1");
    assert_eq!(c.items[2].name, "EventID 2");
    assert_eq!(c.items[2].item_type, "eventid");
    assert_eq!(c.items[2].full_name.as_deref(), Some("ev"));
    assert_eq!(c.items[1].path_id, "elem:1");
    assert!(!c.items[0].has_children);
}

#[test]
fn group_column_lists_shown_groups_and_each_instance() {
    let els = vec![
        int_el(None),
        group(None, 1, vec![int_el(None)]),
        group(Some("Hidden"), 1, vec![]),
        group(Some("Port"), 2, vec![int_el(None)]),
    ];
    let expansions = vec![
        vec![],
        vec![],
        vec![],
        vec![
            GroupInstance { index: 0, name: "Port 1".to_string(), address: 4 },
            GroupInstance { index: 1, name: "Port 2".to_string(), address: 5 },
        ],
    ];
    let c = column_items(&els, &vec![true, true, false, true], &expansions);
    assert_eq!(c.column_type, "groups");
    assert_eq!(c.items.len(), 3);
    assert_eq!(c.items[0].name, "Group 1");
    assert_eq!(c.items[0].path_id, "elem:1");
    assert!(c.items[0].instance.is_none());
    assert!(c.items[0].has_children);
    assert_eq!(c.items[1].name, "Port 1");
    assert_eq!(c.items[1].path_id, "elem:3#1");
    assert_eq!(c.items[2].path_id, "elem:3#2");
    let inst = c.items[2].instance.as_ref().unwrap();
    assert_eq!((inst.index, inst.total_instances, inst.base_address, inst.instance_address), (1, 2, 4, 5));
}
