use bowties::event_roles::{collect_event_roles, identified_event, IdentifiedRole};
use bowties::node_id::NodeId;

const EV: [u8; 8] = [5, 1, 1, 1, 0x22, 0, 0, 1];

#[test]
fn producer_and_consumer_replies_are_read() {
    let e = identified_event(0x1954_4123, &EV).unwrap();
    assert!(e.role == IdentifiedRole::Producer);
    assert_eq!(e.event_id, EV);
    assert_eq!(e.source_alias, 0x123);
    for mti in [0x19545u32, 0x19547] {
        assert!(identified_event((mti << 12) | 0x7, &EV).unwrap().role == IdentifiedRole::Producer);
    }
    for mti in [0x194C4u32, 0x194C5, 0x194C7] {
        assert!(identified_event((mti << 12) | 0x7, &EV).unwrap().role == IdentifiedRole::Consumer);
    }
    assert!(identified_event(0x1954_6123, &EV).is_none());
    assert!(identified_event(0x1954_4123, &EV[..7]).is_none());
}

#[test]
fn claims_are_gathered_per_event_without_repeats() {
    let a = NodeId { bytes: [5, 2, 1, 2, 3, 0] };
    let b = NodeId { bytes: [5, 2, 1, 2, 3, 1] };
    let nodes = vec![(0x111u16, a), (0x222u16, b)];
    let other: [u8; 8] = [9, 9, 9, 9, 9, 9, 9, 9];
    let frames = vec![
        (0x1954_4111u32, EV.to_vec()),
        (0x1954_4111u32, EV.to_vec()),
        (0x194C_4222u32, EV.to_vec()),
        (0x194C_4333u32, EV.to_vec()),
        (0x1954_7222u32, other.to_vec()),
        (0x1900_0111u32, EV.to_vec()),
    ];
    let t = collect_event_roles(&frames, &nodes);
    assert_eq!(t.responses_received, 4);
    assert_eq!(t.roles.len(), 2);
    let first = &t.roles[0];
    assert_eq!(first.event_id, EV);
    assert_eq!(first.producers, vec![a]);
    assert_eq!(first.consumers, vec![b]);
    assert_eq!(t.roles[1].event_id, other);
    assert_eq!(t.roles[1].producers, vec![b]);
    assert!(t.roles[1].consumers.is_empty());
}

#[test]
fn no_claims_give_an_empty_table() {
    let a = NodeId { bytes: [5, 2, 1, 2, 3, 0] };
    let nodes = vec![(0x111u16, a)];
    let t = collect_event_roles(&vec![], &nodes);
    assert!(t.roles.is_empty());
    assert_eq!(t.responses_received, 0);
    // a reply from an unknown alias claims nothing
    let t = collect_event_roles(&vec![(0x1954_4999u32, EV.to_vec())], &nodes);
    assert!(t.roles.is_empty());
}
