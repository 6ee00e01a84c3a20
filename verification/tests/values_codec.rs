use bowties::cdi::{parse_config_value, ConfigValue as ReadValue, DataElement, IntElement, LeafType};
use bowties::node_id::NodeId;
use bowties::values::{serialize_config_value, TreeValue};

#[test]
fn test_serialize_int_1_byte() {
    let val = TreeValue::Int { value: 42 };
    assert_eq!(serialize_config_value(&val, LeafType::Int, 1), vec![42u8]);
}

#[test]
fn test_serialize_int_2_bytes() {
    let val = TreeValue::Int { value: 0x0102 };
    assert_eq!(serialize_config_value(&val, LeafType::Int, 2), vec![0x01u8, 0x02u8]);
}

#[test]
fn test_serialize_int_4_bytes() {
    let val = TreeValue::Int { value: 0x01020304 };
    assert_eq!(serialize_config_value(&val, LeafType::Int, 4), vec![0x01u8, 0x02, 0x03, 0x04]);
}

#[test]
fn serialized_text_is_cut_and_nul_padded() {
    let val = TreeValue::String { value: "Yard".to_string() };
    assert_eq!(serialize_config_value(&val, LeafType::String, 6), vec![b'Y', b'a', b'r', b'd', 0, 0]);
    assert_eq!(serialize_config_value(&val, LeafType::String, 3), vec![b'Y', b'a', 0]);
}

fn int_el(size: u8) -> DataElement {
    DataElement::Int(IntElement { name: None, description: None, size, offset: 0, min: None, max: None, default: None, map: None })
}

#[test]
fn integers_written_read_back_unchanged() {
    for (v, size) in [(-1i64, 1u8), (-128, 1), (127, 1), (-300, 2), (65535 / 2, 2), (-2_000_000_000, 4), (i64::MIN, 8), (i64::MAX, 8)] {
        let bytes = serialize_config_value(&TreeValue::Int { value: v }, LeafType::Int, size as u32);
        assert_eq!(bytes.len(), size as usize);
        match parse_config_value(&int_el(size), &bytes).unwrap() {
            ReadValue::Int { value, size_bytes } => {
                assert_eq!(value, v);
                assert_eq!(size_bytes, size);
            }
            _ => panic!("expected an integer"),
        }
    }
}

#[test]
fn node_id_text_forms_parse_back() {
    let id = NodeId::new([0x05, 0x02, 0x01, 0x02, 0x03, 0xAB]);
    let dotted = id.to_hex_string();
    assert_eq!(dotted, "05.02.01.02.03.AB");
    assert_eq!(id.to_canonical(), "0502010203AB");
    assert_eq!(NodeId::from_hex_string(&dotted), Some(id));
    assert_eq!(NodeId::from_hex_string(&id.to_canonical()), Some(id));
    assert_eq!(NodeId::from_hex_string("05.02.01.02.03.ab"), Some(id));
    assert_eq!(NodeId::from_hex_string("05.02.01.02.03"), None);
    assert_eq!(NodeId::from_hex_string("05.02.01.02.03.ZZ"), None);
}
