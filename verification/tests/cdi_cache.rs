use bowties::cdi_cache::{cdi_cache_file_name, cdi_unavailable, download_label, layout_cdi_key, layout_cdi_path};
use bowties::nodes::SnipData;

fn snip(manufacturer: &str, model: &str, version: &str, user: &str) -> SnipData {
    SnipData {
        manufacturer: manufacturer.to_string(),
        model: model.to_string(),
        hardware_version: String::new(),
        software_version: version.to_string(),
        user_name: user.to_string(),
        user_description: String::new(),
    }
}

#[test]
fn cache_file_names_are_sanitized() {
    assert_eq!(cdi_cache_file_name("RR-CirKits", "Tower LCC", "rev C.1"), "RR-CirKits_Tower_LCC_rev_C_1.cdi.xml");
    assert_eq!(cdi_cache_file_name("Élan", "a/b", "x_y"), "Élan_a_b_x_y.cdi.xml");
}

#[test]
fn layout_copies_are_kept_beside_the_layout() {
    let s = snip("RR CirKits", "Tower LCC", "rev C", "");
    assert_eq!(layout_cdi_key(&s), "RR_CirKits_Tower_LCC_rev_C");
    assert_eq!(
        layout_cdi_path("/home/me/yard.layout", &s).unwrap(),
        "/home/me/yard.layout.d/cdi/RR_CirKits_Tower_LCC_rev_C.xml"
    );
    assert!(layout_cdi_path("/", &s).is_none());
}

#[test]
fn nodes_without_cdi_or_memory_configuration_offer_none() {
    assert!(cdi_unavailable(true, Some((false, false))));
    assert!(!cdi_unavailable(true, Some((true, false))));
    assert!(!cdi_unavailable(true, Some((false, true))));
    assert!(!cdi_unavailable(true, None));
    assert!(!cdi_unavailable(false, Some((false, false))));
}

#[test]
fn downloads_name_the_node_by_user_name_then_model() {
    assert_eq!(download_label(&Some(snip("M", "Model", "1", "Yard")), "n"), "Yard");
    assert_eq!(download_label(&Some(snip("M", "Model", "1", "")), "n"), "Model");
    assert_eq!(download_label(&None, "05.01.01.01.22.00"), "05.01.01.01.22.00");
}
