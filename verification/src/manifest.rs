//! The manifest of a layout directory: schema version, identity, save times
//! and the thresholds used to decide whether a live bus matches the layout.

use vstd::prelude::*;
use crate::text::{decimal_digits, is_blank, str_is_blank, string_of, u64_decimal};

verus! {

/// The only layout-directory schema version this library reads and writes.
pub const LAYOUT_SCHEMA_VERSION: u32 = 3;

/// Overlap percentages at which a bus is judged the same layout or uncertain.
pub struct MatchThresholds {
    pub likely_same: u8,
    pub uncertain_min: u8,
}

impl Default for MatchThresholds {
    fn default() -> (r: Self)
        ensures
            r.likely_same == 80,
            r.uncertain_min == 40,
    {
        MatchThresholds { likely_same: 80, uncertain_min: 40 }
    }
}

/// The manifest stored at the root of a layout directory.
pub struct LayoutManifest {
    pub schema_version: u32,
    pub layout_id: String,
    pub captured_at: String,
    pub last_saved_at: String,
    pub active_mode: String,
    pub match_thresholds: MatchThresholds,
    pub companion_dir: String,
}

/// Message for a manifest written with another schema version.
pub open spec fn manifest_version_error(v: u32) -> Seq<char> {
    "Unsupported layout schema version "@ + decimal_digits(v as nat) + " (expected 3)"@
}

impl LayoutManifest {
    /// A manifest for the current schema, in offline mode, with the default thresholds.
    pub fn new(layout_id: String, captured_at: String, last_saved_at: String, companion_dir: String) -> (r: Self)
        ensures
            r.schema_version == LAYOUT_SCHEMA_VERSION,
            r.layout_id == layout_id,
            r.captured_at == captured_at,
            r.last_saved_at == last_saved_at,
            r.active_mode@ == "offline"@,
            r.match_thresholds.likely_same == 80,
            r.match_thresholds.uncertain_min == 40,
            r.companion_dir == companion_dir,
    {
        LayoutManifest {
            schema_version: LAYOUT_SCHEMA_VERSION,
            layout_id,
            captured_at,
            last_saved_at,
            active_mode: string_of("offline"),
            match_thresholds: MatchThresholds::default(),
            companion_dir,
        }
    }

    /// Checks the schema version, then that the layout ID and the companion
    /// directory are not blank.
    pub fn validate(&self) -> (r: Result<(), String>)
        ensures
            self.schema_version != LAYOUT_SCHEMA_VERSION ==> (r matches Err(m) && m@ == manifest_version_error(self.schema_version)),
            self.schema_version == LAYOUT_SCHEMA_VERSION && is_blank(self.layout_id@)
                ==> (r matches Err(m) && m@ == "layoutId must not be empty"@),
            self.schema_version == LAYOUT_SCHEMA_VERSION && !is_blank(self.layout_id@) && is_blank(self.companion_dir@)
                ==> (r matches Err(m) && m@ == "companionDir must not be empty for schema v3"@),
            r is Ok <==> (self.schema_version == LAYOUT_SCHEMA_VERSION && !is_blank(self.layout_id@)
                && !is_blank(self.companion_dir@)),
    {
        if self.schema_version != LAYOUT_SCHEMA_VERSION {
            let mut m = string_of("Unsupported layout schema version ");
            let d = u64_decimal(self.schema_version as u64);
            m.append(d.as_str());
            m.append(" (expected 3)");
            return Err(m);
        }
        if str_is_blank(self.layout_id.as_str()) {
            return Err(string_of("layoutId must not be empty"));
        }
        if str_is_blank(self.companion_dir.as_str()) {
            return Err(string_of("companionDir must not be empty for schema v3"));
        }
        Ok(())
    }
}

} // verus!
