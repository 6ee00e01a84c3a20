//! The details shown for one field of a node's configuration: its name,
//! description, type, constraints, default and address.

use vstd::prelude::*;
use crate::cdi::{DataElement, IntMap};
use crate::text::{
    copy_opt_string, copy_string, copy_strings, decimal_digits, i64_decimal, int_decimal, join, join_strings,
    opt_str, string_of, strs, u64_decimal,
};

verus! {

/// What a constraint restricts, for display.
pub enum ConstraintValue {
    /// The lowest and highest value allowed, each when given.
    Range { min: Option<i64>, max: Option<i64> },
    /// The labelled values: (value, label), in order.
    ValueLabels { entries: Vec<(i64, String)> },
    /// The longest text, in bytes.
    Length { max_length: usize },
}

/// One constraint of a field.
pub struct Constraint {
    pub constraint_type: String,
    pub description: String,
    pub value: ConstraintValue,
}

/// The details of a field.
pub struct ElementDetails {
    pub name: String,
    pub description: Option<String>,
    pub data_type: String,
    pub full_path: String,
    pub element_path: Vec<String>,
    pub constraints: Vec<Constraint>,
    pub default_value: Option<String>,
    pub memory_address: i32,
}

/// The name a field is shown by: its own, or a name for its type.
pub open spec fn shown_name(name: Option<String>, fallback: Seq<char>) -> Seq<char> {
    match name {
        Some(n) => n@,
        None => fallback,
    }
}

/// The breadcrumb of a field: the node's name and the path, joined by ` › `.
pub open spec fn breadcrumb(node_name: Seq<char>, path: Seq<Seq<char>>) -> Seq<char> {
    node_name + " › "@ + join(path, " › "@)
}

/// The text of a range: its bounds, `−∞` or `∞` where a bound is missing.
pub open spec fn range_text(min: Option<i64>, max: Option<i64>) -> Seq<char> {
    "Range: "@ + (match min { Some(v) => int_decimal(v as int), None => "−∞"@ }) + " to "@
        + (match max { Some(v) => int_decimal(v as int), None => "∞"@ })
}

/// The type text of a field.
pub open spec fn type_text(e: DataElement) -> Seq<char> {
    match e {
        DataElement::EventId(_) => "Event ID (8 bytes)"@,
        DataElement::Int(x) => "Integer ("@ + decimal_digits(x.size as nat) + " bytes)"@,
        DataElement::String(x) => "String (max "@ + decimal_digits(x.size as nat) + " bytes)"@,
        DataElement::Float(_) => "Float (4 bytes)"@,
        DataElement::Action(_) => "Action (trigger)"@,
        DataElement::Blob(x) => "Blob ("@ + decimal_digits(x.size as nat) + " bytes)"@,
        DataElement::Group(_) => Seq::empty(),
    }
}

/// The shown name of a field.
pub open spec fn field_name(e: DataElement) -> Seq<char> {
    match e {
        DataElement::EventId(x) => shown_name(x.name, "Event ID"@),
        DataElement::Int(x) => shown_name(x.name, "Integer"@),
        DataElement::String(x) => shown_name(x.name, "String"@),
        DataElement::Float(x) => shown_name(x.name, "Float"@),
        DataElement::Action(x) => shown_name(x.name, "Action"@),
        DataElement::Blob(x) => shown_name(x.name, "Blob"@),
        DataElement::Group(x) => Seq::empty(),
    }
}

/// The description and offset of a field.
pub open spec fn field_description(e: DataElement) -> Option<Seq<char>> {
    match e {
        DataElement::EventId(x) => opt_str(x.description),
        DataElement::Int(x) => opt_str(x.description),
        DataElement::String(x) => opt_str(x.description),
        DataElement::Float(x) => opt_str(x.description),
        DataElement::Action(x) => opt_str(x.description),
        DataElement::Blob(x) => opt_str(x.description),
        DataElement::Group(x) => opt_str(x.description),
    }
}

/// The offset of a field.
pub open spec fn field_offset(e: DataElement) -> i32 {
    match e {
        DataElement::EventId(x) => x.offset,
        DataElement::Int(x) => x.offset,
        DataElement::String(x) => x.offset,
        DataElement::Float(x) => x.offset,
        DataElement::Action(x) => x.offset,
        DataElement::Blob(x) => x.offset,
        DataElement::Group(x) => x.offset,
    }
}

/// The constraints list what the field states: an integer its range (when a
/// bound is given) and then its value labels (when given); a text field its
/// length; other fields nothing.
pub open spec fn constraints_of(c: Seq<Constraint>, e: DataElement) -> bool {
    match e {
        DataElement::Int(x) => {
            let has_range = x.min is Some || x.max is Some;
            let r = if has_range { 1int } else { 0int };
            &&& c.len() == r + if x.map is Some { 1int } else { 0int }
            &&& has_range ==> {
                &&& c[0].constraint_type@ == "range"@
                &&& c[0].description@ == range_text(x.min, x.max)
                &&& c[0].value == (ConstraintValue::Range { min: x.min, max: x.max })
            }
            &&& x.map matches Some(m) ==> {
                &&& c[r].constraint_type@ == "map"@
                &&& c[r].description@ == "Value mapping"@
                &&& c[r].value matches ConstraintValue::ValueLabels { entries } && entries@.len() == m.entries@.len()
                    && forall|k: int| 0 <= k < m.entries@.len() ==> (#[trigger] entries@[k]).0 == m.entries@[k].value
                        && entries@[k].1@ == m.entries@[k].label@
            }
        },
        DataElement::String(x) => {
            &&& c.len() == 1
            &&& c[0].constraint_type@ == "length"@
            &&& c[0].description@ == "Max length: "@ + decimal_digits(x.size as nat) + " bytes"@
            &&& c[0].value == (ConstraintValue::Length { max_length: x.size })
        },
        _ => c.len() == 0,
    }
}

/// The default value shown: an integer field's default, as decimal text.
pub open spec fn default_text(e: DataElement) -> Option<Seq<char>> {
    match e {
        DataElement::Int(x) => match x.default {
            Some(v) => Some(int_decimal(v as int)),
            None => None,
        },
        _ => None,
    }
}

/// The labelled values of an integer field.
fn map_entries(m: &IntMap) -> (r: Vec<(i64, String)>)
    ensures
        r@.len() == m.entries@.len(),
        forall|k: int| 0 <= k < m.entries@.len() ==> (#[trigger] r@[k]).0 == m.entries@[k].value
            && r@[k].1@ == m.entries@[k].label@,
{
    let mut out: Vec<(i64, String)> = Vec::new();
    let mut i: usize = 0;
    while i < m.entries.len()
        invariant
            i <= m.entries@.len(),
            out@.len() == i,
            forall|k: int| 0 <= k < i ==> (#[trigger] out@[k]).0 == m.entries@[k].value
                && out@[k].1@ == m.entries@[k].label@,
        decreases m.entries.len() - i,
    {
        out.push((m.entries[i].value, copy_string(&m.entries[i].label)));
        i = i + 1;
    }
    out
}

/// `name`, or the fallback text.
fn name_or(name: &Option<String>, fallback: &str) -> (r: String)
    ensures
        r@ == shown_name(*name, fallback@),
{
    match name {
        Some(n) => copy_string(n),
        None => string_of(fallback),
    }
}

/// `<before><n><after>`.
fn number_text(before: &str, n: u64, after: &str) -> (r: String)
    ensures
        r@ == before@ + decimal_digits(n as nat) + after@,
{
    let mut s = string_of(before);
    let d = u64_decimal(n);
    s.append(d.as_str());
    s.append(after);
    s
}

/// The text of a range.
fn range_description(min: Option<i64>, max: Option<i64>) -> (r: String)
    ensures
        r@ == range_text(min, max),
{
    let mut s = string_of("Range: ");
    match min {
        Some(v) => {
            let d = i64_decimal(v);
            s.append(d.as_str());
        },
        None => s.append("−∞"),
    }
    s.append(" to ");
    match max {
        Some(v) => {
            let d = i64_decimal(v);
            s.append(d.as_str());
        },
        None => s.append("∞"),
    }
    s
}

/// The details of the field `element` reached by `element_path` on the node
/// shown as `node_name`. A group is not a field.
pub fn element_details(node_name: &str, element_path: &Vec<String>, element: &DataElement) -> (r: Result<ElementDetails, String>)
    ensures
        element is Group ==> (r matches Err(m) && m@ == "Element is a group, not a primitive element"@),
        !(element is Group) ==> (r matches Ok(d) && {
            &&& d.name@ == field_name(*element)
            &&& opt_str(d.description) == field_description(*element)
            &&& d.data_type@ == type_text(*element)
            &&& d.full_path@ == breadcrumb(node_name@, strs(element_path@))
            &&& strs(d.element_path@) == strs(element_path@)
            &&& constraints_of(d.constraints@, *element)
            &&& opt_str(d.default_value) == default_text(*element)
            &&& d.memory_address == field_offset(*element)
        }),
{
    let mut full_path = string_of(node_name);
    full_path.append(" › ");
    let joined = join_strings(element_path.as_slice(), " › ");
    full_path.append(joined.as_str());
    let path = copy_strings(element_path);
    match element {
        DataElement::EventId(x) => Ok(ElementDetails {
            name: name_or(&x.name, "Event ID"),
            description: copy_opt_string(&x.description),
            data_type: string_of("Event ID (8 bytes)"),
            full_path,
            element_path: path,
            constraints: Vec::new(),
            default_value: None,
            memory_address: x.offset,
        }),
        DataElement::Int(x) => {
            let mut constraints: Vec<Constraint> = Vec::new();
            if x.min.is_some() || x.max.is_some() {
                constraints.push(Constraint {
                    constraint_type: string_of("range"),
                    description: range_description(x.min, x.max),
                    value: ConstraintValue::Range { min: x.min, max: x.max },
                });
            }
            let ghost before = constraints@;
            match &x.map {
                Some(m) => {
                    constraints.push(Constraint {
                        constraint_type: string_of("map"),
                        description: string_of("Value mapping"),
                        value: ConstraintValue::ValueLabels { entries: map_entries(m) },
                    });
                    assert(constraints@[before.len() as int] == constraints@.last());
                },
                None => {},
            }
            let default_value = match x.default {
                Some(v) => Some(i64_decimal(v)),
                None => None,
            };
            Ok(ElementDetails {
                name: name_or(&x.name, "Integer"),
                description: copy_opt_string(&x.description),
                data_type: number_text("Integer (", x.size as u64, " bytes)"),
                full_path,
                element_path: path,
                constraints,
                default_value,
                memory_address: x.offset,
            })
        },
        DataElement::String(x) => {
            let mut constraints: Vec<Constraint> = Vec::new();
            constraints.push(Constraint {
                constraint_type: string_of("length"),
                description: number_text("Max length: ", x.size as u64, " bytes"),
                value: ConstraintValue::Length { max_length: x.size },
            });
            Ok(ElementDetails {
                name: name_or(&x.name, "String"),
                description: copy_opt_string(&x.description),
                data_type: number_text("String (max ", x.size as u64, " bytes)"),
                full_path,
                element_path: path,
                constraints,
                default_value: None,
                memory_address: x.offset,
            })
        },
        DataElement::Float(x) => Ok(ElementDetails {
            name: name_or(&x.name, "Float"),
            description: copy_opt_string(&x.description),
            data_type: string_of("Float (4 bytes)"),
            full_path,
            element_path: path,
            constraints: Vec::new(),
            default_value: None,
            memory_address: x.offset,
        }),
        DataElement::Action(x) => Ok(ElementDetails {
            name: name_or(&x.name, "Action"),
            description: copy_opt_string(&x.description),
            data_type: string_of("Action (trigger)"),
            full_path,
            element_path: path,
            constraints: Vec::new(),
            default_value: None,
            memory_address: x.offset,
        }),
        DataElement::Blob(x) => Ok(ElementDetails {
            name: name_or(&x.name, "Blob"),
            description: copy_opt_string(&x.description),
            data_type: number_text("Blob (", x.size as u64, " bytes)"),
            full_path,
            element_path: path,
            constraints: Vec::new(),
            default_value: None,
            memory_address: x.offset,
        }),
        DataElement::Group(_) => Err(string_of("Element is a group, not a primitive element")),
    }
}

/// The name a node is shown by in details: its user name when its
/// identification is known, else `Node <id>`.
pub fn details_node_name(user_name: Option<&str>, node_id: &str) -> (r: String)
    ensures
        match user_name {
            Some(u) => r@ == u@,
            None => r@ == "Node "@ + node_id@,
        },
{
    match user_name {
        Some(u) => string_of(u),
        None => {
            let mut s = string_of("Node ");
            s.append(node_id);
            s
        },
    }
}

} // verus!
