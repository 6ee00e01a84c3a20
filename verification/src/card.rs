//! The card view of a CDI group: its fields with their addresses, and its
//! sub-groups (one per instance of a repeated group), fully expanded.

use vstd::prelude::*;
use crate::cdi::{
    abs, calculate_size, elem_step, elem_step_string, extent_from, footprint, instance_step,
    instance_step_string, lemma_extent_step, lemma_footprint_bound, lemma_group_decreases, lemma_instance_bound,
    lemma_size_bound, size_from, wrap32, wrap_offset, DataElement, Group, Cdi, origin_signed, bounded,
    card_element_footprint, cdi_bounded,
};
use crate::codec::{parse_unsigned, parse_unsigned_spec};
use crate::text::{chars_of, copy_opt_string, copy_string, copy_strings, decimal_digits, i64_decimal, int_decimal, opt_str, string_of, strs, u64_decimal};

verus! {

/// A configuration field shown on a card.
pub struct CardField {
    pub element_path: Vec<String>,
    pub name: String,
    pub description: Option<String>,
    pub data_type: String,
    pub memory_address: u32,
    pub size_bytes: u32,
    pub default_value: Option<String>,
    pub address_space: u8,
}

/// One instance of a sub-group shown inline on a card.
pub struct CardSubGroup {
    pub name: String,
    pub description: Option<String>,
    pub group_path: Vec<String>,
    pub fields: Vec<CardField>,
    pub sub_groups: Vec<CardSubGroup>,
    pub replication: u32,
}

/// The card of a group: its name and description, fields and sub-groups.
pub struct CardElementTree {
    pub group_name: Option<String>,
    pub group_description: Option<String>,
    pub fields: Vec<CardField>,
    pub sub_groups: Vec<CardSubGroup>,
}

/// What a card field states.
pub struct FieldView {
    pub element_path: Seq<Seq<char>>,
    pub name: Seq<char>,
    pub description: Option<Seq<char>>,
    pub data_type: Seq<char>,
    pub memory_address: u32,
    pub size_bytes: u32,
    pub default_value: Option<Seq<char>>,
    pub address_space: u8,
}

impl View for CardField {
    type V = FieldView;

    open spec fn view(&self) -> FieldView {
        FieldView {
            element_path: strs(self.element_path@),
            name: self.name@,
            description: opt_str(self.description),
            data_type: self.data_type@,
            memory_address: self.memory_address,
            size_bytes: self.size_bytes,
            default_value: opt_str(self.default_value),
            address_space: self.address_space,
        }
    }
}

/// The views of a list of fields.
pub open spec fn field_views(s: Seq<CardField>) -> Seq<FieldView> {
    s.map_values(|f: CardField| f@)
}

/// A name, or `<kind> <i>` when there is none.
pub open spec fn name_or(n: Option<String>, kind: Seq<char>, i: int) -> Seq<char> {
    match n {
        Some(x) => x@,
        None => kind + " "@ + decimal_digits(i as nat),
    }
}

/// The card field of leaf element `e`, the `i`-th of its list, stored at `addr`.
pub open spec fn leaf_field(e: DataElement, i: int, addr: int, space: u8, path: Seq<Seq<char>>) -> FieldView {
    let p = path.push(elem_step(i));
    match e {
        DataElement::Int(x) => FieldView {
            element_path: p, name: name_or(x.name, "Int"@, i), description: opt_str(x.description),
            data_type: "int"@, memory_address: wrap32(addr), size_bytes: x.size as u32,
            default_value: match x.default { Some(v) => Some(int_decimal(v as int)), None => None },
            address_space: space,
        },
        DataElement::String(x) => FieldView {
            element_path: p, name: name_or(x.name, "String"@, i), description: opt_str(x.description),
            data_type: "string"@, memory_address: wrap32(addr), size_bytes: x.size as u32,
            default_value: None, address_space: space,
        },
        DataElement::EventId(x) => FieldView {
            element_path: p, name: name_or(x.name, "EventId"@, i), description: opt_str(x.description),
            data_type: "eventid"@, memory_address: wrap32(addr), size_bytes: 8,
            default_value: None, address_space: space,
        },
        DataElement::Float(x) => FieldView {
            element_path: p, name: name_or(x.name, "Float"@, i), description: opt_str(x.description),
            data_type: "float"@, memory_address: wrap32(addr), size_bytes: 4,
            default_value: None, address_space: space,
        },
        DataElement::Action(x) => FieldView {
            element_path: p, name: name_or(x.name, "Action"@, i), description: opt_str(x.description),
            data_type: "action"@, memory_address: wrap32(addr), size_bytes: 1,
            default_value: None, address_space: space,
        },
        DataElement::Blob(x) => FieldView {
            element_path: p, name: name_or(x.name, "Blob"@, i), description: opt_str(x.description),
            data_type: "blob"@, memory_address: wrap32(addr), size_bytes: x.size as u32,
            default_value: None, address_space: space,
        },
        DataElement::Group(_) => FieldView {
            element_path: p, name: Seq::empty(), description: None, data_type: Seq::empty(),
            memory_address: 0, size_bytes: 0, default_value: None, address_space: space,
        },
    }
}

/// The offset skip of an element.
pub open spec fn skip_of(e: DataElement) -> int {
    match e {
        DataElement::Group(x) => x.offset as int,
        DataElement::Int(x) => x.offset as int,
        DataElement::String(x) => x.offset as int,
        DataElement::EventId(x) => x.offset as int,
        DataElement::Float(x) => x.offset as int,
        DataElement::Action(x) => x.offset as int,
        DataElement::Blob(x) => x.offset as int,
    }
}

/// The fields of the elements `i..` of a list whose element `i` starts at
/// cursor `cur` (groups contribute no field at this level).
pub open spec fn card_fields_from(s: Seq<DataElement>, i: int, cur: int, space: u8, path: Seq<Seq<char>>) -> Seq<FieldView>
    decreases s.len() - i,
{
    if i < 0 || i >= s.len() {
        Seq::empty()
    } else {
        let rest = card_fields_from(s, i + 1, cur + footprint(s[i]), space, path);
        if s[i] is Group {
            rest
        } else {
            seq![leaf_field(s[i], i, cur + skip_of(s[i]), space, path)] + rest
        }
    }
}

/// One instance of a sub-group: the group, its index in its list, the
/// instance number, where the instance starts and its path.
pub struct CardInstance {
    pub group: Group,
    pub index: int,
    pub instance: int,
    pub base: int,
    pub path: Seq<Seq<char>>,
}

/// Instances `k..rep` of group `g` (the `i`-th element) whose content starts at `start`.
pub open spec fn group_instances(g: Group, i: int, start: int, stride: int, k: int, path: Seq<Seq<char>>) -> Seq<CardInstance>
    decreases g.replication - k,
{
    if k < 0 || k >= g.replication {
        Seq::empty()
    } else {
        seq![CardInstance { group: g, index: i, instance: k, base: start + k * stride, path: path.push(instance_step(i, k, g.replication)) }]
            + group_instances(g, i, start, stride, k + 1, path)
    }
}

/// The sub-group instances of the elements `i..` of a list, in order.
pub open spec fn card_groups_from(s: Seq<DataElement>, i: int, cur: int, path: Seq<Seq<char>>) -> Seq<CardInstance>
    decreases s.len() - i,
{
    if i < 0 || i >= s.len() {
        Seq::empty()
    } else {
        let rest = card_groups_from(s, i + 1, cur + footprint(s[i]), path);
        match s[i] {
            DataElement::Group(g) => group_instances(g, i, cur + g.offset, size_from(g.elements@, 0), 0, path) + rest,
            _ => rest,
        }
    }
}

proof fn lemma_group_instances_from(g: Group, i: int, start: int, stride: int, k: int, path: Seq<Seq<char>>)
    ensures
        forall|j: int| 0 <= j < group_instances(g, i, start, stride, k, path).len()
            ==> (#[trigger] group_instances(g, i, start, stride, k, path)[j]).group == g,
    decreases g.replication - k,
{
    if 0 <= k < g.replication {
        lemma_group_instances_from(g, i, start, stride, k + 1, path);
        let rest = group_instances(g, i, start, stride, k + 1, path);
        let h = seq![CardInstance { group: g, index: i, instance: k, base: start + k * stride, path: path.push(instance_step(i, k, g.replication)) }];
        assert forall|j: int| 0 <= j < (h + rest).len() implies (#[trigger] (h + rest)[j]).group == g by {
            if j > 0 { assert((h + rest)[j] == rest[j - 1]); }
        }
    }
}

/// Every instance listed for a list is an instance of one of its group elements.
pub proof fn lemma_card_groups_from(s: Seq<DataElement>, i: int, cur: int, path: Seq<Seq<char>>)
    ensures
        forall|j: int| 0 <= j < card_groups_from(s, i, cur, path).len() ==> exists|e: int|
            0 <= e < s.len() && s[e] is Group && (#[trigger] card_groups_from(s, i, cur, path)[j]).group == s[e]->Group_0,
    decreases s.len() - i,
{
    if 0 <= i < s.len() {
        lemma_card_groups_from(s, i + 1, cur + footprint(s[i]), path);
        let rest = card_groups_from(s, i + 1, cur + footprint(s[i]), path);
        match s[i] {
            DataElement::Group(g) => {
                let h = group_instances(g, i, cur + g.offset, size_from(g.elements@, 0), 0, path);
                lemma_group_instances_from(g, i, cur + g.offset, size_from(g.elements@, 0), 0, path);
                assert forall|j: int| 0 <= j < (h + rest).len() implies exists|e: int|
                    0 <= e < s.len() && s[e] is Group && (#[trigger] (h + rest)[j]).group == s[e]->Group_0 by {
                    if j < h.len() {
                        assert(h[j].group == g);
                        assert((h + rest)[j] == h[j]);
                    } else {
                        assert((h + rest)[j] == rest[j - h.len()]);
                    }
                }
            },
            _ => {},
        }
    }
}

/// A group's instances name sub-groups of its own content.
pub proof fn lemma_instance_decreases(gi: CardInstance, space: u8, j: int)
    requires
        0 <= j < card_groups_from(gi.group.elements@, 0, gi.base, gi.path).len(),
    ensures
        decreases_to!(gi.group => card_groups_from(gi.group.elements@, 0, gi.base, gi.path)[j].group),
{
    let s = gi.group.elements@;
    lemma_card_groups_from(s, 0, gi.base, gi.path);
    let e = choose|e: int| 0 <= e < s.len() && s[e] is Group
        && (#[trigger] card_groups_from(s, 0, gi.base, gi.path)[j]).group == s[e]->Group_0;
    assert(decreases_to!(gi.group => gi.group.elements));
    assert(decreases_to!(gi.group.elements => s));
    assert(decreases_to!(s => s[e]));
    assert(decreases_to!(s[e] => s[e]->Group_0));
}

/// `sg` is the card sub-group of instance `gi`: its name (or `Group <i>`),
/// description, path and replication, its fields, and recursively its own
/// sub-groups.
pub open spec fn sub_group_ok(gi: CardInstance, space: u8, sg: CardSubGroup) -> bool
    decreases gi.group,
{
    let s = gi.group.elements@;
    let subs = card_groups_from(s, 0, gi.base, gi.path);
    &&& sg.name@ == name_or(gi.group.name, "Group"@, gi.index)
    &&& opt_str(sg.description) == opt_str(gi.group.description)
    &&& strs(sg.group_path@) == gi.path
    &&& sg.replication == gi.group.replication
    &&& field_views(sg.fields@) == card_fields_from(s, 0, gi.base, space, gi.path)
    &&& sg.sub_groups@.len() == subs.len()
    &&& forall|j: int| 0 <= j < subs.len() ==> {
        proof { lemma_instance_decreases(gi, space, j); }
        sub_group_ok(subs[j], space, #[trigger] sg.sub_groups@[j])
    }
}

/// Every field of a card sub-group, at every depth, is in `space`.
pub open spec fn fields_in_space(sg: CardSubGroup, space: u8) -> bool
    decreases sg,
{
    &&& forall|k: int| 0 <= k < sg.fields@.len() ==> (#[trigger] sg.fields@[k]).address_space == space
    &&& forall|j: int| 0 <= j < sg.sub_groups@.len() ==> {
        proof {
            assert(decreases_to!(sg => sg.sub_groups));
            assert(decreases_to!(sg.sub_groups => sg.sub_groups@));
            assert(decreases_to!(sg.sub_groups@ => sg.sub_groups@[j]));
        }
        fields_in_space(#[trigger] sg.sub_groups@[j], space)
    }
}

proof fn lemma_card_fields_space(s: Seq<DataElement>, i: int, cur: int, space: u8, path: Seq<Seq<char>>)
    ensures
        forall|k: int| 0 <= k < card_fields_from(s, i, cur, space, path).len()
            ==> (#[trigger] card_fields_from(s, i, cur, space, path)[k]).address_space == space,
    decreases s.len() - i,
{
    if 0 <= i < s.len() {
        lemma_card_fields_space(s, i + 1, cur + footprint(s[i]), space, path);
        let rest = card_fields_from(s, i + 1, cur + footprint(s[i]), space, path);
        if !(s[i] is Group) {
            let h = seq![leaf_field(s[i], i, cur + skip_of(s[i]), space, path)];
            assert forall|k: int| 0 <= k < (h + rest).len() implies (#[trigger] (h + rest)[k]).address_space == space by {
                if k > 0 { assert((h + rest)[k] == rest[k - 1]); }
            }
        }
    }
}

proof fn lemma_views_space(fs: Seq<CardField>, want: Seq<FieldView>, space: u8)
    requires
        field_views(fs) == want,
        forall|k: int| 0 <= k < want.len() ==> (#[trigger] want[k]).address_space == space,
    ensures
        forall|k: int| 0 <= k < fs.len() ==> (#[trigger] fs[k]).address_space == space,
{
    assert forall|k: int| 0 <= k < fs.len() implies (#[trigger] fs[k]).address_space == space by {
        assert(field_views(fs)[k] == fs[k]@);
    }
}

/// A sub-group built for an instance has all its fields, at every depth,
/// in the card's address space.
pub proof fn lemma_sub_group_in_space(gi: CardInstance, space: u8, sg: CardSubGroup)
    requires
        sub_group_ok(gi, space, sg),
    ensures
        fields_in_space(sg, space),
    decreases gi.group,
{
    let s = gi.group.elements@;
    let subs = card_groups_from(s, 0, gi.base, gi.path);
    lemma_card_fields_space(s, 0, gi.base, space, gi.path);
    lemma_views_space(sg.fields@, card_fields_from(s, 0, gi.base, space, gi.path), space);
    assert forall|j: int| 0 <= j < sg.sub_groups@.len() implies fields_in_space(#[trigger] sg.sub_groups@[j], space) by {
        lemma_instance_decreases(gi, space, j);
        assert(sub_group_ok(subs[j], space, sg.sub_groups@[j]));
        lemma_sub_group_in_space(subs[j], space, sg.sub_groups@[j]);
    }
}

/// Law: every field of a card, at every depth of its sub-groups, carries the
/// card's address space.
pub proof fn law_card_fields_in_space(
    elements: Seq<DataElement>,
    base: int,
    space: u8,
    path: Seq<Seq<char>>,
    fields: Seq<CardField>,
    subs: Seq<CardSubGroup>,
)
    requires
        field_views(fields) == card_fields_from(elements, 0, base, space, path),
        subs.len() == card_groups_from(elements, 0, base, path).len(),
        forall|j: int| 0 <= j < subs.len() ==> sub_group_ok(card_groups_from(elements, 0, base, path)[j], space, #[trigger] subs[j]),
    ensures
        forall|k: int| 0 <= k < fields.len() ==> (#[trigger] fields[k]).address_space == space,
        forall|j: int| 0 <= j < subs.len() ==> fields_in_space(#[trigger] subs[j], space),
{
    lemma_card_fields_space(elements, 0, base, space, path);
    lemma_views_space(fields, card_fields_from(elements, 0, base, space, path), space);
    assert forall|j: int| 0 <= j < subs.len() implies fields_in_space(#[trigger] subs[j], space) by {
        lemma_sub_group_in_space(card_groups_from(elements, 0, base, path)[j], space, subs[j]);
    }
}

/// Total replication of the group elements `i..` of a list.
pub open spec fn replication_sum(s: Seq<DataElement>, i: int) -> int
    decreases s.len() - i,
{
    if i < 0 || i >= s.len() {
        0
    } else {
        replication_sum(s, i + 1) + match s[i] {
            DataElement::Group(g) => g.replication as int,
            _ => 0int,
        }
    }
}

/// Instance `ci` is instance `instance` of group element `index` of `s`, at
/// path `path` and its step for that instance.
pub open spec fn instance_shape(s: Seq<DataElement>, path: Seq<Seq<char>>, ci: CardInstance) -> bool {
    &&& 0 <= ci.index < s.len()
    &&& s[ci.index] == DataElement::Group(ci.group)
    &&& 0 <= ci.instance < ci.group.replication
    &&& ci.path == path.push(instance_step(ci.index, ci.instance, ci.group.replication))
}

proof fn lemma_group_instances_shape(s: Seq<DataElement>, g: Group, i: int, start: int, stride: int, k: int, path: Seq<Seq<char>>)
    requires
        0 <= i < s.len(),
        s[i] == DataElement::Group(g),
        0 <= k,
    ensures
        group_instances(g, i, start, stride, k, path).len() == if k <= g.replication { g.replication - k } else { 0 },
        forall|t: int| 0 <= t < group_instances(g, i, start, stride, k, path).len()
            ==> instance_shape(s, path, #[trigger] group_instances(g, i, start, stride, k, path)[t])
                && group_instances(g, i, start, stride, k, path)[t].instance == k + t,
    decreases g.replication - k,
{
    if k < g.replication {
        lemma_group_instances_shape(s, g, i, start, stride, k + 1, path);
        let rest = group_instances(g, i, start, stride, k + 1, path);
        let h = seq![CardInstance { group: g, index: i, instance: k, base: start + k * stride, path: path.push(instance_step(i, k, g.replication)) }];
        assert forall|t: int| 0 <= t < (h + rest).len() implies instance_shape(s, path, #[trigger] (h + rest)[t]) && (h + rest)[t].instance == k + t by {
            if t > 0 { assert((h + rest)[t] == rest[t - 1]); }
        }
    }
}

/// Law: the sub-group instances of a card are, for each group element in
/// turn, one per replication (so their number is the sum of the groups'
/// replications); each is instance `k` (counted from 0) of group element
/// `i`, at path `parent` and `elem:<i>#<k+1>` for a repeated group or
/// `elem:<i>` for a single one. Each card sub-group built for an instance
/// carries that path and the group's replication.
pub proof fn law_card_sub_groups(s: Seq<DataElement>, i: int, cur: int, path: Seq<Seq<char>>)
    requires
        0 <= i,
    ensures
        card_groups_from(s, i, cur, path).len() == replication_sum(s, i),
        forall|t: int| 0 <= t < card_groups_from(s, i, cur, path).len()
            ==> instance_shape(s, path, #[trigger] card_groups_from(s, i, cur, path)[t]),
        forall|gi: CardInstance, space: u8, sg: CardSubGroup| #[trigger] sub_group_ok(gi, space, sg)
            ==> strs(sg.group_path@) == gi.path && sg.replication == gi.group.replication,
    decreases s.len() - i,
{
    if i < s.len() {
        law_card_sub_groups(s, i + 1, cur + footprint(s[i]), path);
        let rest = card_groups_from(s, i + 1, cur + footprint(s[i]), path);
        match s[i] {
            DataElement::Group(g) => {
                let h = group_instances(g, i, cur + g.offset, size_from(g.elements@, 0), 0, path);
                lemma_group_instances_shape(s, g, i, cur + g.offset, size_from(g.elements@, 0), 0, path);
                assert forall|t: int| 0 <= t < (h + rest).len() implies instance_shape(s, path, #[trigger] (h + rest)[t]) by {
                    if t < h.len() { assert((h + rest)[t] == h[t]); } else { assert((h + rest)[t] == rest[t - h.len()]); }
                }
            },
            _ => {},
        }
    }
}

/// Law: a card lists one field per value element, in order; the field of
/// element `i` has path `parent` and `elem:<i>`.
pub proof fn law_card_field_paths(s: Seq<DataElement>, i: int, cur: int, space: u8, path: Seq<Seq<char>>)
    requires
        0 <= i,
    ensures
        forall|t: int| 0 <= t < card_fields_from(s, i, cur, space, path).len() ==> exists|e: int|
            i <= e < s.len() && !(s[e] is Group)
            && (#[trigger] card_fields_from(s, i, cur, space, path)[t]).element_path == path.push(elem_step(e)),
    decreases s.len() - i,
{
    if i < s.len() {
        law_card_field_paths(s, i + 1, cur + footprint(s[i]), space, path);
        let rest = card_fields_from(s, i + 1, cur + footprint(s[i]), space, path);
        if !(s[i] is Group) {
            let h = seq![leaf_field(s[i], i, cur + skip_of(s[i]), space, path)];
            assert forall|t: int| 0 <= t < (h + rest).len() implies exists|e: int|
                i <= e < s.len() && !(s[e] is Group) && (#[trigger] (h + rest)[t]).element_path == path.push(elem_step(e)) by {
                if t == 0 {
                    assert((h + rest)[0] == h[0]);
                    assert(h[0].element_path == path.push(elem_step(i)));
                } else {
                    assert((h + rest)[t] == rest[t - 1]);
                }
            }
        }
    }
}

/// A name, or `<kind> <i>` when there is none.
pub(crate) fn name_or_string(n: &Option<String>, kind: &str, i: usize) -> (r: String)
    ensures
        r@ == name_or(*n, kind@, i as int),
{
    match n {
        Some(x) => copy_string(x),
        None => {
            let mut s = string_of(kind);
            s.append(" ");
            let d = u64_decimal(i as u64);
            s.append(d.as_str());
            s
        },
    }
}

/// The card field of a leaf element stored at `addr`.
fn make_field(e: &DataElement, i: usize, addr: i64, space: u8, parent_path: &Vec<String>) -> (r: CardField)
    requires
        !(e is Group),
        i32::MIN <= addr <= i32::MAX,
    ensures
        r@ == leaf_field(*e, i as int, addr as int, space, strs(parent_path@)),
{
    let mut p = copy_strings(parent_path);
    p.push(elem_step_string(i));
    assert(strs(p@) =~= strs(parent_path@).push(elem_step(i as int)));
    let at = wrap_offset(addr);
    match e {
        DataElement::Int(x) => CardField {
            element_path: p, name: name_or_string(&x.name, "Int", i), description: copy_opt_string(&x.description),
            data_type: string_of("int"), memory_address: at, size_bytes: x.size as u32,
            default_value: match x.default { Some(v) => Some(i64_decimal(v)), None => None },
            address_space: space,
        },
        DataElement::String(x) => CardField {
            element_path: p, name: name_or_string(&x.name, "String", i), description: copy_opt_string(&x.description),
            data_type: string_of("string"), memory_address: at, size_bytes: x.size as u32,
            default_value: None, address_space: space,
        },
        DataElement::EventId(x) => CardField {
            element_path: p, name: name_or_string(&x.name, "EventId", i), description: copy_opt_string(&x.description),
            data_type: string_of("eventid"), memory_address: at, size_bytes: 8,
            default_value: None, address_space: space,
        },
        DataElement::Float(x) => CardField {
            element_path: p, name: name_or_string(&x.name, "Float", i), description: copy_opt_string(&x.description),
            data_type: string_of("float"), memory_address: at, size_bytes: 4,
            default_value: None, address_space: space,
        },
        DataElement::Action(x) => CardField {
            element_path: p, name: name_or_string(&x.name, "Action", i), description: copy_opt_string(&x.description),
            data_type: string_of("action"), memory_address: at, size_bytes: 1,
            default_value: None, address_space: space,
        },
        DataElement::Blob(x) => CardField {
            element_path: p, name: name_or_string(&x.name, "Blob", i), description: copy_opt_string(&x.description),
            data_type: string_of("blob"), memory_address: at, size_bytes: x.size as u32,
            default_value: None, address_space: space,
        },
        DataElement::Group(_) => CardField {
            element_path: p, name: String::new(), description: None, data_type: String::new(),
            memory_address: 0, size_bytes: 0, default_value: None, address_space: space,
        },
    }
}

/// The fields and sub-group instances of a list of elements that starts at
/// `base_address`, every path extending `parent_path`.
pub fn collect_fields_and_subgroups(
    elements: &Vec<DataElement>,
    base_address: i64,
    address_space: u8,
    parent_path: &Vec<String>,
) -> (r: (Vec<CardField>, Vec<CardSubGroup>))
    requires
        abs(base_address as int) + extent_from(elements@, 0) <= i32::MAX,
    ensures
        field_views(r.0@) == card_fields_from(elements@, 0, base_address as int, address_space, strs(parent_path@)),
        r.1@.len() == card_groups_from(elements@, 0, base_address as int, strs(parent_path@)).len(),
        forall|j: int| 0 <= j < r.1@.len() ==> sub_group_ok(
            card_groups_from(elements@, 0, base_address as int, strs(parent_path@))[j], address_space, #[trigger] r.1@[j]),
    decreases elements@,
{
    let ghost s = elements@;
    let ghost pth = strs(parent_path@);
    let ghost mut fdone: Seq<FieldView> = Seq::empty();
    let ghost mut gdone: Seq<CardInstance> = Seq::empty();
    let mut fields: Vec<CardField> = Vec::new();
    let mut subs: Vec<CardSubGroup> = Vec::new();
    let n = elements.len();
    let mut cur: i64 = base_address;
    let mut i: usize = 0;
    proof {
        lemma_size_bound(s, 0);
        assert(card_fields_from(s, 0, base_address as int, address_space, pth) =~= fdone + card_fields_from(s, 0, cur as int, address_space, pth));
        assert(card_groups_from(s, 0, base_address as int, pth) =~= gdone + card_groups_from(s, 0, cur as int, pth));
        assert(field_views(fields@) =~= fdone);
    }
    while i < n
        invariant
            s == elements@,
            pth == strs(parent_path@),
            n == s.len(),
            i <= n,
            abs(cur as int) + extent_from(s, i as int) <= i32::MAX,
            extent_from(s, i as int) >= 0,
            card_fields_from(s, 0, base_address as int, address_space, pth) == fdone + card_fields_from(s, i as int, cur as int, address_space, pth),
            card_groups_from(s, 0, base_address as int, pth) == gdone + card_groups_from(s, i as int, cur as int, pth),
            field_views(fields@) == fdone,
            subs@.len() == gdone.len(),
            forall|j: int| 0 <= j < subs@.len() ==> sub_group_ok(gdone[j], address_space, #[trigger] subs@[j]),
        decreases n - i,
    {
        let e = &elements[i];
        proof {
            lemma_extent_step(s, i as int);
            lemma_footprint_bound(s[i as int]);
            assert(decreases_to!(elements@ => elements@[i as int]));
        }
        let ghost cur0 = cur as int;
        let ghost frest = card_fields_from(s, i + 1, cur0 + footprint(s[i as int]), address_space, pth);
        let ghost grest = card_groups_from(s, i + 1, cur0 + footprint(s[i as int]), pth);
        match e {
            DataElement::Group(g) => {
                let ghost c = g.elements@;
                let ghost ec = extent_from(c, 0);
                proof {
                    lemma_group_decreases(*e);
                    assert(decreases_to!(s => c));
                    lemma_size_bound(c, 0);
                    let m = if g.replication == 0 { 1 } else { g.replication as int };
                    assert(ec <= m * ec) by (nonlinear_arith) requires m >= 1, ec >= 0;
                }
                let stride: i64 = calculate_size(&g.elements) as i64;
                let start: i64 = cur + g.offset as i64;
                let ghost head = group_instances(*g, i as int, start as int, stride as int, 0, pth);
                assert(card_groups_from(s, i as int, cur0, pth) == head + grest);
                assert(card_fields_from(s, i as int, cur0, address_space, pth) == frest);
                let ghost mut hdone: Seq<CardInstance> = Seq::empty();
                let mut k: u32 = 0;
                proof {
                    assert(head =~= hdone + group_instances(*g, i as int, start as int, stride as int, 0, pth));
                }
                while k < g.replication
                    invariant
                        c == g.elements@,
                        s == elements@,
                        pth == strs(parent_path@),
                        decreases_to!(s => c),
                        ec == extent_from(c, 0),
                        stride == size_from(c, 0),
                        abs(stride as int) <= ec,
                        ec >= 0,
                        start == cur0 + g.offset,
                        abs(cur0) + abs(g.offset as int) + (if g.replication == 0 { 1 } else { g.replication as int }) * ec <= i32::MAX,
                        k <= g.replication,
                        head == group_instances(*g, i as int, start as int, stride as int, 0, pth),
                        head == hdone + group_instances(*g, i as int, start as int, stride as int, k as int, pth),
                        subs@.len() == gdone.len() + hdone.len(),
                        forall|j: int| 0 <= j < subs@.len() ==> sub_group_ok((gdone + hdone)[j], address_space, #[trigger] subs@[j]),
                    decreases g.replication - k,
                {
                    proof {
                        lemma_instance_bound(k as int, g.replication as int, g.replication as int, stride as int, ec, cur0, g.offset as int, 0);
                    }
                    let inst_base: i64 = start + (k as i64) * stride;
                    let mut inst_path = copy_strings(parent_path);
                    inst_path.push(instance_step_string(i, k, g.replication));
                    let ghost ip = pth.push(instance_step(i as int, k as int, g.replication));
                    assert(strs(inst_path@) =~= ip);
                    let (sf, sg) = collect_fields_and_subgroups(&g.elements, inst_base, address_space, &inst_path);
                    let built = CardSubGroup {
                        name: name_or_string(&g.name, "Group", i),
                        description: copy_opt_string(&g.description),
                        group_path: inst_path,
                        fields: sf,
                        sub_groups: sg,
                        replication: g.replication,
                    };
                    let ghost gi = CardInstance { group: *g, index: i as int, instance: k as int, base: inst_base as int, path: ip };
                    proof {
                        assert(inst_base as int == start + k * stride);
                        assert(group_instances(*g, i as int, start as int, stride as int, k as int, pth)
                            == seq![gi] + group_instances(*g, i as int, start as int, stride as int, k + 1, pth));
                        assert(sub_group_ok(gi, address_space, built));
                    }
                    let ghost before = subs@;
                    subs.push(built);
                    proof {
                        let nh = hdone.push(gi);
                        assert(nh + group_instances(*g, i as int, start as int, stride as int, k + 1, pth) =~= hdone + (seq![gi]
                            + group_instances(*g, i as int, start as int, stride as int, k + 1, pth)));
                        assert forall|j: int| 0 <= j < subs@.len() implies sub_group_ok((gdone + nh)[j], address_space, #[trigger] subs@[j]) by {
                            if j < before.len() {
                                assert((gdone + nh)[j] == (gdone + hdone)[j]);
                                assert(subs@[j] == before[j]);
                            } else {
                                assert((gdone + nh)[j] == gi);
                            }
                        }
                        hdone = nh;
                    }
                    k = k + 1;
                }
                proof {
                    assert(group_instances(*g, i as int, start as int, stride as int, k as int, pth) =~= Seq::<CardInstance>::empty());
                    assert(hdone =~= head);
                    assert(gdone + head + grest =~= gdone + (head + grest));
                    gdone = gdone + head;
                    let rep = g.replication as int;
                    assert(footprint(*e) == g.offset + rep * stride);
                }
                cur = start + (g.replication as i64) * stride;
            },
            _ => {
                let (off, size): (i32, i64) = match e {
                    DataElement::Int(x) => (x.offset, x.size as i64),
                    DataElement::String(x) => (x.offset, x.size as i64),
                    DataElement::EventId(x) => (x.offset, 8),
                    DataElement::Float(x) => (x.offset, 4),
                    DataElement::Action(x) => (x.offset, 1),
                    DataElement::Blob(x) => (x.offset, x.size as i64),
                    DataElement::Group(x) => (x.offset, 0),
                };
                assert(off == skip_of(*e));
                let at: i64 = cur + off as i64;
                let f = make_field(e, i, at, address_space, parent_path);
                let ghost fv = f@;
                fields.push(f);
                proof {
                    assert(card_fields_from(s, i as int, cur0, address_space, pth) == seq![fv] + frest);
                    assert(card_groups_from(s, i as int, cur0, pth) == grest);
                    assert(fdone + (seq![fv] + frest) =~= fdone.push(fv) + frest);
                    assert(field_views(fields@) =~= fdone.push(fv));
                    fdone = fdone.push(fv);
                }
                cur = at + size;
            },
        }
        proof {
            assert(cur as int == cur0 + footprint(s[i as int]));
        }
        i = i + 1;
    }
    proof {
        assert(card_fields_from(s, n as int, cur as int, address_space, pth) =~= Seq::<FieldView>::empty());
        assert(card_groups_from(s, n as int, cur as int, pth) =~= Seq::<CardInstance>::empty());
        assert(fdone + Seq::<FieldView>::empty() =~= fdone);
        assert(gdone + Seq::<CardInstance>::empty() =~= gdone);
    }
    (fields, subs)
}

/// Position of the first `c` in `s` at or after `i`.
pub open spec fn find_char(s: Seq<char>, c: char, i: int) -> Option<int>
    decreases s.len() - i,
{
    if i < 0 || i >= s.len() {
        None
    } else if s[i] == c {
        Some(i)
    } else {
        find_char(s, c, i + 1)
    }
}

/// Message for a path step that does not start with `elem:`.
pub open spec fn step_shape_error(step: Seq<char>) -> Seq<char> {
    "InvalidPath: expected 'elem:N' or 'elem:N#I', got '"@ + step + "'"@
}

/// Message for a path step with a bad element index.
pub open spec fn step_index_error(step: Seq<char>) -> Seq<char> {
    "InvalidPath: bad element index in '"@ + step + "'"@
}

/// Message for a path step with a bad instance number.
pub open spec fn step_instance_error(step: Seq<char>) -> Seq<char> {
    "InvalidPath: bad instance number in '"@ + step + "'"@
}

/// What an `elem:N` or `elem:N#I` path step denotes: the element index and,
/// for a repeated group, the instance number (counted from 1).
pub open spec fn parse_step_spec(step: Seq<char>) -> Result<(nat, Option<nat>), Seq<char>> {
    if !(step.len() >= 5 && step.subrange(0, 5) == "elem:"@) {
        Err(step_shape_error(step))
    } else {
        let rest = step.subrange(5, step.len() as int);
        match find_char(rest, '#', 0) {
            Some(h) => match parse_unsigned_spec(rest.subrange(0, h), usize::MAX as int) {
                None => Err(step_index_error(step)),
                Some(i) => match parse_unsigned_spec(rest.subrange(h + 1, rest.len() as int), u32::MAX as int) {
                    None => Err(step_instance_error(step)),
                    Some(k) => Ok((i, Some(k))),
                },
            },
            None => match parse_unsigned_spec(rest, usize::MAX as int) {
                None => Err(step_index_error(step)),
                Some(i) => Ok((i, None)),
            },
        }
    }
}

/// Whether `c` starts with the characters of `lit`.
fn starts_with_chars(c: &Vec<char>, lit: &str) -> (r: bool)
    ensures
        r == (c@.len() >= lit@.len() && c@.subrange(0, lit@.len() as int) == lit@),
{
    let l = chars_of(lit);
    if c.len() < l.len() {
        return false;
    }
    let mut i: usize = 0;
    while i < l.len()
        invariant
            l@ == lit@,
            l@.len() <= c@.len(),
            i <= l@.len(),
            forall|j: int| 0 <= j < i ==> c@[j] == l@[j],
        decreases l.len() - i,
    {
        if c[i] != l[i] {
            assert(c@.subrange(0, l@.len() as int)[i as int] != l@[i as int]);
            return false;
        }
        i = i + 1;
    }
    assert(c@.subrange(0, l@.len() as int) =~= l@);
    true
}

/// The characters `c[lo..hi]`.
fn slice_chars(c: &Vec<char>, lo: usize, hi: usize) -> (r: Vec<char>)
    requires
        lo <= hi <= c@.len(),
    ensures
        r@ == c@.subrange(lo as int, hi as int),
{
    let mut out: Vec<char> = Vec::new();
    let mut i: usize = lo;
    while i < hi
        invariant
            lo <= i <= hi,
            hi <= c@.len(),
            out@ == c@.subrange(lo as int, i as int),
        decreases hi - i,
    {
        out.push(c[i]);
        i = i + 1;
    }
    out
}

/// Parses an `elem:N` or `elem:N#I` path step into the element index and
/// the optional instance number (counted from 1).
pub fn parse_elem_path_step(step: &str) -> (r: Result<(usize, Option<u32>), String>)
    ensures
        match parse_step_spec(step@) {
            Ok((i, k)) => r matches Ok((ri, rk)) && ri == i && match k {
                Some(kv) => rk == Some(kv as u32),
                None => rk is None,
            },
            Err(m) => r matches Err(rm) && rm@ == m,
        },
{
    let c = chars_of(step);
    proof { reveal_strlit("elem:"); }
    if !starts_with_chars(&c, "elem:") {
        let mut m = string_of("InvalidPath: expected 'elem:N' or 'elem:N#I', got '");
        m.append(step);
        m.append("'");
        return Err(m);
    }
    let rest = slice_chars(&c, 5, c.len());
    let mut h: usize = 0;
    while h < rest.len() && rest[h] != '#'
        invariant
            h <= rest@.len(),
            find_char(rest@, '#', 0) == find_char(rest@, '#', h as int),
        decreases rest.len() - h,
    {
        h = h + 1;
    }
    let max_index: u64 = usize::MAX as u64;
    if h < rest.len() {
        let idx_part = slice_chars(&rest, 0, h);
        let inst_part = slice_chars(&rest, h + 1, rest.len());
        match parse_unsigned(idx_part.as_slice(), max_index) {
            None => {
                let mut m = string_of("InvalidPath: bad element index in '");
                m.append(step);
                m.append("'");
                Err(m)
            },
            Some(i) => match parse_unsigned(inst_part.as_slice(), 0xFFFF_FFFF) {
                None => {
                    let mut m = string_of("InvalidPath: bad instance number in '");
                    m.append(step);
                    m.append("'");
                    Err(m)
                },
                Some(k) => Ok((i as usize, Some(k as u32))),
            },
        }
    } else {
        match parse_unsigned(rest.as_slice(), max_index) {
            None => {
                let mut m = string_of("InvalidPath: bad element index in '");
                m.append(step);
                m.append("'");
                Err(m)
            },
            Some(i) => Ok((i as usize, None)),
        }
    }
}

/// Where navigating a group path leads: a group instance and where it starts,
/// a failure with its message, or arithmetic beyond 32 bits.
pub enum NavOutcome {
    Found(Group, int),
    Failed(Seq<char>),
    Overflow,
}

/// `x` fits in an `i32`.
pub open spec fn in_i32(x: int) -> bool {
    i32::MIN <= x <= i32::MAX
}

/// A 32-bit unsigned number read as signed.
pub open spec fn signed32(v: nat) -> int {
    if v > i32::MAX { v - 0x1_0000_0000 } else { v as int }
}

/// Message for an element index beyond the list.
pub open spec fn index_range_error(i: nat, len: nat) -> Seq<char> {
    "InvalidPath: element index "@ + decimal_digits(i) + " out of range (len="@ + decimal_digits(len) + ")"@
}

/// Message for a path step naming an element that is not a group.
pub open spec fn not_group_error(i: nat) -> Seq<char> {
    "InvalidPath: element at index "@ + decimal_digits(i) + " is not a group"@
}

/// Follows a path of `elem:` steps through nested groups starting at `base`:
/// each step selects a group by index (its start is the sum of the preceding
/// footprints plus its own offset) and, when given, an instance counted from 1.
pub open spec fn navigate(s: Seq<DataElement>, path: Seq<Seq<char>>, base: int) -> NavOutcome
    decreases path.len(),
{
    if path.len() == 0 {
        NavOutcome::Failed("InvalidPath: unexpected end of path"@)
    } else {
        match parse_step_spec(path[0]) {
            Err(m) => NavOutcome::Failed(m),
            Ok((idx, inst)) => {
                if idx >= s.len() {
                    NavOutcome::Failed(index_range_error(idx, s.len()))
                } else if !(s[idx as int] is Group) {
                    NavOutcome::Failed(not_group_error(idx))
                } else {
                    let g = s[idx as int]->Group_0;
                    let cb = size_from(s, 0) - size_from(s, idx as int);
                    let gs = base + cb + g.offset;
                    let stride = size_from(g.elements@, 0);
                    let i0: int = match inst { Some(k) => signed32(k) - 1, None => 0 };
                    let ib = gs + i0 * stride;
                    if !(in_i32(base + cb) && in_i32(gs) && in_i32(i0) && in_i32(i0 * stride) && in_i32(ib)) {
                        NavOutcome::Overflow
                    } else if path.len() == 1 {
                        NavOutcome::Found(g, ib)
                    } else {
                        navigate(g.elements@, path.drop_first(), ib)
                    }
                }
            },
        }
    }
}

proof fn lemma_prefix_size(s: Seq<DataElement>, i: int)
    requires
        0 <= i <= s.len(),
    ensures
        abs(size_from(s, 0) - size_from(s, i)) <= extent_from(s, 0) - extent_from(s, i),
        extent_from(s, i) >= 0,
    decreases i,
{
    if i > 0 {
        lemma_prefix_size(s, i - 1);
        lemma_extent_step(s, i - 1);
        lemma_footprint_bound(s[i - 1]);
    } else {
        lemma_size_bound(s, 0);
    }
}

proof fn lemma_child_bounded(s: Seq<DataElement>, i: int)
    requires
        0 <= i < s.len(),
        s[i] is Group,
        bounded(s),
    ensures
        bounded(s[i]->Group_0.elements@),
{
    let g = s[i]->Group_0;
    lemma_prefix_size(s, i);
    lemma_extent_step(s, i);
    lemma_size_bound(g.elements@, 0);
    let m = if g.replication == 0 { 1 } else { g.replication as int };
    let ec = extent_from(g.elements@, 0);
    assert(ec <= m * ec) by (nonlinear_arith) requires m >= 1, ec >= 0;
    assert(extent_from(s, 0) >= extent_from(s, i)) by {
        lemma_extent_suffix(s, 0, i);
    }
}

proof fn lemma_extent_suffix(s: Seq<DataElement>, i: int, j: int)
    requires
        0 <= i <= j <= s.len(),
    ensures
        extent_from(s, i) >= extent_from(s, j),
    decreases j - i,
{
    if i < j {
        lemma_extent_step(s, i);
        lemma_extent_suffix(s, i + 1, j);
    }
}

/// Follows a group path through a list of elements starting at `base_offset`,
/// giving the group reached and where the selected instance starts.
pub fn navigate_elements_to_group<'a>(elements: &'a Vec<DataElement>, path: &[String], base_offset: i64) -> (r: Result<(&'a Group, i64), String>)
    requires
        bounded(elements@),
        in_i32(base_offset as int),
        !(navigate(elements@, strs(path@), base_offset as int) is Overflow),
    ensures
        match navigate(elements@, strs(path@), base_offset as int) {
            NavOutcome::Found(g, b) => r matches Ok((rg, rb)) && *rg == g && rb == b,
            NavOutcome::Failed(m) => r matches Err(e) && e@ == m,
            NavOutcome::Overflow => true,
        },
    decreases path@.len(),
{
    let ghost s = elements@;
    let ghost p = strs(path@);
    if path.len() == 0 {
        return Err(string_of("InvalidPath: unexpected end of path"));
    }
    assert(p[0] == path@[0]@);
    let (elem_idx, opt_instance) = match parse_elem_path_step(path[0].as_str()) {
        Ok(v) => v,
        Err(e) => return Err(e),
    };
    if elem_idx >= elements.len() {
        let mut m = string_of("InvalidPath: element index ");
        let d = u64_decimal(elem_idx as u64);
        m.append(d.as_str());
        m.append(" out of range (len=");
        let d2 = u64_decimal(elements.len() as u64);
        m.append(d2.as_str());
        m.append(")");
        return Err(m);
    }
    let mut cursor_before: i64 = 0;
    let mut j: usize = 0;
    proof { lemma_size_bound(s, 0); }
    while j < elem_idx
        invariant
            s == elements@,
            bounded(s),
            elem_idx < s.len(),
            j <= elem_idx,
            cursor_before == size_from(s, 0) - size_from(s, j as int),
            abs(cursor_before as int) <= extent_from(s, 0) - extent_from(s, j as int),
            extent_from(s, j as int) >= 0,
        decreases elem_idx - j,
    {
        proof {
            lemma_extent_step(s, j as int);
            lemma_footprint_bound(s[j as int]);
            lemma_extent_suffix(s, 0, j as int);
        }
        let f = card_element_footprint(&elements[j]);
        cursor_before = cursor_before + f as i64;
        j = j + 1;
    }
    let element = &elements[elem_idx];
    let group = match element {
        DataElement::Group(g) => g,
        _ => {
            let mut m = string_of("InvalidPath: element at index ");
            let d = u64_decimal(elem_idx as u64);
            m.append(d.as_str());
            m.append(" is not a group");
            return Err(m);
        },
    };
    proof {
        lemma_child_bounded(s, elem_idx as int);
    }
    let group_content_start: i64 = base_offset + cursor_before + group.offset as i64;
    let stride: i64 = calculate_size(&group.elements) as i64;
    let instance_0based: i64 = match opt_instance {
        Some(i) => {
            let signed: i64 = if i > 0x7FFF_FFFF { i as i64 - 0x1_0000_0000 } else { i as i64 };
            signed - 1
        },
        None => 0,
    };
    proof {
        assert(in_i32(instance_0based as int));
        assert(in_i32(instance_0based * stride));
    }
    let instance_base: i64 = group_content_start + instance_0based * stride;
    if path.len() == 1 {
        return Ok((group, instance_base));
    }
    let rest = vstd::slice::slice_subrange(path, 1, path.len());
    proof {
        assert(strs(rest@) =~= p.drop_first());
        lemma_group_decreases(s[elem_idx as int]);
    }
    navigate_elements_to_group(&group.elements, rest, instance_base)
}

/// Message for a segment step that is not `seg:N`.
pub open spec fn seg_shape_error(step: Seq<char>) -> Seq<char> {
    "InvalidPath: segment id must be 'seg:N', got '"@ + step + "'"@
}

/// Message for a segment index beyond the description.
pub open spec fn seg_range_error(i: nat) -> Seq<char> {
    "InvalidPath: segment index "@ + decimal_digits(i) + " out of range"@
}

/// The segment index a `seg:N` step denotes.
pub open spec fn seg_index(step: Seq<char>) -> Option<nat> {
    if step.len() >= 4 && step.subrange(0, 4) == "seg:"@ {
        parse_unsigned_spec(step.subrange(4, step.len() as int), usize::MAX as int)
    } else {
        None
    }
}

/// Where a card path leads in a description: `seg:N` then a group path.
pub open spec fn card_target(cdi: Cdi, path: Seq<Seq<char>>) -> NavOutcome {
    if path.len() < 2 {
        NavOutcome::Failed("InvalidPath: group_path must have at least a segment step and one element step"@)
    } else {
        match seg_index(path[0]) {
            None => NavOutcome::Failed(seg_shape_error(path[0])),
            Some(j) => if j >= cdi.segments@.len() {
                NavOutcome::Failed(seg_range_error(j))
            } else {
                let seg = cdi.segments@[j as int];
                navigate(seg.elements@, path.drop_first(), origin_signed(seg.origin))
            },
        }
    }
}

/// The address space of the segment a card path starts in.
pub open spec fn card_space(cdi: Cdi, path: Seq<Seq<char>>) -> u8 {
    cdi.segments@[seg_index(path[0])->0 as int].space
}

/// Builds the card of the group a path leads to: its name, description,
/// fields and expanded sub-groups.
pub fn navigate_and_build_card_tree(cdi: &Cdi, group_path: &[String]) -> (r: Result<CardElementTree, String>)
    requires
        cdi_bounded(*cdi),
        !(card_target(*cdi, strs(group_path@)) is Overflow),
        card_target(*cdi, strs(group_path@)) matches NavOutcome::Found(g, b)
            ==> abs(b) + extent_from(g.elements@, 0) <= i32::MAX,
    ensures
        match card_target(*cdi, strs(group_path@)) {
            NavOutcome::Found(g, b) => r matches Ok(t) && {
                let space = card_space(*cdi, strs(group_path@));
                let subs = card_groups_from(g.elements@, 0, b, strs(group_path@));
                &&& opt_str(t.group_name) == opt_str(g.name)
                &&& opt_str(t.group_description) == opt_str(g.description)
                &&& field_views(t.fields@) == card_fields_from(g.elements@, 0, b, space, strs(group_path@))
                &&& t.sub_groups@.len() == subs.len()
                &&& forall|j: int| 0 <= j < subs.len() ==> sub_group_ok(subs[j], space, #[trigger] t.sub_groups@[j])
            },
            NavOutcome::Failed(m) => r matches Err(e) && e@ == m,
            NavOutcome::Overflow => true,
        },
{
    let ghost p = strs(group_path@);
    if group_path.len() < 2 {
        return Err(string_of("InvalidPath: group_path must have at least a segment step and one element step"));
    }
    let seg_id = &group_path[0];
    assert(p[0] == seg_id@);
    let c = chars_of(seg_id.as_str());
    proof { reveal_strlit("seg:"); }
    let seg_idx: Option<u64> = if starts_with_chars(&c, "seg:") {
        let digits = slice_chars(&c, 4, c.len());
        parse_unsigned(digits.as_slice(), usize::MAX as u64)
    } else {
        None
    };
    let seg_idx: usize = match seg_idx {
        Some(v) => v as usize,
        None => {
            let mut m = string_of("InvalidPath: segment id must be 'seg:N', got '");
            m.append(seg_id.as_str());
            m.append("'");
            return Err(m);
        },
    };
    if seg_idx >= cdi.segments.len() {
        let mut m = string_of("InvalidPath: segment index ");
        let d = u64_decimal(seg_idx as u64);
        m.append(d.as_str());
        m.append(" out of range");
        return Err(m);
    }
    let segment = &cdi.segments[seg_idx];
    let base_offset: i64 = if segment.origin > 0x7FFF_FFFF { segment.origin as i64 - 0x1_0000_0000 } else { segment.origin as i64 };
    let rest = vstd::slice::slice_subrange(group_path, 1, group_path.len());
    proof {
        assert(strs(rest@) =~= p.drop_first());
        assert(bounded(cdi.segments@[seg_idx as int].elements@));
    }
    let (group, group_base) = match navigate_elements_to_group(&segment.elements, rest, base_offset) {
        Ok(v) => v,
        Err(e) => return Err(e),
    };
    let to_vec = copy_string_slice(group_path);
    let (fields, sub_groups) = collect_fields_and_subgroups(&group.elements, group_base, segment.space, &to_vec);
    Ok(CardElementTree {
        group_name: copy_opt_string(&group.name),
        group_description: copy_opt_string(&group.description),
        fields,
        sub_groups,
    })
}

/// A copy of a slice of strings as a vector.
fn copy_string_slice(v: &[String]) -> (r: Vec<String>)
    ensures
        strs(r@) == strs(v@),
{
    let mut out: Vec<String> = Vec::new();
    let mut i: usize = 0;
    while i < v.len()
        invariant
            i <= v@.len(),
            strs(out@) == strs(v@.subrange(0, i as int)),
        decreases v.len() - i,
    {
        let ghost before = out@;
        out.push(copy_string(&v[i]));
        assert(strs(v@.subrange(0, i + 1)) =~= strs(v@.subrange(0, i as int)).push(v@[i as int]@));
        assert(out@ == before.push(out@.last()));
        assert(strs(out@) =~= strs(before).push(out@.last()@));
        i = i + 1;
    }
    assert(v@.subrange(0, v@.len() as int) =~= v@);
    out
}

} // verus!
