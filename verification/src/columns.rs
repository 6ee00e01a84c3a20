//! The items of one column of the configuration browser: the children of a
//! segment or group.
//!
//! When the children include groups, the column lists the groups (each
//! instance of a repeated group apart); otherwise it lists the value
//! elements. Whether a group is shown, and the instances a repeated group
//! expands into, are decided by the CDI model and handed in.

use vstd::prelude::*;
use crate::card::{name_or, name_or_string};
use crate::cdi::{elem_step, elem_step_string, instance_step, instance_step_string, DataElement, GroupInstance};
use crate::text::{copy_opt_string, opt_str, string_of};

verus! {

/// The instance a column item stands for, for a repeated group.
pub struct ColumnInstance {
    pub index: u32,
    pub total_instances: u32,
    pub base_address: i32,
    pub instance_address: i32,
}

/// One item of a column.
pub struct ColumnItem {
    pub name: String,
    pub full_name: Option<String>,
    pub item_type: String,
    pub has_children: bool,
    /// The path step that selects the item (`elem:<i>` or `elem:<i>#<n>`).
    pub path_id: String,
    pub instance: Option<ColumnInstance>,
}

/// A column: its kind (`groups` or `elements`) and items.
pub struct ColumnItems {
    pub column_type: String,
    pub items: Vec<ColumnItem>,
}

/// What a column item states.
pub struct ColumnItemView {
    pub name: Seq<char>,
    pub full_name: Option<Seq<char>>,
    pub item_type: Seq<char>,
    pub has_children: bool,
    pub path_id: Seq<char>,
    pub instance: Option<(u32, u32, i32, i32)>,
}

impl View for ColumnItem {
    type V = ColumnItemView;

    open spec fn view(&self) -> ColumnItemView {
        ColumnItemView {
            name: self.name@,
            full_name: opt_str(self.full_name),
            item_type: self.item_type@,
            has_children: self.has_children,
            path_id: self.path_id@,
            instance: match self.instance {
                Some(x) => Some((x.index, x.total_instances, x.base_address, x.instance_address)),
                None => None,
            },
        }
    }
}

/// The items as plain values.
pub open spec fn column_views(s: Seq<ColumnItem>) -> Seq<ColumnItemView> {
    s.map_values(|x: ColumnItem| x@)
}

/// Some child is a group.
pub open spec fn has_group(s: Seq<DataElement>) -> bool {
    exists|i: int| 0 <= i < s.len() && (#[trigger] s[i]) is Group
}

/// The items of the `k`-th and later instances of repeated group `i`.
pub open spec fn instance_items(s: Seq<DataElement>, i: int, insts: Seq<GroupInstance>, k: int) -> Seq<ColumnItemView>
    decreases insts.len() - k,
{
    if k < 0 || k >= insts.len() {
        Seq::empty()
    } else {
        let g = s[i]->Group_0;
        seq![ColumnItemView {
            name: insts[k].name@,
            full_name: opt_str(g.description),
            item_type: "group"@,
            has_children: g.elements@.len() > 0,
            path_id: instance_step(i, insts[k].index as int, g.replication),
            instance: Some((insts[k].index, g.replication, g.offset, insts[k].address)),
        }] + instance_items(s, i, insts, k + 1)
    }
}

/// The group items of children `i..`: groups not shown are left out; a
/// repeated group gives one item per instance it expands into; any other
/// group one item, named `Group <i>` when it has no name.
pub open spec fn group_items(s: Seq<DataElement>, shown: Seq<bool>, exps: Seq<Seq<GroupInstance>>, i: int) -> Seq<ColumnItemView>
    decreases s.len() - i,
{
    if i < 0 || i >= s.len() {
        Seq::empty()
    } else {
        let rest = group_items(s, shown, exps, i + 1);
        match s[i] {
            DataElement::Group(g) => if !shown[i] {
                rest
            } else if g.replication > 1 {
                instance_items(s, i, exps[i], 0) + rest
            } else {
                seq![ColumnItemView {
                    name: name_or(g.name, "Group"@, i),
                    full_name: opt_str(g.description),
                    item_type: "group"@,
                    has_children: g.elements@.len() > 0,
                    path_id: elem_step(i),
                    instance: None,
                }] + rest
            },
            _ => rest,
        }
    }
}

/// The item of value element `e`, the `i`-th child.
pub open spec fn element_item(e: DataElement, i: int) -> ColumnItemView {
    let (name, full, ty) = match e {
        DataElement::Int(x) => (name_or(x.name, "Int"@, i), opt_str(x.description), "int"@),
        DataElement::String(x) => (name_or(x.name, "String"@, i), opt_str(x.description), "string"@),
        DataElement::EventId(x) => (name_or(x.name, "EventID"@, i), opt_str(x.description), "eventid"@),
        DataElement::Float(x) => (name_or(x.name, "Float"@, i), opt_str(x.description), "float"@),
        DataElement::Action(x) => (name_or(x.name, "Action"@, i), opt_str(x.description), "action"@),
        DataElement::Blob(x) => (name_or(x.name, "Blob"@, i), opt_str(x.description), "blob"@),
        DataElement::Group(_) => (Seq::empty(), None, Seq::empty()),
    };
    ColumnItemView { name, full_name: full, item_type: ty, has_children: false, path_id: elem_step(i), instance: None }
}

/// The items of the first `n` children, when none is a group.
pub open spec fn element_items(s: Seq<DataElement>, n: int) -> Seq<ColumnItemView>
    decreases n,
{
    if n <= 0 {
        Seq::empty()
    } else {
        element_items(s, n - 1).push(element_item(s[n - 1], n - 1))
    }
}

/// The item of a value element.
fn make_element_item(e: &DataElement, i: usize) -> (r: ColumnItem)
    requires
        !(e is Group),
    ensures
        r@ == element_item(*e, i as int),
{
    let (name, full, ty) = match e {
        DataElement::Int(x) => (name_or_string(&x.name, "Int", i), copy_opt_string(&x.description), string_of("int")),
        DataElement::String(x) => (name_or_string(&x.name, "String", i), copy_opt_string(&x.description), string_of("string")),
        DataElement::EventId(x) => (name_or_string(&x.name, "EventID", i), copy_opt_string(&x.description), string_of("eventid")),
        DataElement::Float(x) => (name_or_string(&x.name, "Float", i), copy_opt_string(&x.description), string_of("float")),
        DataElement::Action(x) => (name_or_string(&x.name, "Action", i), copy_opt_string(&x.description), string_of("action")),
        DataElement::Blob(x) => (name_or_string(&x.name, "Blob", i), copy_opt_string(&x.description), string_of("blob")),
        DataElement::Group(_) => (String::new(), None, String::new()),
    };
    ColumnItem { name, full_name: full, item_type: ty, has_children: false, path_id: elem_step_string(i), instance: None }
}

/// The items of one column: the children `elements` of the selected segment
/// or group, `shown[i]` telling whether group child `i` is shown and
/// `expansions[i]` the instances repeated group child `i` expands into.
pub fn column_items(elements: &Vec<DataElement>, shown: &Vec<bool>, expansions: &Vec<Vec<GroupInstance>>) -> (r: ColumnItems)
    requires
        shown@.len() == elements@.len(),
        expansions@.len() == elements@.len(),
        forall|i: int, k: int| 0 <= i < expansions@.len() && 0 <= k < expansions@[i]@.len()
            ==> (#[trigger] expansions@[i]@[k]).index < u32::MAX,
    ensures
        has_group(elements@) ==> r.column_type@ == "groups"@
            && column_views(r.items@) == group_items(elements@, shown@, expansions@.map_values(|v: Vec<GroupInstance>| v@), 0),
        !has_group(elements@) ==> r.column_type@ == "elements"@
            && column_views(r.items@) == element_items(elements@, elements@.len() as int),
{
    let ghost s = elements@;
    let ghost ex = expansions@.map_values(|v: Vec<GroupInstance>| v@);
    let mut any_group = false;
    let mut j: usize = 0;
    while j < elements.len()
        invariant
            j <= elements@.len(),
            any_group <==> exists|t: int| 0 <= t < j && (#[trigger] elements@[t]) is Group,
        decreases elements.len() - j,
    {
        match &elements[j] {
            DataElement::Group(_) => { any_group = true; },
            _ => {},
        }
        j = j + 1;
    }
    let mut items: Vec<ColumnItem> = Vec::new();
    if any_group {
        let mut i: usize = elements.len();
        let mut acc: Vec<ColumnItem> = Vec::new();
        // Built back to front: `acc` holds the items of children `i..`.
        while i > 0
            invariant
                s == elements@,
                ex == expansions@.map_values(|v: Vec<GroupInstance>| v@),
                shown@.len() == s.len(),
                expansions@.len() == s.len(),
                forall|a: int, k: int| 0 <= a < expansions@.len() && 0 <= k < expansions@[a]@.len()
                    ==> (#[trigger] expansions@[a]@[k]).index < u32::MAX,
                i <= s.len(),
                column_views(acc@) == group_items(s, shown@, ex, i as int),
            decreases i,
        {
            i = i - 1;
            let ghost rest = column_views(acc@);
            match &elements[i] {
                DataElement::Group(g) => {
                    if shown[i] {
                        let mut front: Vec<ColumnItem> = Vec::new();
                        if g.replication > 1 {
                            let insts = &expansions[i];
                            assert(ex[i as int] == insts@);
                            let mut k: usize = 0;
                            while k < insts.len()
                                invariant
                                    s == elements@,
                                    0 <= i < s.len(),
                                    s[i as int] == DataElement::Group(*g),
                                    insts@ == expansions@[i as int]@,
                                    forall|b: int| 0 <= b < insts@.len() ==> (#[trigger] insts@[b]).index < u32::MAX,
                                    k <= insts@.len(),
                                    column_views(front@) + instance_items(s, i as int, insts@, k as int)
                                        == instance_items(s, i as int, insts@, 0),
                                decreases insts.len() - k,
                            {
                                let inst = &insts[k];
                                assert(inst.index < u32::MAX);
                                let ghost f0 = column_views(front@);
                                front.push(ColumnItem {
                                    name: string_of(inst.name.as_str()),
                                    full_name: copy_opt_string(&g.description),
                                    item_type: string_of("group"),
                                    has_children: g.elements.len() > 0,
                                    path_id: instance_step_string(i, inst.index, g.replication),
                                    instance: Some(ColumnInstance {
                                        index: inst.index,
                                        total_instances: g.replication,
                                        base_address: g.offset,
                                        instance_address: inst.address,
                                    }),
                                });
                                assert(column_views(front@) =~= f0.push(column_views(front@).last()));
                                assert(instance_items(s, i as int, insts@, k as int)
                                    == seq![column_views(front@).last()] + instance_items(s, i as int, insts@, k + 1));
                                assert(f0 + instance_items(s, i as int, insts@, k as int)
                                    =~= column_views(front@) + instance_items(s, i as int, insts@, k + 1));
                                k = k + 1;
                            }
                            assert(instance_items(s, i as int, insts@, k as int) =~= Seq::<ColumnItemView>::empty());
                            assert(column_views(front@) =~= column_views(front@) + instance_items(s, i as int, insts@, k as int));
                        } else {
                            front.push(ColumnItem {
                                name: name_or_string(&g.name, "Group", i),
                                full_name: copy_opt_string(&g.description),
                                item_type: string_of("group"),
                                has_children: g.elements.len() > 0,
                                path_id: elem_step_string(i),
                                instance: None,
                            });
                        }
                        let ghost fv = column_views(front@);
                        front.append(&mut acc);
                        assert(column_views(front@) =~= fv + rest);
                        acc = front;
                    }
                },
                _ => {},
            }
            assert(column_views(acc@) =~= group_items(s, shown@, ex, i as int));
        }
        items = acc;
        proof { reveal_strlit("groups"); }
        assert(has_group(s));
        ColumnItems { column_type: string_of("groups"), items }
    } else {
        let mut i: usize = 0;
        while i < elements.len()
            invariant
                s == elements@,
                forall|t: int| 0 <= t < s.len() ==> !((#[trigger] s[t]) is Group),
                i <= s.len(),
                column_views(items@) == element_items(s, i as int),
            decreases elements.len() - i,
        {
            let it = make_element_item(&elements[i], i);
            items.push(it);
            assert(column_views(items@) =~= element_items(s, i as int).push(element_item(s[i as int], i as int)));
            i = i + 1;
        }
        assert(!has_group(s));
        ColumnItems { column_type: string_of("elements"), items }
    }
}

} // verus!
