//! The configuration description (CDI) of a node: segments of memory, each a
//! list of elements laid out one after another, with groups that may repeat.
//!
//! Every element first skips `offset` bytes (which may be negative) and then
//! occupies its size; a group occupies its content `replication` times.

use vstd::prelude::*;
use std::collections::BTreeSet;
use crate::text::{
    copy_string, copy_strings, decimal_digits, from_utf8_lossy, opt_str, string_of, strs, u64_decimal, utf8_lossy,
};
use crate::codec::{be_signed, be_signed_of};

verus! {

/// An integer field of 1, 2, 4 or 8 bytes.
pub struct IntElement {
    pub name: Option<String>,
    pub description: Option<String>,
    pub size: u8,
    pub offset: i32,
    pub min: Option<i64>,
    pub max: Option<i64>,
    pub default: Option<i64>,
    /// Labels for particular values.
    pub map: Option<IntMap>,
}

/// One labelled value of an integer field.
pub struct MapEntry {
    pub value: i64,
    pub label: String,
}

/// The labelled values of an integer field.
pub struct IntMap {
    pub entries: Vec<MapEntry>,
}

/// A fixed-size, NUL-padded text field.
pub struct StringElement {
    pub name: Option<String>,
    pub description: Option<String>,
    pub size: usize,
    pub offset: i32,
}

/// An 8-byte event identifier field.
pub struct EventIdElement {
    pub name: Option<String>,
    pub description: Option<String>,
    pub offset: i32,
}

/// A floating-point field of 2, 4 or 8 bytes.
pub struct FloatElement {
    pub name: Option<String>,
    pub description: Option<String>,
    pub offset: i32,
    pub size: u8,
}

/// A one-byte trigger field.
pub struct ActionElement {
    pub name: Option<String>,
    pub description: Option<String>,
    pub offset: i32,
}

/// An opaque block of bytes.
pub struct BlobElement {
    pub name: Option<String>,
    pub description: Option<String>,
    pub offset: i32,
    pub size: usize,
}

/// A group of elements, repeated `replication` times.
pub struct Group {
    pub name: Option<String>,
    pub description: Option<String>,
    pub offset: i32,
    pub replication: u32,
    pub repname: Vec<String>,
    pub elements: Vec<DataElement>,
}

/// One element of a segment or group.
pub enum DataElement {
    Group(Group),
    Int(IntElement),
    String(StringElement),
    EventId(EventIdElement),
    Float(FloatElement),
    Action(ActionElement),
    Blob(BlobElement),
}

/// A segment: the elements of one address space, starting at `origin`.
pub struct Segment {
    pub name: Option<String>,
    pub description: Option<String>,
    pub space: u8,
    pub origin: u32,
    pub elements: Vec<DataElement>,
}

/// A node's configuration description.
pub struct Cdi {
    pub segments: Vec<Segment>,
}

/// Absolute value.
pub open spec fn abs(x: int) -> int {
    if x < 0 { -x } else { x }
}

/// A group element decreases to the list of its elements.
pub proof fn lemma_group_decreases(e: DataElement)
    requires
        e is Group,
    ensures
        decreases_to!(e => e->Group_0.elements@),
{
    let g = e->Group_0;
    assert(decreases_to!(e => g));
    assert(decreases_to!(g => g.elements));
    assert(decreases_to!(g.elements => g.elements@));
}

/// Bytes an element advances the cursor: its offset plus its size (a group
/// counts its content once per instance).
pub open spec fn footprint(e: DataElement) -> int
    decreases e, 0int,
{
    match e {
        DataElement::Group(g) => {
            proof { lemma_group_decreases(e); }
            g.offset + g.replication * size_from(g.elements@, 0)
        },
        DataElement::Int(x) => x.offset + x.size,
        DataElement::String(x) => x.offset + x.size,
        DataElement::EventId(x) => x.offset + 8,
        DataElement::Float(x) => x.offset + 4,
        DataElement::Action(x) => x.offset + 1,
        DataElement::Blob(x) => x.offset + x.size,
    }
}

/// Total footprint of the elements of `s` from position `i` on.
pub open spec fn size_from(s: Seq<DataElement>, i: int) -> int
    decreases s, s.len() - i,
{
    if i < 0 || i >= s.len() {
        0
    } else {
        footprint(s[i]) + size_from(s, i + 1)
    }
}

/// The largest distance the cursor can travel over an element, counting every
/// offset and size as positive.
pub open spec fn extent(e: DataElement) -> int
    decreases e, 0int,
{
    match e {
        DataElement::Group(g) => {
            proof { lemma_group_decreases(e); }
            abs(g.offset as int) + (if g.replication == 0 { 1 } else { g.replication as int }) * extent_from(g.elements@, 0)
        },
        DataElement::Int(x) => abs(x.offset as int) + x.size,
        DataElement::String(x) => abs(x.offset as int) + x.size,
        DataElement::EventId(x) => abs(x.offset as int) + 8,
        DataElement::Float(x) => abs(x.offset as int) + 4 + x.size,
        DataElement::Action(x) => abs(x.offset as int) + 1,
        DataElement::Blob(x) => abs(x.offset as int) + x.size,
    }
}

/// Total extent of the elements of `s` from position `i` on.
pub open spec fn extent_from(s: Seq<DataElement>, i: int) -> int
    decreases s, s.len() - i,
{
    if i < 0 || i >= s.len() {
        0
    } else {
        extent(s[i]) + extent_from(s, i + 1)
    }
}

/// A list of elements whose layout arithmetic stays within 32-bit signed range.
pub open spec fn bounded(s: Seq<DataElement>) -> bool {
    extent_from(s, 0) <= i32::MAX
}

/// Multiplying by a count scales a bound.
pub proof fn lemma_mul_bound(r: int, x: int, e: int)
    requires
        r >= 0,
        abs(x) <= e,
    ensures
        abs(r * x) <= r * e,
        r * e >= 0,
{
    assert(abs(r * x) <= r * e && r * e >= 0) by (nonlinear_arith)
        requires r >= 0, abs(x) <= e, e >= 0 || e < 0;
}

/// An element's footprint is bounded by its extent, and extents are not negative.
pub proof fn lemma_footprint_bound(e: DataElement)
    ensures
        abs(footprint(e)) <= extent(e),
        extent(e) >= 0,
    decreases e, 0int,
{
    match e {
        DataElement::Group(g) => {
            lemma_group_decreases(e);
            lemma_size_bound(g.elements@, 0);
            lemma_mul_bound(g.replication as int, size_from(g.elements@, 0), extent_from(g.elements@, 0));
            let m = if g.replication == 0 { 1 } else { g.replication as int };
            let ec = extent_from(g.elements@, 0);
            assert(g.replication * ec <= m * ec) by (nonlinear_arith)
                requires g.replication <= m, ec >= 0;
        },
        _ => {},
    }
}

/// A list's total footprint is bounded by its extent.
pub proof fn lemma_size_bound(s: Seq<DataElement>, i: int)
    ensures
        abs(size_from(s, i)) <= extent_from(s, i),
        extent_from(s, i) >= 0,
    decreases s, s.len() - i,
{
    if 0 <= i < s.len() {
        lemma_footprint_bound(s[i]);
        lemma_size_bound(s, i + 1);
    }
}

/// The extent of a list from `i` on is the extent of element `i` plus the rest.
pub proof fn lemma_extent_step(s: Seq<DataElement>, i: int)
    requires
        0 <= i < s.len(),
    ensures
        extent_from(s, i) == extent(s[i]) + extent_from(s, i + 1),
        extent(s[i]) >= 0,
        extent_from(s, i + 1) >= 0,
{
    lemma_footprint_bound(s[i]);
    lemma_size_bound(s, i + 1);
}

/// The byte footprint of one element in its parent's layout.
pub fn card_element_footprint(element: &DataElement) -> (r: i32)
    requires
        extent(*element) <= i32::MAX,
    ensures
        r == footprint(*element),
    decreases *element,
{
    proof { lemma_footprint_bound(*element); }
    match element {
        DataElement::Group(g) => {
            proof {
                lemma_group_decreases(*element);
                lemma_size_bound(g.elements@, 0);
                lemma_mul_bound(g.replication as int, size_from(g.elements@, 0), extent_from(g.elements@, 0));
                let m = if g.replication == 0 { 1 } else { g.replication as int };
                let ec = extent_from(g.elements@, 0);
                assert(g.replication * ec <= m * ec) by (nonlinear_arith)
                    requires g.replication <= m, ec >= 0;
                assert(g.replication * extent_from(g.elements@, 0) <= i32::MAX);
                if g.replication > 0 {
                    assert(extent_from(g.elements@, 0) <= g.replication * extent_from(g.elements@, 0)) by (nonlinear_arith)
                        requires g.replication >= 1, extent_from(g.elements@, 0) >= 0;
                }
            }
            let stride: i64 = if g.replication == 0 { 0 } else { calculate_size(&g.elements) as i64 };
            proof {
                if g.replication > 0 {
                    lemma_mul_bound(g.replication as int, stride as int, extent_from(g.elements@, 0));
                    assert(abs(g.replication * stride) <= i32::MAX);
                    assert(stride * g.replication == g.replication * stride) by (nonlinear_arith);
                } else {
                    assert(stride == 0);
                }
            }
            let prod: i64 = stride * (g.replication as i64);
            proof {
                let sz = size_from(g.elements@, 0);
                let rep = g.replication as int;
                if rep == 0 {
                    assert(rep * sz == 0) by (nonlinear_arith) requires rep == 0;
                    assert(prod == 0);
                } else {
                    assert(prod == rep * sz) by (nonlinear_arith)
                        requires prod == stride * rep, stride == sz;
                }
            }
            (g.offset as i64 + prod) as i32
        },
        DataElement::Int(e) => e.offset + e.size as i32,
        DataElement::String(e) => e.offset + e.size as i32,
        DataElement::EventId(e) => e.offset + 8,
        DataElement::Float(e) => e.offset + 4,
        DataElement::Action(e) => e.offset + 1,
        DataElement::Blob(e) => e.offset + e.size as i32,
    }
}

/// The size of one instance of a list of elements: the sum of their footprints.
pub fn calculate_size(elements: &Vec<DataElement>) -> (r: i32)
    requires
        bounded(elements@),
    ensures
        r == size_from(elements@, 0),
    decreases elements@,
{
    let mut acc: i64 = 0;
    let mut i: usize = 0;
    proof { lemma_size_bound(elements@, 0); }
    while i < elements.len()
        invariant
            i <= elements@.len(),
            bounded(elements@),
            acc == size_from(elements@, 0) - size_from(elements@, i as int),
            abs(acc as int) <= extent_from(elements@, 0) - extent_from(elements@, i as int),
            extent_from(elements@, i as int) >= 0,
        decreases elements.len() - i,
    {
        proof {
            lemma_extent_step(elements@, i as int);
            lemma_footprint_bound(elements@[i as int]);
            assert(decreases_to!(elements@ => elements@[i as int]));
        }
        let f = card_element_footprint(&elements[i]);
        acc = acc + f as i64;
        i = i + 1;
    }
    proof { lemma_size_bound(elements@, 0); }
    acc as i32
}

/// The path step naming element `i` of a list: `elem:<i>`.
pub open spec fn elem_step(i: int) -> Seq<char> {
    "elem:"@ + decimal_digits(i as nat)
}

/// The path step naming instance `k` (counted from 0) of group element `i`:
/// `elem:<i>#<k+1>` for a repeated group, `elem:<i>` otherwise.
pub open spec fn instance_step(i: int, k: int, replication: u32) -> Seq<char> {
    if replication > 1 {
        "elem:"@ + decimal_digits(i as nat) + "#"@ + decimal_digits((k + 1) as nat)
    } else {
        elem_step(i)
    }
}

/// The path step naming segment `j`: `seg:<j>`.
pub open spec fn seg_step(j: int) -> Seq<char> {
    "seg:"@ + decimal_digits(j as nat)
}

/// `elem:<i>` as a string.
pub fn elem_step_string(i: usize) -> (r: String)
    ensures
        r@ == elem_step(i as int),
{
    let mut s = string_of("elem:");
    let d = u64_decimal(i as u64);
    s.append(d.as_str());
    s
}

/// The path step of a group instance as a string.
pub fn instance_step_string(i: usize, k: u32, replication: u32) -> (r: String)
    requires
        k < u32::MAX,
    ensures
        r@ == instance_step(i as int, k as int, replication),
{
    if replication > 1 {
        let mut s = string_of("elem:");
        let d = u64_decimal(i as u64);
        s.append(d.as_str());
        s.append("#");
        let d2 = u64_decimal(k as u64 + 1);
        s.append(d2.as_str());
        s
    } else {
        elem_step_string(i)
    }
}

/// `seg:<j>` as a string.
pub fn seg_step_string(j: usize) -> (r: String)
    ensures
        r@ == seg_step(j as int),
{
    let mut s = string_of("seg:");
    let d = u64_decimal(j as u64);
    s.append(d.as_str());
    s
}

/// Reinterprets an address computed in 32-bit signed arithmetic as unsigned.
pub open spec fn wrap32(x: int) -> u32 {
    if x >= 0 { x as u32 } else { (x + 0x1_0000_0000) as u32 }
}

/// The 32-bit unsigned form of a signed offset within `i32` range.
pub fn wrap_offset(x: i64) -> (r: u32)
    requires
        i32::MIN <= x <= i32::MAX,
    ensures
        r == wrap32(x as int),
{
    if x >= 0 { x as u32 } else { (x + 0x1_0000_0000) as u32 }
}

/// The name of a leaf element, or a fallback naming its kind.
pub open spec fn leaf_name(e: DataElement) -> Seq<char> {
    match e {
        DataElement::Int(x) => match x.name { Some(n) => n@, None => "int"@ },
        DataElement::String(x) => match x.name { Some(n) => n@, None => "string"@ },
        DataElement::EventId(x) => match x.name { Some(n) => n@, None => "eventid"@ },
        DataElement::Float(x) => match x.name { Some(n) => n@, None => "float"@ },
        _ => Seq::empty(),
    }
}

/// Elements that hold a readable configuration value.
pub open spec fn is_value_leaf(e: DataElement) -> bool {
    e is Int || e is String || e is EventId || e is Float
}

/// A value element together with where it lives.
pub struct ElementWithAddress<'a> {
    pub path: Vec<String>,
    pub segment_origin: u32,
    pub element_offset: u32,
    pub name: String,
    pub element: &'a DataElement,
    pub space: u8,
}

/// What an addressed element states.
pub struct AddressedView {
    pub path: Seq<Seq<char>>,
    pub segment_origin: u32,
    pub element_offset: u32,
    pub name: Seq<char>,
    pub element: DataElement,
    pub space: u8,
}

impl<'a> View for ElementWithAddress<'a> {
    type V = AddressedView;

    open spec fn view(&self) -> AddressedView {
        AddressedView {
            path: strs(self.path@),
            segment_origin: self.segment_origin,
            element_offset: self.element_offset,
            name: self.name@,
            element: *self.element,
            space: self.space,
        }
    }
}

/// The views of a list of addressed elements.
pub open spec fn addressed_views<'a>(s: Seq<ElementWithAddress<'a>>) -> Seq<AddressedView> {
    s.map_values(|e: ElementWithAddress<'a>| e@)
}

impl<'a> ElementWithAddress<'a> {
    /// Absolute byte address to read the element from.
    pub fn absolute_address(&self) -> (r: u32)
        requires
            self.segment_origin + self.element_offset <= u32::MAX,
        ensures
            r == self.segment_origin + self.element_offset,
    {
        self.segment_origin + self.element_offset
    }
}

/// The value elements of `s` from position `i` on, element `i` starting at
/// cursor `cur`, in layout order.
pub open spec fn leaves_list(s: Seq<DataElement>, i: int, cur: int, path: Seq<Seq<char>>, origin: u32, space: u8) -> Seq<AddressedView>
    decreases s, 1int, s.len() - i,
{
    if i < 0 || i >= s.len() {
        Seq::empty()
    } else {
        leaves_elem(s[i], i, cur, path, origin, space) + leaves_list(s, i + 1, cur + footprint(s[i]), path, origin, space)
    }
}

/// The value elements of element `e`, the `i`-th of its list, at cursor `cur`.
pub open spec fn leaves_elem(e: DataElement, i: int, cur: int, path: Seq<Seq<char>>, origin: u32, space: u8) -> Seq<AddressedView>
    decreases e, 0int, 0int,
{
    match e {
        DataElement::Group(g) => {
            proof { lemma_group_decreases(e); }
            leaves_instances(g.elements@, g.replication, i, cur + g.offset, size_from(g.elements@, 0), 0,
                if size_from(g.elements@, 0) == 0 && g.replication > 1 { 1 } else { g.replication as int },
                path, origin, space)
        },
        DataElement::Action(_) => Seq::empty(),
        DataElement::Blob(_) => Seq::empty(),
        _ => seq![AddressedView {
            path: path.push(elem_step(i)),
            segment_origin: origin,
            element_offset: wrap32(cur + leaf_offset(e)),
            name: leaf_name(e),
            element: e,
            space,
        }],
    }
}

/// The offset skip of an element.
pub open spec fn leaf_offset(e: DataElement) -> int {
    match e {
        DataElement::Group(x) => x.offset as int,
        DataElement::Int(x) => x.offset as int,
        DataElement::String(x) => x.offset as int,
        DataElement::EventId(x) => x.offset as int,
        DataElement::Float(x) => x.offset as int,
        DataElement::Action(x) => x.offset as int,
        DataElement::Blob(x) => x.offset as int,
    }
}

/// The value elements of instances `k..n` of a group whose content `c`
/// starts at `start` and repeats every `stride` bytes.
pub open spec fn leaves_instances(c: Seq<DataElement>, rep: u32, i: int, start: int, stride: int, k: int, n: int, path: Seq<Seq<char>>, origin: u32, space: u8) -> Seq<AddressedView>
    decreases c, 2int, n - k,
{
    if k < 0 || k >= n {
        Seq::empty()
    } else {
        leaves_list(c, 0, start + k * stride, path.push(instance_step(i, k, rep)), origin, space)
            + leaves_instances(c, rep, i, start, stride, k + 1, n, path, origin, space)
    }
}

/// The name of a value element, or the fallback for its kind.
fn leaf_name_string(e: &DataElement) -> (r: String)
    requires
        is_value_leaf(*e),
    ensures
        r@ == leaf_name(*e),
{
    let (n, fallback) = match e {
        DataElement::Int(x) => (&x.name, "int"),
        DataElement::String(x) => (&x.name, "string"),
        DataElement::EventId(x) => (&x.name, "eventid"),
        DataElement::Float(x) => (&x.name, "float"),
        _ => (&None, ""),
    };
    match n {
        Some(v) => copy_string(v),
        None => string_of(fallback),
    }
}

/// Bounds the start of group instance `k` given the bound on the group.
pub proof fn lemma_instance_bound(k: int, n: int, rep: int, stride: int, ec: int, cur: int, off: int, pad: int)
    requires
        0 <= k < n,
        n <= (if rep == 0 { 1 } else { rep }),
        rep >= 0,
        abs(stride) <= ec,
        ec >= 0,
        pad >= 0,
        pad + abs(cur) + abs(off) + (if rep == 0 { 1 } else { rep }) * ec <= i32::MAX,
    ensures
        pad + abs(cur + off + k * stride) + ec <= i32::MAX,
        abs(k * stride) <= k * ec,
{
    let m = if rep == 0 { 1 } else { rep };
    assert(abs(k * stride) <= k * ec) by (nonlinear_arith)
        requires k >= 0, abs(stride) <= ec, ec >= 0;
    assert((k + 1) * ec <= m * ec) by (nonlinear_arith)
        requires k + 1 <= m, ec >= 0;
    assert(k * ec + ec == (k + 1) * ec) by (nonlinear_arith);
}

/// Collects the value elements of a list, in layout order, with the address
/// each one lives at. `base_offset` is where the list starts, relative to the
/// segment origin; `current_path` is the path of the list itself.
pub fn process_elements<'a>(
    elements: &'a Vec<DataElement>,
    current_path: &mut Vec<String>,
    segment_origin: u32,
    base_offset: i64,
    segment_space: u8,
    results: &mut Vec<ElementWithAddress<'a>>,
)
    requires
        abs(base_offset as int) + extent_from(elements@, 0) <= i32::MAX,
    ensures
        strs(final(current_path)@) == strs(old(current_path)@),
        addressed_views(final(results)@) == addressed_views(old(results)@)
            + leaves_list(elements@, 0, base_offset as int, strs(old(current_path)@), segment_origin, segment_space),
    decreases elements@,
{
    let ghost s = elements@;
    let ghost pth = strs(current_path@);
    let ghost r0 = addressed_views(results@);
    let ghost mut done: Seq<AddressedView> = Seq::empty();
    let n = elements.len();
    let mut cur: i64 = base_offset;
    let mut i: usize = 0;
    proof {
        lemma_size_bound(s, 0);
        assert(leaves_list(s, 0, base_offset as int, pth, segment_origin, segment_space)
            =~= done + leaves_list(s, 0, cur as int, pth, segment_origin, segment_space));
        assert(addressed_views(results@) =~= r0 + done);
    }
    while i < n
        invariant
            s == elements@,
            n == s.len(),
            i <= n,
            abs(cur as int) + extent_from(s, i as int) <= i32::MAX,
            extent_from(s, i as int) >= 0,
            leaves_list(s, 0, base_offset as int, pth, segment_origin, segment_space)
                == done + leaves_list(s, i as int, cur as int, pth, segment_origin, segment_space),
            addressed_views(results@) == r0 + done,
            strs(current_path@) == pth,
        decreases n - i,
    {
        let e = &elements[i];
        proof {
            lemma_extent_step(s, i as int);
            lemma_footprint_bound(s[i as int]);
            assert(decreases_to!(elements@ => elements@[i as int]));
        }
        let ghost cur0 = cur as int;
        let ghost head = leaves_elem(s[i as int], i as int, cur0, pth, segment_origin, segment_space);
        assert(leaves_list(s, i as int, cur0, pth, segment_origin, segment_space)
            == head + leaves_list(s, i + 1, cur0 + footprint(s[i as int]), pth, segment_origin, segment_space));
        match e {
            DataElement::Group(g) => {
                let ghost c = g.elements@;
                proof {
                    lemma_group_decreases(*e);
                    assert(decreases_to!(s => c));
                }
                let ghost ec = extent_from(c, 0);
                proof {
                    lemma_size_bound(c, 0);
                    let m = if g.replication == 0 { 1 } else { g.replication as int };
                    assert(ec <= m * ec) by (nonlinear_arith) requires m >= 1, ec >= 0;
                }
                let stride: i64 = calculate_size(&g.elements) as i64;
                let start: i64 = cur + g.offset as i64;
                let count: u32 = if stride == 0 && g.replication > 1 { 1 } else { g.replication };
                let ghost before = addressed_views(results@);
                let ghost mut done_g: Seq<AddressedView> = Seq::empty();
                let mut k: u32 = 0;
                proof {
                    assert(head =~= done_g + leaves_instances(c, g.replication, i as int, start as int, stride as int, 0,
                        count as int, pth, segment_origin, segment_space));
                }
                while k < count
                    invariant
                        c == g.elements@,
                        s == elements@,
                        decreases_to!(s => c),
                        ec == extent_from(c, 0),
                        stride == size_from(c, 0),
                        abs(stride as int) <= ec,
                        ec >= 0,
                        start == cur0 + g.offset,
                        count <= (if g.replication == 0 { 1 } else { g.replication as int }),
                        abs(cur0) + abs(g.offset as int) + (if g.replication == 0 { 1 } else { g.replication as int }) * ec <= i32::MAX,
                        k <= count,
                        head == done_g + leaves_instances(c, g.replication, i as int, start as int, stride as int, k as int,
                            count as int, pth, segment_origin, segment_space),
                        addressed_views(results@) == before + done_g,
                        strs(current_path@) == pth,
                    decreases count - k,
                {
                    proof {
                        lemma_instance_bound(k as int, count as int, g.replication as int, stride as int, ec, cur0, g.offset as int, 0);
                    }
                    let inst_base: i64 = start + (k as i64) * stride;
                    let step = instance_step_string(i, k, g.replication);
                    let ghost before_k = addressed_views(results@);
                    current_path.push(step);
                    assert(strs(current_path@) =~= pth.push(instance_step(i as int, k as int, g.replication)));
                    process_elements(&g.elements, current_path, segment_origin, inst_base, segment_space, results);
                    let ghost pp = current_path@;
                    let _ = current_path.pop();
                    proof {
                        assert(current_path@ == pp.drop_last());
                        assert(strs(current_path@) =~= strs(pp).drop_last());
                        let inner = leaves_list(c, 0, inst_base as int, pth.push(instance_step(i as int, k as int, g.replication)),
                            segment_origin, segment_space);
                        assert(inst_base as int == start + k * stride);
                        assert(leaves_instances(c, g.replication, i as int, start as int, stride as int, k as int, count as int, pth,
                            segment_origin, segment_space) == inner + leaves_instances(c, g.replication, i as int, start as int,
                            stride as int, k + 1, count as int, pth, segment_origin, segment_space));
                        done_g = done_g + inner;
                    }
                    k = k + 1;
                }
                proof {
                    let rep = g.replication as int;
                    if stride == 0 {
                        assert(count * stride == 0) by (nonlinear_arith) requires stride == 0;
                        assert(rep * stride == 0) by (nonlinear_arith) requires stride == 0;
                    }
                    assert(footprint(*e) == g.offset + rep * stride);
                }
                cur = start + (count as i64) * stride;
                proof { done = done + done_g; }
            },
            DataElement::Action(a) => {
                cur = cur + a.offset as i64 + 1;
                proof { assert(head =~= Seq::<AddressedView>::empty()); }
            },
            DataElement::Blob(b) => {
                cur = cur + b.offset as i64 + b.size as i64;
                proof { assert(head =~= Seq::<AddressedView>::empty()); }
            },
            _ => {
                let (off, size): (i32, i64) = match e {
                    DataElement::Int(x) => (x.offset, x.size as i64),
                    DataElement::String(x) => (x.offset, x.size as i64),
                    DataElement::EventId(x) => (x.offset, 8),
                    _ => (match e { DataElement::Float(x) => x.offset, _ => 0 }, 4),
                };
                assert(off == leaf_offset(*e));
                let at: i64 = cur + off as i64;
                let mut p = copy_strings(current_path);
                p.push(elem_step_string(i));
                let rec = ElementWithAddress {
                    path: p,
                    segment_origin,
                    element_offset: wrap_offset(at),
                    name: leaf_name_string(e),
                    element: e,
                    space: segment_space,
                };
                let ghost rv = rec@;
                let ghost before = results@;
                results.push(rec);
                proof {
                    assert(strs(p@) =~= pth.push(elem_step(i as int)));
                    assert(rv == head[0]);
                    assert(head =~= seq![rv]);
                    assert(addressed_views(results@) =~= addressed_views(before).push(rv));
                    done = done + head;
                }
                cur = at + size;
            },
        }
        proof {
            assert(cur as int == cur0 + footprint(s[i as int]));
        }
        i = i + 1;
    }
    proof {
        assert(leaves_list(s, n as int, cur as int, pth, segment_origin, segment_space) =~= Seq::<AddressedView>::empty());
        assert(done + Seq::<AddressedView>::empty() =~= done);
    }
}

/// The value elements of segments `j..` of a description, segment `j` named `seg:<j>`.
pub open spec fn segment_leaves(segs: Seq<Segment>, j: int) -> Seq<AddressedView>
    decreases segs.len() - j,
{
    if j < 0 || j >= segs.len() {
        Seq::empty()
    } else {
        leaves_list(segs[j].elements@, 0, 0, seq![seg_step(j)], segs[j].origin, segs[j].space) + segment_leaves(segs, j + 1)
    }
}

/// Every segment's layout arithmetic stays within 32-bit signed range.
pub open spec fn cdi_bounded(cdi: Cdi) -> bool {
    forall|j: int| 0 <= j < cdi.segments@.len() ==> bounded((#[trigger] cdi.segments@[j]).elements@)
}

/// All value elements of a description, segment by segment, in layout order,
/// each with its path, segment origin, offset, name and address space.
pub fn extract_all_elements_with_addresses<'a>(cdi: &'a Cdi) -> (r: Vec<ElementWithAddress<'a>>)
    requires
        cdi_bounded(*cdi),
    ensures
        addressed_views(r@) == segment_leaves(cdi.segments@, 0),
{
    let mut results: Vec<ElementWithAddress<'a>> = Vec::new();
    let ghost segs = cdi.segments@;
    let ghost mut done: Seq<AddressedView> = Seq::empty();
    let mut j: usize = 0;
    proof {
        assert(addressed_views(results@) =~= done);
    }
    while j < cdi.segments.len()
        invariant
            segs == cdi.segments@,
            cdi_bounded(*cdi),
            j <= segs.len(),
            segment_leaves(segs, 0) == done + segment_leaves(segs, j as int),
            addressed_views(results@) == done,
        decreases cdi.segments.len() - j,
    {
        let seg = &cdi.segments[j];
        let mut path: Vec<String> = Vec::new();
        path.push(seg_step_string(j));
        proof {
            assert(bounded(segs[j as int].elements@));
            assert(strs(path@) =~= seq![seg_step(j as int)]);
        }
        let ghost before = addressed_views(results@);
        process_elements(&seg.elements, &mut path, seg.origin, 0, seg.space, &mut results);
        proof {
            let part = leaves_list(segs[j as int].elements@, 0, 0, seq![seg_step(j as int)], segs[j as int].origin, segs[j as int].space);
            assert(segment_leaves(segs, j as int) == part + segment_leaves(segs, j + 1));
            done = done + part;
        }
        j = j + 1;
    }
    proof {
        assert(segment_leaves(segs, j as int) =~= Seq::<AddressedView>::empty());
        assert(done + Seq::<AddressedView>::empty() =~= done);
    }
    results
}

/// Number of bytes a value element occupies, for the elements that can be read.
pub open spec fn value_size(e: DataElement) -> Option<int> {
    match e {
        DataElement::Int(x) => Some(x.size as int),
        DataElement::String(x) => Some(x.size as int),
        DataElement::EventId(_) => Some(8),
        DataElement::Float(_) => Some(4),
        DataElement::Blob(x) => Some(x.size as int),
        _ => None,
    }
}

/// Number of bytes to read for an element (a declared size beyond `u32`
/// is cut to its low 32 bits).
pub fn get_element_size(element: &DataElement) -> (r: Result<u32, String>)
    ensures
        value_size(*element) matches Some(s) ==> r == Ok::<u32, String>(s as u32),
        element is Group ==> (r matches Err(m) && m@ == "Cannot read value from group element"@),
        element is Action ==> (r matches Err(m) && m@ == "Unsupported element type for config reading"@),
{
    match element {
        DataElement::Int(e) => Ok(e.size as u32),
        DataElement::String(e) => Ok(e.size as u32),
        DataElement::EventId(_) => Ok(8),
        DataElement::Float(_) => Ok(4),
        DataElement::Group(_) => Err(string_of("Cannot read value from group element")),
        DataElement::Blob(e) => Ok(e.size as u32),
        DataElement::Action(_) => Err(string_of("Unsupported element type for config reading")),
    }
}

/// One memory read: a whole element, or a chunk of at most 64 bytes of a larger one.
#[derive(Clone, Copy)]
pub struct ReadItem {
    pub orig_index: usize,
    pub absolute_address: u32,
    pub size: u32,
    pub space: u8,
    pub element_total_size: u32,
}

/// A read plan: the read items ordered by space and address, the batches of
/// item indices read together, the elements split into chunks, and how many
/// elements had no readable size.
pub struct ReadPlan {
    pub items: Vec<ReadItem>,
    pub batches: Vec<Vec<usize>>,
    pub multi_chunk_indices: BTreeSet<usize>,
    pub invalid_element_count: usize,
}

/// The address an addressed element is read from.
pub open spec fn abs_address(v: AddressedView) -> int {
    v.segment_origin + v.element_offset
}

/// The chunks of at most 64 bytes of an element of `s` bytes, from byte `off` on.
pub open spec fn chunk_items(idx: int, addr: int, s: int, space: u8, off: int) -> Seq<ReadItem>
    decreases s - off,
{
    if off >= s || off < 0 {
        Seq::empty()
    } else {
        let c = if s - off < 64 { s - off } else { 64 };
        seq![ReadItem { orig_index: idx as usize, absolute_address: (addr + off) as u32, size: c as u32, space, element_total_size: s as u32 }]
            + chunk_items(idx, addr, s, space, off + c)
    }
}

/// The read items of the `idx`-th element: itself when it is at most 64 bytes,
/// its chunks when larger, nothing when it cannot be read.
pub open spec fn element_items(idx: int, v: AddressedView) -> Seq<ReadItem> {
    match value_size(v.element) {
        Some(s) => if s <= 64 {
            seq![ReadItem { orig_index: idx as usize, absolute_address: abs_address(v) as u32, size: s as u32, space: v.space, element_total_size: s as u32 }]
        } else {
            chunk_items(idx, abs_address(v), s, v.space, 0)
        },
        None => Seq::empty(),
    }
}

/// The read items of the first `n` elements, in element order.
pub open spec fn items_upto(v: Seq<AddressedView>, n: int) -> Seq<ReadItem>
    decreases n,
{
    if n <= 0 {
        Seq::empty()
    } else {
        items_upto(v, n - 1) + element_items(n - 1, v[n - 1])
    }
}

/// Number of elements among the first `n` that cannot be read.
pub open spec fn invalid_upto(v: Seq<AddressedView>, n: int) -> int
    decreases n,
{
    if n <= 0 {
        0
    } else {
        invalid_upto(v, n - 1) + if value_size(v[n - 1].element) is None { 1int } else { 0int }
    }
}

/// An element larger than 64 bytes, read in chunks.
pub open spec fn is_multi_chunk(e: DataElement) -> bool {
    value_size(e) matches Some(s) && s > 64
}

/// The indices of elements larger than 64 bytes.
pub open spec fn multi_chunk_set(v: Seq<AddressedView>) -> Set<usize> {
    Set::new(|i: usize| 0 <= i < v.len() && is_multi_chunk(v[i as int].element))
}

/// `a` orders no later than `b`: by space, then by address.
pub open spec fn key_le(a: ReadItem, b: ReadItem) -> bool {
    a.space < b.space || (a.space == b.space && a.absolute_address <= b.absolute_address)
}

/// Where `x` goes in `s`: after the last item that orders no later than it.
pub open spec fn insert_pos(s: Seq<ReadItem>, x: ReadItem) -> int
    decreases s.len(),
{
    if s.len() == 0 {
        0
    } else if key_le(s.last(), x) {
        s.len() as int
    } else {
        insert_pos(s.drop_last(), x)
    }
}

/// `s` stably sorted by space and address.
pub open spec fn sort_items(s: Seq<ReadItem>) -> Seq<ReadItem>
    decreases s.len(),
{
    if s.len() == 0 {
        s
    } else {
        let t = sort_items(s.drop_last());
        t.insert(insert_pos(t, s.last()), s.last())
    }
}

/// Greedy batching of sorted items from position `i` on: an item joins the
/// open batch when it has the batch's space and ends within 64 bytes of the
/// batch start; otherwise it opens a new batch.
pub open spec fn batches_from(items: Seq<ReadItem>, i: int, cur: Seq<usize>, start: int, space: u8) -> Seq<Seq<usize>>
    decreases items.len() - i,
{
    if i < 0 || i >= items.len() {
        if cur.len() > 0 { seq![cur] } else { Seq::empty() }
    } else if cur.len() > 0 && items[i].space == space && items[i].absolute_address + items[i].size - start <= 64 {
        batches_from(items, i + 1, cur.push(i as usize), start, space)
    } else {
        (if cur.len() > 0 { seq![cur] } else { Seq::<Seq<usize>>::empty() })
            + batches_from(items, i + 1, seq![i as usize], items[i].absolute_address as int, items[i].space)
    }
}

/// Every value element ends within the 32-bit address range.
pub open spec fn plan_in_range(v: Seq<AddressedView>) -> bool {
    forall|i: int| 0 <= i < v.len() ==> (value_size((#[trigger] v[i]).element) matches Some(s) ==> abs_address(v[i]) + s <= u32::MAX)
}

proof fn lemma_insert_pos_bound(s: Seq<ReadItem>, x: ReadItem)
    ensures
        0 <= insert_pos(s, x) <= s.len(),
    decreases s.len(),
{
    if s.len() > 0 && !key_le(s.last(), x) {
        lemma_insert_pos_bound(s.drop_last(), x);
    }
}

/// Position at which an item goes into a sorted list.
fn find_insert_pos(v: &Vec<ReadItem>, x: &ReadItem) -> (r: usize)
    ensures
        r == insert_pos(v@, *x),
{
    let mut j: usize = v.len();
    assert(v@.subrange(0, j as int) =~= v@);
    while j > 0
        invariant
            j <= v@.len(),
            insert_pos(v@, *x) == insert_pos(v@.subrange(0, j as int), *x),
        decreases j,
    {
        let it = &v[j - 1];
        assert(v@.subrange(0, j as int).last() == v@[j - 1]);
        if it.space < x.space || (it.space == x.space && it.absolute_address <= x.absolute_address) {
            return j;
        }
        assert(v@.subrange(0, j as int).drop_last() =~= v@.subrange(0, j - 1));
        j = j - 1;
    }
    0
}

/// Plans the memory reads for a list of value elements: elements over 64
/// bytes are split into chunks, all items are ordered by space and address,
/// and neighbouring items are packed into batches spanning at most 64 bytes.
pub fn build_read_plan(all_elements: &[ElementWithAddress]) -> (plan: ReadPlan)
    requires
        plan_in_range(addressed_views(all_elements@)),
    ensures
        plan.items@ == sort_items(items_upto(addressed_views(all_elements@), all_elements@.len() as int)),
        plan.batches@.map_values(|b: Vec<usize>| b@) == batches_from(plan.items@, 0, Seq::empty(), 0, 0),
        plan.multi_chunk_indices@ == multi_chunk_set(addressed_views(all_elements@)),
        plan.invalid_element_count == invalid_upto(addressed_views(all_elements@), all_elements@.len() as int),
{
    let ghost v = addressed_views(all_elements@);
    let mut multi: BTreeSet<usize> = BTreeSet::new();
    let mut items: Vec<ReadItem> = Vec::new();
    let mut invalid: usize = 0;
    let n = all_elements.len();
    let mut idx: usize = 0;
    while idx < n
        invariant
            n == all_elements@.len(),
            v == addressed_views(all_elements@),
            plan_in_range(v),
            idx <= n,
            items@ == items_upto(v, idx as int),
            invalid == invalid_upto(v, idx as int),
            invalid <= idx,
            multi@ == Set::new(|i: usize| 0 <= i < idx && is_multi_chunk(v[i as int].element)),
        decreases n - idx,
    {
        let ewa = &all_elements[idx];
        let ghost ev = v[idx as int];
        assert(ev == ewa@);
        let ghost before = items@;
        let ghost mset = multi@;
        proof {
            assert(value_size(ev.element) matches Some(s) ==> abs_address(ev) + s <= u32::MAX);
        }
        match get_element_size(ewa.element) {
            Ok(s) => {
                if s <= 64 {
                    let it = ReadItem {
                        orig_index: idx,
                        absolute_address: ewa.absolute_address(),
                        size: s,
                        space: ewa.space,
                        element_total_size: s,
                    };
                    items.push(it);
                    assert(items@ =~= before + element_items(idx as int, ev));
                } else {
                    multi.insert(idx);
                    let base = ewa.absolute_address();
                    let mut offset: u32 = 0;
                    let ghost mut chunks: Seq<ReadItem> = Seq::empty();
                    proof {
                        assert(chunk_items(idx as int, base as int, s as int, ev.space, 0) == chunks + chunk_items(idx as int, base as int, s as int, ev.space, 0));
                    }
                    while offset < s
                        invariant
                            base as int + s <= u32::MAX,
                            offset <= s,
                            s > 64,
                            chunk_items(idx as int, base as int, s as int, ev.space, 0)
                                == chunks + chunk_items(idx as int, base as int, s as int, ev.space, offset as int),
                            items@ == before + chunks,
                            ewa.space == ev.space,
                        decreases s - offset,
                    {
                        let chunk_size: u32 = if s - offset < 64 { s - offset } else { 64 };
                        let it = ReadItem {
                            orig_index: idx,
                            absolute_address: base + offset,
                            size: chunk_size,
                            space: ewa.space,
                            element_total_size: s,
                        };
                        proof {
                            let ci = chunk_items(idx as int, base as int, s as int, ev.space, offset as int);
                            assert(ci == seq![it] + chunk_items(idx as int, base as int, s as int, ev.space, offset + chunk_size));
                            chunks = chunks.push(it);
                            assert(chunks.drop_last() + seq![it] + chunk_items(idx as int, base as int, s as int, ev.space, offset + chunk_size)
                                =~= chunks + chunk_items(idx as int, base as int, s as int, ev.space, offset + chunk_size));
                        }
                        items.push(it);
                        offset = offset + chunk_size;
                    }
                    proof {
                        assert(chunk_items(idx as int, base as int, s as int, ev.space, offset as int) =~= Seq::<ReadItem>::empty());
                        assert(items@ =~= before + element_items(idx as int, ev));
                    }
                }
            },
            Err(_) => {
                invalid = invalid + 1;
                assert(element_items(idx as int, ev) =~= Seq::<ReadItem>::empty());
                assert(items@ =~= before + element_items(idx as int, ev));
            },
        }
        proof {
            assert(items_upto(v, idx + 1) == items_upto(v, idx as int) + element_items(idx as int, v[idx as int]));
            assert(multi@ =~= Set::new(|i: usize| 0 <= i < idx + 1 && is_multi_chunk(v[i as int].element)));
        }
        idx = idx + 1;
    }
    proof {
        assert(multi@ =~= multi_chunk_set(v));
    }
    let ghost raw = items@;
    let mut sorted: Vec<ReadItem> = Vec::new();
    let mut i: usize = 0;
    while i < items.len()
        invariant
            raw == items@,
            i <= raw.len(),
            sorted@ == sort_items(raw.subrange(0, i as int)),
        decreases items.len() - i,
    {
        let x = items[i];
        let p = find_insert_pos(&sorted, &x);
        proof { lemma_insert_pos_bound(sorted@, x); }
        sorted.insert(p, x);
        assert(raw.subrange(0, i + 1).drop_last() =~= raw.subrange(0, i as int));
        i = i + 1;
    }
    assert(raw.subrange(0, raw.len() as int) =~= raw);
    let mut batches: Vec<Vec<usize>> = Vec::new();
    let mut current: Vec<usize> = Vec::new();
    let mut start: u32 = 0;
    let mut space: u8 = 0;
    let mut k: usize = 0;
    let ghost target = batches_from(sorted@, 0, Seq::empty(), 0, 0);
    while k < sorted.len()
        invariant
            k <= sorted@.len(),
            target == batches@.map_values(|b: Vec<usize>| b@) + batches_from(sorted@, k as int, current@, start as int, space),
            forall|j: int| 0 <= j < current@.len() ==> current@[j] < k,
        decreases sorted.len() - k,
    {
        let it = sorted[k];
        let fits = current.len() > 0 && it.space == space
            && (it.absolute_address as u64 + it.size as u64) <= start as u64 + 64;
        let ghost bv = batches@.map_values(|b: Vec<usize>| b@);
        if fits {
            current.push(k);
        } else {
            if current.len() > 0 {
                let ghost cv = current@;
                let mut taken: Vec<usize> = Vec::new();
                std::mem::swap(&mut taken, &mut current);
                batches.push(taken);
                assert(batches@.map_values(|b: Vec<usize>| b@) =~= bv.push(cv));
                assert(bv + (seq![cv] + batches_from(sorted@, k + 1, seq![k], it.absolute_address as int, it.space))
                    =~= bv.push(cv) + batches_from(sorted@, k + 1, seq![k], it.absolute_address as int, it.space));
            } else {
                assert(Seq::<Seq<usize>>::empty() + batches_from(sorted@, k + 1, seq![k], it.absolute_address as int, it.space)
                    =~= batches_from(sorted@, k + 1, seq![k], it.absolute_address as int, it.space));
            }
            start = it.absolute_address;
            space = it.space;
            current.push(k);
            assert(current@ =~= seq![k]);
        }
        k = k + 1;
    }
    if current.len() > 0 {
        let ghost bv = batches@.map_values(|b: Vec<usize>| b@);
        let ghost cv = current@;
        batches.push(current);
        assert(batches@.map_values(|b: Vec<usize>| b@) =~= bv + seq![cv]);
    } else {
        assert(batches@.map_values(|b: Vec<usize>| b@) =~= batches@.map_values(|b: Vec<usize>| b@) + Seq::<Seq<usize>>::empty());
    }
    ReadPlan { items: sorted, batches, multi_chunk_indices: multi, invalid_element_count: invalid }
}

/// The kind of a configuration leaf.
#[derive(Clone, Copy, Debug, PartialEq, Eq, Structural)]
pub enum LeafType {
    Int,
    String,
    EventId,
    Float,
    Action,
    Blob,
}

/// Type and size of the field found at an address.
#[derive(Clone, Copy, Debug, PartialEq, Eq, Structural)]
pub struct FieldMeta {
    pub leaf_type: LeafType,
    pub size: u32,
}

/// How far the address search advances over an element: as its footprint,
/// except that a float advances by its declared size.
pub open spec fn walk_advance(e: DataElement) -> int {
    match e {
        DataElement::Float(x) => x.offset + x.size,
        _ => footprint(e),
    }
}

/// The field a value element describes.
pub open spec fn element_meta(e: DataElement) -> Option<FieldMeta> {
    match e {
        DataElement::Int(x) => Some(FieldMeta { leaf_type: LeafType::Int, size: x.size as u32 }),
        DataElement::String(x) => Some(FieldMeta { leaf_type: LeafType::String, size: x.size as u32 }),
        DataElement::EventId(_) => Some(FieldMeta { leaf_type: LeafType::EventId, size: 8 }),
        DataElement::Float(x) => Some(FieldMeta { leaf_type: LeafType::Float, size: x.size as u32 }),
        _ => None,
    }
}

/// The first field, among elements `i..` of `s` (element `i` at cursor `cur`),
/// whose address `origin + cursor` is `target`.
pub open spec fn walk_list(s: Seq<DataElement>, i: int, cur: int, origin: int, target: u32) -> Option<FieldMeta>
    decreases s, 1int, s.len() - i,
{
    if i < 0 || i >= s.len() {
        None
    } else {
        match walk_elem(s[i], cur, origin, target) {
            Some(m) => Some(m),
            None => walk_list(s, i + 1, cur + walk_advance(s[i]), origin, target),
        }
    }
}

/// The first field within element `e` at cursor `cur` whose address is `target`.
pub open spec fn walk_elem(e: DataElement, cur: int, origin: int, target: u32) -> Option<FieldMeta>
    decreases e, 0int, 0int,
{
    match e {
        DataElement::Group(g) => {
            proof { lemma_group_decreases(e); }
            walk_instances(g.elements@, cur + g.offset, size_from(g.elements@, 0), 0,
                if size_from(g.elements@, 0) == 0 && g.replication > 1 { 1 } else { g.replication as int },
                origin, target)
        },
        DataElement::Action(_) => None,
        DataElement::Blob(_) => None,
        _ => if wrap32(origin + cur + leaf_offset(e)) == target { element_meta(e) } else { None },
    }
}

/// The first field whose address is `target` among instances `k..n` of a
/// group content `c` starting at `start` with the given stride.
pub open spec fn walk_instances(c: Seq<DataElement>, start: int, stride: int, k: int, n: int, origin: int, target: u32) -> Option<FieldMeta>
    decreases c, 2int, n - k,
{
    if k < 0 || k >= n {
        None
    } else {
        match walk_list(c, 0, start + k * stride, origin, target) {
            Some(m) => Some(m),
            None => walk_instances(c, start, stride, k + 1, n, origin, target),
        }
    }
}

/// A segment origin read as a 32-bit signed number.
pub open spec fn origin_signed(origin: u32) -> int {
    if origin > i32::MAX { origin - 0x1_0000_0000 } else { origin as int }
}

/// A walk's advance over an element is bounded by its extent.
proof fn lemma_walk_advance_bound(e: DataElement)
    ensures
        abs(walk_advance(e)) <= extent(e),
{
    lemma_footprint_bound(e);
}

/// Searches a list of elements for the field at `target_address`, walking
/// the layout from cursor `base_offset` within a segment starting at `segment_origin`.
pub fn walk_elements_for_meta(
    elements: &Vec<DataElement>,
    segment_origin: i64,
    base_offset: i64,
    target_address: u32,
) -> (r: Option<FieldMeta>)
    requires
        abs(segment_origin as int) + abs(base_offset as int) + extent_from(elements@, 0) <= i32::MAX,
    ensures
        r == walk_list(elements@, 0, base_offset as int, segment_origin as int, target_address),
    decreases elements@,
{
    let ghost s = elements@;
    let ghost org = segment_origin as int;
    let n = elements.len();
    let mut cur: i64 = base_offset;
    let mut i: usize = 0;
    proof { lemma_size_bound(s, 0); }
    while i < n
        invariant
            s == elements@,
            n == s.len(),
            org == segment_origin as int,
            i <= n,
            abs(org) + abs(cur as int) + extent_from(s, i as int) <= i32::MAX,
            extent_from(s, i as int) >= 0,
            walk_list(s, 0, base_offset as int, org, target_address) == walk_list(s, i as int, cur as int, org, target_address),
        decreases n - i,
    {
        let e = &elements[i];
        proof {
            lemma_extent_step(s, i as int);
            lemma_footprint_bound(s[i as int]);
            lemma_walk_advance_bound(s[i as int]);
            assert(decreases_to!(elements@ => elements@[i as int]));
        }
        let ghost cur0 = cur as int;
        match e {
            DataElement::Group(g) => {
                let ghost c = g.elements@;
                let ghost ec = extent_from(c, 0);
                proof {
                    lemma_group_decreases(*e);
                    assert(decreases_to!(s => c));
                    lemma_size_bound(c, 0);
                    let m = if g.replication == 0 { 1 } else { g.replication as int };
                    assert(ec <= m * ec) by (nonlinear_arith) requires m >= 1, ec >= 0;
                }
                let stride: i64 = calculate_size(&g.elements) as i64;
                let start: i64 = cur + g.offset as i64;
                let count: u32 = if stride == 0 && g.replication > 1 { 1 } else { g.replication };
                let mut k: u32 = 0;
                while k < count
                    invariant
                        c == g.elements@,
                        s == elements@,
                        decreases_to!(s => c),
                        ec == extent_from(c, 0),
                        stride == size_from(c, 0),
                        abs(stride as int) <= ec,
                        ec >= 0,
                        start == cur0 + g.offset,
                        count <= (if g.replication == 0 { 1 } else { g.replication as int }),
                        abs(org) + abs(cur0) + abs(g.offset as int) + (if g.replication == 0 { 1 } else { g.replication as int }) * ec <= i32::MAX,
                        org == segment_origin as int,
                        i < n,
                        n == s.len(),
                        walk_list(s, 0, base_offset as int, org, target_address) == walk_list(s, i as int, cur0, org, target_address),
                        k <= count,
                        walk_elem(s[i as int], cur0, org, target_address)
                            == walk_instances(c, start as int, stride as int, k as int, count as int, org, target_address),
                    decreases count - k,
                {
                    proof {
                        lemma_instance_bound(k as int, count as int, g.replication as int, stride as int, ec, cur0, g.offset as int, abs(org));
                    }
                    let inst_base: i64 = start + (k as i64) * stride;
                    let found = walk_elements_for_meta(&g.elements, segment_origin, inst_base, target_address);
                    if found.is_some() {
                        return found;
                    }
                    k = k + 1;
                }
                proof {
                    let rep = g.replication as int;
                    if stride == 0 {
                        assert(count * stride == 0) by (nonlinear_arith) requires stride == 0;
                        assert(rep * stride == 0) by (nonlinear_arith) requires stride == 0;
                    }
                }
                cur = start + (count as i64) * stride;
            },
            DataElement::Action(a) => {
                cur = cur + a.offset as i64 + 1;
            },
            DataElement::Blob(b) => {
                cur = cur + b.offset as i64 + b.size as i64;
            },
            DataElement::Int(x) => {
                let at: i64 = cur + x.offset as i64;
                if wrap_offset(segment_origin + at) == target_address {
                    return Some(FieldMeta { leaf_type: LeafType::Int, size: x.size as u32 });
                }
                cur = at + x.size as i64;
            },
            DataElement::String(x) => {
                let at: i64 = cur + x.offset as i64;
                if wrap_offset(segment_origin + at) == target_address {
                    return Some(FieldMeta { leaf_type: LeafType::String, size: x.size as u32 });
                }
                cur = at + x.size as i64;
            },
            DataElement::EventId(x) => {
                let at: i64 = cur + x.offset as i64;
                if wrap_offset(segment_origin + at) == target_address {
                    return Some(FieldMeta { leaf_type: LeafType::EventId, size: 8 });
                }
                cur = at + 8;
            },
            DataElement::Float(x) => {
                let at: i64 = cur + x.offset as i64;
                if wrap_offset(segment_origin + at) == target_address {
                    return Some(FieldMeta { leaf_type: LeafType::Float, size: x.size as u32 });
                }
                cur = at + x.size as i64;
            },
        }
        proof {
            assert(cur as int == cur0 + walk_advance(s[i as int]));
        }
        i = i + 1;
    }
    None
}

/// Every segment's origin and layout keep the address search within 32-bit range.
pub open spec fn cdi_walk_bounded(cdi: Cdi) -> bool {
    forall|j: int| 0 <= j < cdi.segments@.len() ==>
        abs(origin_signed((#[trigger] cdi.segments@[j]).origin)) + extent_from(cdi.segments@[j].elements@, 0) <= i32::MAX
}

/// The field at `address` among segments `j..` of space `space`.
pub open spec fn meta_in_segments(segs: Seq<Segment>, j: int, space: u8, address: u32) -> Option<FieldMeta>
    decreases segs.len() - j,
{
    if j < 0 || j >= segs.len() {
        None
    } else if segs[j].space != space {
        meta_in_segments(segs, j + 1, space, address)
    } else {
        match walk_list(segs[j].elements@, 0, 0, origin_signed(segs[j].origin), address) {
            Some(m) => Some(m),
            None => meta_in_segments(segs, j + 1, space, address),
        }
    }
}

/// The field a value element declares: integers, strings and floats read
/// as many bytes as their declared size, event IDs eight.
pub open spec fn declared_field(e: DataElement, m: FieldMeta) -> bool {
    match e {
        DataElement::Int(x) => m.leaf_type == LeafType::Int && m.size == x.size as u32,
        DataElement::String(x) => m.leaf_type == LeafType::String && m.size == x.size as u32,
        DataElement::EventId(_) => m.leaf_type == LeafType::EventId && m.size == 8,
        DataElement::Float(x) => m.leaf_type == LeafType::Float && m.size == x.size as u32,
        _ => false,
    }
}

/// Law: searching a list for the field at `target`, when the element the
/// search reaches first is a value element at that address, finds that
/// element's declared field: its type, and (for integers, strings and
/// floats) its declared size.
pub proof fn law_meta_is_declared_field(s: Seq<DataElement>, i: int, cur: int, origin: int, target: u32)
    requires
        0 <= i < s.len(),
        is_value_leaf(s[i]),
        wrap32(origin + cur + leaf_offset(s[i])) == target,
    ensures
        walk_list(s, i, cur, origin, target) matches Some(m) && declared_field(s[i], m),
{
    let e = s[i];
    assert(walk_elem(e, cur, origin, target) == element_meta(e));
    assert(element_meta(e) matches Some(m) && declared_field(e, m));
    assert(walk_list(s, i, cur, origin, target) == walk_elem(e, cur, origin, target));
}

/// Field `m` is declared by a value element of `s`, at any depth of its groups.
pub open spec fn declared_in(s: Seq<DataElement>, m: FieldMeta) -> bool
    decreases s,
{
    exists|k: int| 0 <= k < s.len() && declared_by(#[trigger] s[k], m, s)
}

/// Field `m` is declared by element `e` of `s` or by a value element within it.
pub open spec fn declared_by(e: DataElement, m: FieldMeta, s: Seq<DataElement>) -> bool
    decreases s, e,
{
    ||| is_value_leaf(e) && declared_field(e, m)
    ||| match e {
        DataElement::Group(g) => {
            if s.contains(e) {
                proof {
                    let k = choose|k: int| 0 <= k < s.len() && s[k] == e;
                    assert(decreases_to!(s => s[k]));
                    lemma_group_decreases(e);
                }
                declared_in(g.elements@, m)
            } else {
                false
            }
        },
        _ => false,
    }
}

proof fn lemma_list_declared(s: Seq<DataElement>, i: int, cur: int, origin: int, target: u32)
    ensures
        walk_list(s, i, cur, origin, target) matches Some(m) ==> declared_in(s, m),
    decreases s, 1int, s.len() - i,
{
    if 0 <= i < s.len() {
        lemma_elem_declared(s[i], cur, origin, target);
        match walk_elem(s[i], cur, origin, target) {
            Some(m) => {
                match s[i] {
                    DataElement::Group(g) => {
                        assert(s.contains(s[i]));
                        assert(declared_by(s[i], m, s));
                    },
                    _ => {
                        assert(declared_by(s[i], m, s));
                    },
                }
            },
            None => {
                lemma_list_declared(s, i + 1, cur + walk_advance(s[i]), origin, target);
            },
        }
    }
}

proof fn lemma_elem_declared(e: DataElement, cur: int, origin: int, target: u32)
    ensures
        walk_elem(e, cur, origin, target) matches Some(m) ==> (
            (is_value_leaf(e) && declared_field(e, m)) || (e matches DataElement::Group(g) && declared_in(g.elements@, m))),
    decreases e, 0int, 0int,
{
    match e {
        DataElement::Group(g) => {
            lemma_group_decreases(e);
            lemma_instances_declared(g.elements@, cur + g.offset, size_from(g.elements@, 0), 0,
                if size_from(g.elements@, 0) == 0 && g.replication > 1 { 1 } else { g.replication as int },
                origin, target);
        },
        _ => {},
    }
}

proof fn lemma_instances_declared(c: Seq<DataElement>, start: int, stride: int, k: int, n: int, origin: int, target: u32)
    ensures
        walk_instances(c, start, stride, k, n, origin, target) matches Some(m) ==> declared_in(c, m),
    decreases c, 2int, n - k,
{
    if 0 <= k < n {
        lemma_list_declared(c, 0, start + k * stride, origin, target);
        lemma_instances_declared(c, start, stride, k + 1, n, origin, target);
    }
}

/// Law: every field the search for an address finds is declared by a value
/// element of the segment (at any depth of its groups), with that element's
/// type and declared size.
pub proof fn law_found_field_is_declared(segs: Seq<Segment>, j: int, space: u8, address: u32)
    ensures
        meta_in_segments(segs, j, space, address) matches Some(m) ==> exists|t: int| 0 <= t < segs.len()
            && segs[t].space == space && declared_in(#[trigger] segs[t].elements@, m),
    decreases segs.len() - j,
{
    if 0 <= j < segs.len() {
        if segs[j].space == space {
            lemma_list_declared(segs[j].elements@, 0, 0, origin_signed(segs[j].origin), address);
        }
        law_found_field_is_declared(segs, j + 1, space, address);
    }
}

/// Law: in a description whose first segment is in `space` and starts with
/// a value element at `address`, the field found at `address` is that
/// element's declared field.
pub proof fn law_cdi_meta_is_declared_field(segs: Seq<Segment>, space: u8, address: u32)
    requires
        segs.len() > 0,
        segs[0].space == space,
        segs[0].elements@.len() > 0,
        is_value_leaf(segs[0].elements@[0]),
        wrap32(origin_signed(segs[0].origin) + leaf_offset(segs[0].elements@[0])) == address,
    ensures
        meta_in_segments(segs, 0, space, address) matches Some(m) && declared_field(segs[0].elements@[0], m),
{
    law_meta_is_declared_field(segs[0].elements@, 0, 0, origin_signed(segs[0].origin), address);
}

/// The type and size of the field at `address` in address space `space`.
pub fn find_field_meta_in_cdi(cdi: &Cdi, space: u8, address: u32) -> (r: Option<FieldMeta>)
    requires
        cdi_walk_bounded(*cdi),
    ensures
        r == meta_in_segments(cdi.segments@, 0, space, address),
{
    let mut j: usize = 0;
    while j < cdi.segments.len()
        invariant
            cdi_walk_bounded(*cdi),
            j <= cdi.segments@.len(),
            meta_in_segments(cdi.segments@, 0, space, address) == meta_in_segments(cdi.segments@, j as int, space, address),
        decreases cdi.segments.len() - j,
    {
        let seg = &cdi.segments[j];
        if seg.space == space {
            let origin: i64 = if seg.origin > 0x7FFF_FFFF { seg.origin as i64 - 0x1_0000_0000 } else { seg.origin as i64 };
            proof { assert(abs(origin_signed(cdi.segments@[j as int].origin)) + extent_from(cdi.segments@[j as int].elements@, 0) <= i32::MAX); }
            let found = walk_elements_for_meta(&seg.elements, origin, 0, address);
            if found.is_some() {
                return found;
            }
        }
        j = j + 1;
    }
    None
}

/// A value read from a node, typed by its element. A floating-point value is
/// kept as its four big-endian bytes.
pub enum ConfigValue {
    Int { value: i64, size_bytes: u8 },
    String { value: String, size_bytes: u32 },
    EventId { value: [u8; 8] },
    Float { raw: [u8; 4] },
    Invalid { error: String },
}

/// What a [`ConfigValue`] holds, with text and bytes as sequences.
pub enum ValueView {
    Int { value: int, size_bytes: u8 },
    String { value: Seq<char>, size_bytes: u32 },
    EventId { value: Seq<u8> },
    Float { raw: Seq<u8> },
    Invalid { error: Seq<char> },
}

impl View for ConfigValue {
    type V = ValueView;

    open spec fn view(&self) -> ValueView {
        match self {
            ConfigValue::Int { value, size_bytes } => ValueView::Int { value: *value as int, size_bytes: *size_bytes },
            ConfigValue::String { value, size_bytes } => ValueView::String { value: value@, size_bytes: *size_bytes },
            ConfigValue::EventId { value } => ValueView::EventId { value: value@ },
            ConfigValue::Float { raw } => ValueView::Float { raw: raw@ },
            ConfigValue::Invalid { error } => ValueView::Invalid { error: error@ },
        }
    }
}

/// The value that the bytes `data` read for element `e` decode to, or
/// `None` when they cannot be decoded.
pub open spec fn parsed(e: DataElement, data: Seq<u8>) -> Option<ValueView> {
    match e {
        DataElement::Int(x) => {
            let n = x.size as int;
            if (n == 1 || n == 2 || n == 4 || n == 8) && data.len() >= n {
                Some(ValueView::Int { value: be_signed(data.subrange(0, n)), size_bytes: x.size })
            } else {
                None
            }
        },
        DataElement::String(x) => Some(ValueView::String { value: utf8_lossy(without_ff(before_nul(data))), size_bytes: x.size as u32 }),
        DataElement::EventId(_) => if data.len() == 8 { Some(ValueView::EventId { value: data }) } else { None },
        DataElement::Float(_) => if data.len() == 4 { Some(ValueView::Float { raw: data }) } else { None },
        _ => None,
    }
}

/// The bytes of `data` before its first zero byte (all of it when there is none).
pub open spec fn before_nul(data: Seq<u8>) -> Seq<u8>
    decreases data.len(),
{
    if data.len() == 0 || data[0] == 0 {
        Seq::empty()
    } else {
        seq![data[0]] + before_nul(data.drop_first())
    }
}

/// `data` without its `0xFF` bytes.
pub open spec fn without_ff(data: Seq<u8>) -> Seq<u8>
    decreases data.len(),
{
    if data.len() == 0 {
        data
    } else if data.last() == 0xFF {
        without_ff(data.drop_last())
    } else {
        without_ff(data.drop_last()).push(data.last())
    }
}

/// Message for a read too short for its integer.
pub open spec fn insufficient_int(n: int) -> Seq<char> {
    "Insufficient data for "@ + decimal_digits(n as nat) + "-byte int"@
}

proof fn lemma_before_nul_split(data: Seq<u8>, i: int)
    requires
        0 <= i <= data.len(),
        forall|j: int| 0 <= j < i ==> data[j] != 0,
    ensures
        before_nul(data) == data.subrange(0, i) + before_nul(data.subrange(i, data.len() as int)),
    decreases i,
{
    if i > 0 {
        let d1 = data.drop_first();
        assert forall|j: int| 0 <= j < i - 1 implies d1[j] != 0 by {
            assert(d1[j] == data[j + 1]);
        }
        lemma_before_nul_split(d1, i - 1);
        assert(d1.subrange(i - 1, d1.len() as int) =~= data.subrange(i, data.len() as int));
        assert(seq![data[0]] + d1.subrange(0, i - 1) =~= data.subrange(0, i));
    } else {
        assert(data.subrange(0, 0) =~= Seq::<u8>::empty());
        assert(data.subrange(0, data.len() as int) =~= data);
    }
}

/// Decodes the bytes read for an element into a typed value: integers
/// big-endian and signed, text up to the first NUL with `0xFF` bytes dropped
/// and decoded as UTF-8 (lossily), event IDs of exactly eight bytes, floats
/// of exactly four bytes.
pub fn parse_config_value(element: &DataElement, data: &[u8]) -> (r: Result<ConfigValue, String>)
    ensures
        element matches DataElement::Int(e) ==> {
            let n = e.size as int;
            if n == 1 || n == 2 || n == 4 || n == 8 {
                if data@.len() < n {
                    r matches Err(m) && m@ == insufficient_int(n)
                } else {
                    r matches Ok(ConfigValue::Int { value, size_bytes })
                        && value == be_signed(data@.subrange(0, n)) && size_bytes == e.size
                }
            } else {
                r matches Err(m) && m@ == "Invalid int size: "@ + decimal_digits(n as nat)
            }
        },
        element matches DataElement::String(e) ==> (r matches Ok(ConfigValue::String { value, size_bytes })
            && value@ == utf8_lossy(without_ff(before_nul(data@))) && size_bytes == e.size as u32
            && (vstd::utf8::valid_utf8(without_ff(before_nul(data@)))
                ==> value@ == vstd::utf8::decode_utf8(without_ff(before_nul(data@))))),
        element is EventId ==> if data@.len() == 8 {
            r matches Ok(ConfigValue::EventId { value }) && value@ == data@
        } else {
            r matches Err(m) && m@ == "EventId must be 8 bytes, got "@ + decimal_digits(data@.len())
        },
        element is Float ==> if data@.len() == 4 {
            r matches Ok(ConfigValue::Float { raw }) && raw@ == data@
        } else {
            r matches Err(m) && m@ == "Float must be 4 bytes, got "@ + decimal_digits(data@.len())
        },
        element is Group || element is Action || element is Blob
            ==> (r matches Err(m) && m@ == "Unsupported element type for config reading"@),
        r matches Ok(v) ==> parsed(*element, data@) == Some(v@),
        r is Err ==> parsed(*element, data@) is None,
{
    match element {
        DataElement::Int(e) => {
            let n: usize = e.size as usize;
            if n == 1 || n == 2 || n == 4 || n == 8 {
                if data.len() < n {
                    let mut m = string_of("Insufficient data for ");
                    let d = u64_decimal(n as u64);
                    m.append(d.as_str());
                    m.append("-byte int");
                    return Err(m);
                }
                let v = be_signed_of(data, n);
                Ok(ConfigValue::Int { value: v, size_bytes: e.size })
            } else {
                let mut m = string_of("Invalid int size: ");
                let d = u64_decimal(e.size as u64);
                m.append(d.as_str());
                Err(m)
            }
        },
        DataElement::String(e) => {
            let mut end: usize = 0;
            while end < data.len() && data[end] != 0
                invariant
                    end <= data@.len(),
                    forall|j: int| 0 <= j < end ==> data@[j] != 0,
                decreases data.len() - end,
            {
                end = end + 1;
            }
            proof {
                lemma_before_nul_split(data@, end as int);
                let rest = data@.subrange(end as int, data@.len() as int);
                if end < data@.len() {
                    assert(rest[0] == 0);
                }
                assert(before_nul(rest) =~= Seq::<u8>::empty());
                assert(before_nul(data@) =~= data@.subrange(0, end as int));
            }
            let mut filtered: Vec<u8> = Vec::new();
            let mut i: usize = 0;
            while i < end
                invariant
                    end <= data@.len(),
                    i <= end,
                    filtered@ == without_ff(data@.subrange(0, i as int)),
                decreases end - i,
            {
                assert(data@.subrange(0, i + 1).drop_last() =~= data@.subrange(0, i as int));
                if data[i] != 0xFF {
                    filtered.push(data[i]);
                }
                i = i + 1;
            }
            let value = from_utf8_lossy(filtered.as_slice());
            Ok(ConfigValue::String { value, size_bytes: e.size as u32 })
        },
        DataElement::EventId(_) => {
            if data.len() != 8 {
                let mut m = string_of("EventId must be 8 bytes, got ");
                let d = u64_decimal(data.len() as u64);
                m.append(d.as_str());
                return Err(m);
            }
            let value: [u8; 8] = [data[0], data[1], data[2], data[3], data[4], data[5], data[6], data[7]];
            assert(value@ =~= data@);
            Ok(ConfigValue::EventId { value })
        },
        DataElement::Float(_) => {
            if data.len() != 4 {
                let mut m = string_of("Float must be 4 bytes, got ");
                let d = u64_decimal(data.len() as u64);
                m.append(d.as_str());
                return Err(m);
            }
            let raw: [u8; 4] = [data[0], data[1], data[2], data[3]];
            assert(raw@ =~= data@);
            Ok(ConfigValue::Float { raw })
        },
        _ => Err(string_of("Unsupported element type for config reading")),
    }
}

/// Why a description could not be had for a node.
pub enum CdiError {
    CdiNotRetrieved(String),
    CdiUnavailable(String),
    RetrievalFailed(String),
    InvalidXml(String),
    NodeNotFound(String),
    IoError(String),
}

/// The text of an error.
pub open spec fn cdi_error_text(e: CdiError) -> Seq<char> {
    match e {
        CdiError::CdiNotRetrieved(n) => "CdiNotRetrieved: CDI not yet retrieved for node "@ + n@,
        CdiError::CdiUnavailable(n) => "CdiUnavailable: Node "@ + n@ + " does not provide CDI"@,
        CdiError::RetrievalFailed(m) => "RetrievalFailed: "@ + m@,
        CdiError::InvalidXml(m) => "InvalidXml: "@ + m@,
        CdiError::NodeNotFound(n) => "NodeNotFound: Node "@ + n@ + " not found"@,
        CdiError::IoError(m) => "IoError: "@ + m@,
    }
}

impl CdiError {
    /// The message shown for this error.
    pub fn message(&self) -> (r: String)
        ensures
            r@ == cdi_error_text(*self),
    {
        match self {
            CdiError::CdiNotRetrieved(n) => {
                let mut s = string_of("CdiNotRetrieved: CDI not yet retrieved for node ");
                s.append(n.as_str());
                s
            },
            CdiError::CdiUnavailable(n) => {
                let mut s = string_of("CdiUnavailable: Node ");
                s.append(n.as_str());
                s.append(" does not provide CDI");
                s
            },
            CdiError::RetrievalFailed(m) => {
                let mut s = string_of("RetrievalFailed: ");
                s.append(m.as_str());
                s
            },
            CdiError::InvalidXml(m) => {
                let mut s = string_of("InvalidXml: ");
                s.append(m.as_str());
                s
            },
            CdiError::NodeNotFound(n) => {
                let mut s = string_of("NodeNotFound: Node ");
                s.append(n.as_str());
                s.append(" not found");
                s
            },
            CdiError::IoError(m) => {
                let mut s = string_of("IoError: ");
                s.append(m.as_str());
                s
            },
        }
    }
}

/// A node's description as text, when one was retrieved.
pub struct GetCdiXmlResponse {
    pub xml_content: Option<String>,
    pub size_bytes: Option<usize>,
    pub retrieved_at: Option<String>,
}

/// One instance of a repeated group.
pub struct GroupInstance {
    pub index: u32,
    pub name: String,
    pub address: i32,
}

/// The instances of a repeated group.
pub struct ExpandReplicatedGroupResponse {
    pub group_name: String,
    pub replication_count: u32,
    pub instances: Vec<GroupInstance>,
}

/// Expanding a repeated group into its instances is not offered; every
/// request is answered that the group is not found or not repeated.
pub fn expand_replicated_group(node_id: &str, group_path: &Vec<String>) -> (r: Result<ExpandReplicatedGroupResponse, String>)
    ensures
        r matches Err(m) && m@ == "Group not found or not replicated"@,
{
    Err(string_of("Group not found or not replicated"))
}

/// The outcome of writing a value.
pub struct WriteResponse {
    pub address: u32,
    pub space: u8,
    pub success: bool,
    pub error_code: Option<u16>,
    pub error_message: Option<String>,
    pub retry_count: u32,
}

/// The response to a write at `address` in `space`, from the write's result.
pub fn write_response(address: u32, space: u8, result: Result<(), String>) -> (r: WriteResponse)
    ensures
        r.address == address,
        r.space == space,
        r.success == result is Ok,
        r.error_code is None,
        r.retry_count == 0,
        match result {
            Ok(()) => r.error_message is None,
            Err(e) => opt_str(r.error_message) == Some(e@),
        },
{
    match result {
        Ok(()) => WriteResponse { address, space, success: true, error_code: None, error_message: None, retry_count: 0 },
        Err(e) => WriteResponse { address, space, success: false, error_code: None, error_message: Some(e), retry_count: 0 },
    }
}

} // verus!
