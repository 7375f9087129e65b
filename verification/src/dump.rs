//! One `drm_info` dump, as much of it as the capability types can express.

use vstd::prelude::*;
use crate::order::{ordered, sort, views, Ranked};
use crate::planes::{PlaneCapabilities, PlaneType};
use crate::text::{law_texts_are_totally_ordered, sorts_before, text_before, texts};

verus! {

/// A JSON value, as much of it as a dump is asked about.
#[derive(Debug, PartialEq, Eq)]
pub enum Node {
    /// Nothing.
    Null,
    /// A truth value.
    Bool(bool),
    /// A whole number that is not negative.
    Unsigned(u64),
    /// Any other number.
    Number,
    /// A string.
    Text(String),
    /// An array.
    Array(Vec<Node>),
    /// An object, each name once.
    Object(Vec<Member>),
}

/// A named member of an object.
#[derive(Debug, PartialEq, Eq)]
pub struct Member {
    /// Its name.
    pub name: String,
    /// Its value.
    pub value: Node,
}

/// What a value holds, text as text.
pub enum Tree {
    /// Nothing.
    Null,
    /// A truth value.
    Bool(bool),
    /// A whole number that is not negative.
    Unsigned(u64),
    /// Any other number.
    Number,
    /// A string.
    Text(Seq<char>),
    /// An array.
    Array(Seq<Tree>),
    /// An object, by name.
    Object(Seq<(Seq<char>, Tree)>),
}

/// What a value holds.
pub open spec fn tree_of(value: Node) -> Tree
    decreases value,
{
    match value {
        Node::Null => Tree::Null,
        Node::Bool(b) => Tree::Bool(b),
        Node::Unsigned(number) => Tree::Unsigned(number),
        Node::Number => Tree::Number,
        Node::Text(text) => Tree::Text(text@),
        Node::Array(items) => Tree::Array(
            Seq::new(
                items@.len(),
                |i: int|
                    if 0 <= i < items@.len() {
                        tree_of(items@[i])
                    } else {
                        Tree::Null
                    },
            ),
        ),
        Node::Object(members) => Tree::Object(
            Seq::new(
                members@.len(),
                |i: int|
                    if 0 <= i < members@.len() {
                        (members@[i].name@, tree_of(members@[i].value))
                    } else {
                        (Seq::empty(), Tree::Null)
                    },
            ),
        ),
    }
}

/// A value as `serde_json` parses it.
#[verifier::external_type_specification]
#[verifier::external_body]
pub struct ExJsonValue(serde_json::Value);

/// What a parsed value holds, members by name in the order `serde_json` lists
/// them.
pub uninterp spec fn json_holds(value: serde_json::Value) -> Tree;

/// What JSON text holds; nothing where `serde_json` does not take it for JSON.
pub uninterp spec fn json_tree(text: Seq<char>) -> Option<Tree>;

/// `serde_json::from_str` on a whole text: whether it is JSON, and what it holds.
/// Which texts are JSON is left to the crate.
#[verifier::external_body]
fn parse_json(text: &str) -> (parsed: Option<serde_json::Value>)
    ensures
        match (parsed, json_tree(text@)) {
            (Some(value), Some(tree)) => json_holds(value) == tree,
            (None, None) => true,
            _ => false,
        },
{
    serde_json::from_str(text).ok()
}

/// `serde_json::Value` taken apart, variant by variant: the same tree, a number
/// by `Number::as_u64` where that gives one.
#[verifier::external_body]
fn plain(value: serde_json::Value) -> (same: Node)
    ensures
        tree_of(same) == json_holds(value),
{
    match value {
        serde_json::Value::Null => Node::Null,
        serde_json::Value::Bool(b) => Node::Bool(b),
        serde_json::Value::Number(n) => n.as_u64().map_or(Node::Number, Node::Unsigned),
        serde_json::Value::String(text) => Node::Text(text),
        serde_json::Value::Array(items) => Node::Array(items.into_iter().map(plain).collect()),
        serde_json::Value::Object(map) => Node::Object(
            map.into_iter().map(|(name, value)| Member { name, value: plain(value) }).collect(),
        ),
    }
}

/// The first member with a name.
pub open spec fn first_member(members: Seq<Member>, name: Seq<char>) -> Option<Node>
    decreases members.len(),
{
    if members.len() == 0 {
        None
    } else if members[0].name@ == name {
        Some(members[0].value)
    } else {
        first_member(members.skip(1), name)
    }
}

/// The member of a value with a name, where the value is an object that has one.
pub open spec fn member(value: Node, name: Seq<char>) -> Option<Node> {
    match value {
        Node::Object(members) => first_member(members@, name),
        _ => None,
    }
}

/// The member of a value that may not be there.
pub open spec fn member_of(value: Option<Node>, name: Seq<char>) -> Option<Node> {
    match value {
        Some(found) => member(found, name),
        None => None,
    }
}

/// A value as a whole number.
pub open spec fn unsigned(value: Option<Node>) -> Option<u64> {
    match value {
        Some(Node::Unsigned(number)) => Some(number),
        _ => None,
    }
}

/// A value as text.
pub open spec fn text_of(value: Option<Node>) -> Option<Seq<char>> {
    match value {
        Some(Node::Text(text)) => Some(text@),
        _ => None,
    }
}

/// A value as an array.
pub open spec fn items(value: Option<Node>) -> Option<Seq<Node>> {
    match value {
        Some(Node::Array(list)) => Some(list@),
        _ => None,
    }
}

/// Whether a borrowed value is the one meant.
pub open spec fn same_value(found: Option<&Node>, meant: Option<Node>) -> bool {
    match (found, meant) {
        (Some(value), Some(other)) => *value == other,
        (None, None) => true,
        _ => false,
    }
}

/// Whether a string is the text meant.
pub open spec fn same_text(found: Option<&str>, meant: Option<Seq<char>>) -> bool {
    match (found, meant) {
        (Some(text), Some(other)) => text@ == other,
        (None, None) => true,
        _ => false,
    }
}

impl Node {
    /// The member with a name.
    pub fn get(&self, name: &str) -> (found: Option<&Node>)
        ensures
            same_value(found, member(*self, name@)),
    {
        match self {
            Node::Object(members) => {
                let wanted: String = name.to_owned();
                let mut i: usize = 0;
                assert(members@.skip(0) =~= members@);
                while i < members.len()
                    invariant
                        0 <= i <= members@.len(),
                        wanted@ == name@,
                        *self == Node::Object(*members),
                        first_member(members@, name@) == first_member(
                            members@.skip(i as int),
                            name@,
                        ),
                    decreases members@.len() - i,
                {
                    if members[i].name == wanted {
                        return Some(&members[i].value);
                    }
                    assert(members@.skip(i as int).skip(1) =~= members@.skip(i + 1));
                    i += 1;
                }
                None
            },
            _ => None,
        }
    }

    /// The value as a whole number.
    pub fn as_u64(&self) -> (number: Option<u64>)
        ensures
            number == unsigned(Some(*self)),
    {
        match self {
            Node::Unsigned(number) => Some(*number),
            _ => None,
        }
    }

    /// The value as text.
    pub fn as_str(&self) -> (text: Option<&str>)
        ensures
            same_text(text, text_of(Some(*self))),
    {
        match self {
            Node::Text(text) => Some(text.as_str()),
            _ => None,
        }
    }

    /// The value as a truth value.
    pub fn as_bool(&self) -> (truth: Option<bool>)
        ensures
            truth == match *self {
                Node::Bool(b) => Some(b),
                _ => None,
            },
    {
        match self {
            Node::Bool(b) => Some(*b),
            _ => None,
        }
    }

    /// The value as an array.
    pub fn as_array(&self) -> (list: Option<&Vec<Node>>)
        ensures
            match (list, *self) {
                (Some(found), Node::Array(meant)) => *found == meant,
                (None, Node::Array(_)) => false,
                (Some(_), _) => false,
                (None, _) => true,
            },
    {
        match self {
            Node::Array(list) => Some(list),
            _ => None,
        }
    }

    /// The names of an object's members, in order; none where this is no object.
    pub fn keys(&self) -> (names: Vec<String>)
        ensures
            texts(names@) == key_names(Some(*self)),
    {
        let mut names: Vec<String> = Vec::new();
        match self {
            Node::Object(members) => {
                let ghost meant = key_names(Some(*self));
                let mut i: usize = 0;
                assert(texts(names@) =~= meant.take(0));
                while i < members.len()
                    invariant
                        0 <= i <= members@.len(),
                        meant.len() == members@.len(),
                        meant == members@.map_values(|m: Member| m.name@),
                        texts(names@) == meant.take(i as int),
                    decreases members@.len() - i,
                {
                    let ghost before = names@;
                    let name: String = members[i].name.clone();
                    names.push(name);
                    assert(texts(names@) =~= texts(before).push(name@));
                    assert(meant.take(i + 1) =~= meant.take(i as int).push(meant[i as int]));
                    i += 1;
                }
                assert(meant.take(i as int) =~= meant);
            },
            _ => {
                assert(texts(names@) =~= Seq::empty());
            },
        }
        names
    }
}

/// The names of an object's members.
pub open spec fn key_names(value: Option<Node>) -> Seq<Seq<char>> {
    match value {
        Some(Node::Object(members)) => members@.map_values(|m: Member| m.name@),
        _ => Seq::empty(),
    }
}

/// The member of a value that may not be there.
fn get_of<'a>(value: Option<&'a Node>, name: &str) -> (found: Option<&'a Node>)
    ensures
        match value {
            Some(v) => same_value(found, member(*v, name@)),
            None => found is None,
        },
{
    match value {
        Some(v) => v.get(name),
        None => None,
    }
}

/// A number that may not be there.
fn number_of(value: Option<&Node>) -> (number: Option<u64>)
    ensures
        match value {
            Some(v) => number == unsigned(Some(*v)),
            None => number is None,
        },
{
    match value {
        Some(v) => v.as_u64(),
        None => None,
    }
}

/// Whether a name is among others.
pub fn has_name(names: &Vec<String>, name: &str) -> (has: bool)
    ensures
        has == texts(names@).contains(name@),
{
    let wanted: String = name.to_owned();
    let mut i: usize = 0;
    while i < names.len()
        invariant
            0 <= i <= names@.len(),
            wanted@ == name@,
            forall|j: int| 0 <= j < i ==> #[trigger] texts(names@)[j] != name@,
        decreases names@.len() - i,
    {
        if names[i] == wanted {
            assert(texts(names@)[i as int] == name@);
            return true;
        }
        i += 1;
    }
    false
}

/// One CRTC, as much of it as the rules ask about.
#[derive(Debug, PartialEq, Eq)]
pub struct Crtc {
    /// Property names the dump lists.
    pub properties: Vec<String>,
}

impl Crtc {
    /// Whether the dump lists a property.
    pub fn has(&self, name: &str) -> (has: bool)
        ensures
            has == texts(self.properties@).contains(name@),
    {
        has_name(&self.properties, name)
    }
}

/// One plane: its capabilities plus what the dump adds.
#[derive(Debug, PartialEq, Eq)]
pub struct Plane {
    /// What it can do.
    pub caps: PlaneCapabilities,
    /// Property names the dump lists, for rules asking about presence.
    pub properties: Vec<String>,
    /// `rotation` entry names, when it has them.
    pub rotation_names: Vec<String>,
    /// Whether `zpos` is flagged immutable, which is the honest form of a plane
    /// whose stacking position cannot move.
    pub zpos_immutable: bool,
}

/// A device from the corpus.
#[derive(Debug, PartialEq, Eq)]
pub struct Device {
    /// The dump's name, which is how a finding is reported.
    pub name: String,
    /// The driver.
    pub driver: String,
    /// Whether the dump carries atomic plane properties.
    ///
    /// A dump taken on a pre-atomic driver, or by a client that did not set the
    /// atomic capability, has planes with almost no properties at all. Rules
    /// about atomic properties must not be applied to those.
    pub atomic: bool,
    /// The CRTCs the dump lists.
    pub crtcs: Vec<Crtc>,
    /// The planes the dump lists.
    pub planes: Vec<Plane>,
}

/// The name of an enum property's current value: the first entry with it.
pub open spec fn enum_name(entries: Seq<Node>, raw: u64) -> Option<Seq<char>>
    decreases entries.len(),
{
    if entries.len() == 0 {
        None
    } else if unsigned(member(entries[0], "value"@)) == Some(raw) {
        text_of(member(entries[0], "name"@))
    } else {
        enum_name(entries.skip(1), raw)
    }
}

/// The name of an enum property's current value.
pub open spec fn enum_value_of(props: Option<Node>, name: Seq<char>) -> Option<Seq<char>> {
    let property = member_of(props, name);
    match (unsigned(member_of(property, "raw_value"@)), items(member_of(property, "spec"@))) {
        (Some(raw), Some(entries)) => enum_name(entries, raw),
        _ => None,
    }
}

/// The name of an enum property's current value.
fn enum_value<'a>(props: Option<&'a Node>, name: &str) -> (value: Option<&'a str>)
    ensures
        match props {
            Some(p) => same_text(value, enum_value_of(Some(*p), name@)),
            None => value is None,
        },
{
    let property: &Node = match get_of(props, name) {
        Some(property) => property,
        None => {
            return None;
        },
    };
    let raw: u64 = match number_of(property.get("raw_value")) {
        Some(raw) => raw,
        None => {
            return None;
        },
    };
    let entries: &Vec<Node> = match property.get("spec") {
        Some(found) => match found.as_array() {
            Some(entries) => entries,
            None => {
                return None;
            },
        },
        None => {
            return None;
        },
    };
    let mut i: usize = 0;
    assert(entries@.skip(0) =~= entries@);
    while i < entries.len()
        invariant
            0 <= i <= entries@.len(),
            props matches Some(p) && enum_value_of(Some(*p), name@) == enum_name(
                entries@.skip(i as int),
                raw,
            ),
        decreases entries@.len() - i,
    {
        if number_of(entries[i].get("value")) == Some(raw) {
            return match entries[i].get("name") {
                Some(found) => found.as_str(),
                None => None,
            };
        }
        assert(entries@.skip(i as int).skip(1) =~= entries@.skip(i + 1));
        i += 1;
    }
    None
}

/// A range property's inclusive bounds, as far as the dump states them.
///
/// A property present with no stated bounds is unknown, not fixed. The upper
/// bound goes by either spelling, the capitalised one first.
pub open spec fn stated_range(props: Option<Node>, name: Seq<char>) -> (Option<u64>, Option<u64>) {
    let stated = member_of(member_of(props, name), "spec"@);
    let max = match member_of(stated, "Max"@) {
        Some(found) => Some(found),
        None => member_of(stated, "max"@),
    };
    (unsigned(member_of(stated, "min"@)), unsigned(max))
}

/// A range property's inclusive bounds.
fn range_of(props: Option<&Node>, name: &str) -> (range: (Option<u64>, Option<u64>))
    ensures
        match props {
            Some(p) => range == stated_range(Some(*p), name@),
            None => range == (None::<u64>, None::<u64>),
        },
{
    let stated: Option<&Node> = get_of(get_of(props, name), "spec");
    let min: Option<u64> = number_of(get_of(stated, "min"));
    let max: Option<u64> = match get_of(stated, "Max") {
        Some(found) => found.as_u64(),
        None => number_of(get_of(stated, "max")),
    };
    (min, max)
}

/// The names among the entries of a bitmask property.
pub open spec fn entry_names(entries: Seq<Node>) -> Seq<Seq<char>>
    decreases entries.len(),
{
    if entries.len() == 0 {
        Seq::empty()
    } else {
        let head = entry_names(entries.drop_last());
        match text_of(member(entries.last(), "name"@)) {
            Some(name) => head.push(name),
            None => head,
        }
    }
}

/// The names a bitmask property advertises.
pub open spec fn advertised(props: Option<Node>, name: Seq<char>) -> Seq<Seq<char>> {
    match items(member_of(member_of(props, name), "spec"@)) {
        Some(entries) => entry_names(entries),
        None => Seq::empty(),
    }
}

/// The names a bitmask property advertises.
fn bitmask_names(props: Option<&Node>, name: &str) -> (names: Vec<String>)
    ensures
        match props {
            Some(p) => texts(names@) == advertised(Some(*p), name@),
            None => names@.len() == 0,
        },
{
    let mut names: Vec<String> = Vec::new();
    assert(texts(names@) =~= Seq::empty());
    let entries: &Vec<Node> = match get_of(get_of(props, name), "spec") {
        Some(found) => match found.as_array() {
            Some(entries) => entries,
            None => {
                return names;
            },
        },
        None => {
            return names;
        },
    };
    let mut i: usize = 0;
    assert(entries@.take(0) =~= Seq::empty());
    while i < entries.len()
        invariant
            0 <= i <= entries@.len(),
            texts(names@) == entry_names(entries@.take(i as int)),
        decreases entries@.len() - i,
    {
        assert(entries@.take(i + 1).drop_last() =~= entries@.take(i as int));
        if let Some(found) = entries[i].get("name") {
            if let Some(text) = found.as_str() {
                let ghost before = names@;
                let name: String = text.to_owned();
                names.push(name);
                assert(texts(names@) =~= texts(before).push(name@));
            }
        }
        i += 1;
    }
    assert(entries@.take(i as int) =~= entries@);
    names
}

/// The format an entry of a format list names: a bare number, or an object with
/// one under `fourcc`.
pub open spec fn format_entry(entry: Node) -> Option<u64> {
    match unsigned(Some(entry)) {
        Some(raw) => Some(raw),
        None => unsigned(member(entry, "fourcc"@)),
    }
}

/// The formats a list names, those that fit.
pub open spec fn format_list(entries: Seq<Node>) -> Seq<u32>
    decreases entries.len(),
{
    if entries.len() == 0 {
        Seq::empty()
    } else {
        let head = format_list(entries.drop_last());
        match format_entry(entries.last()) {
            Some(raw) => if raw <= u32::MAX {
                head.push(raw as u32)
            } else {
                head
            },
            None => head,
        }
    }
}

/// The formats a plane lists.
pub open spec fn plane_formats(value: Node) -> Seq<u32> {
    match items(member(value, "formats"@)) {
        Some(entries) => format_list(entries),
        None => Seq::empty(),
    }
}

fn formats_of(value: &Node) -> (formats: Vec<u32>)
    ensures
        formats@ == plane_formats(*value),
{
    let mut formats: Vec<u32> = Vec::new();
    assert(formats@ =~= Seq::empty());
    let entries: &Vec<Node> = match value.get("formats") {
        Some(found) => match found.as_array() {
            Some(entries) => entries,
            None => {
                return formats;
            },
        },
        None => {
            return formats;
        },
    };
    let mut i: usize = 0;
    assert(entries@.take(0) =~= Seq::empty());
    while i < entries.len()
        invariant
            0 <= i <= entries@.len(),
            formats@ == format_list(entries@.take(i as int)),
        decreases entries@.len() - i,
    {
        assert(entries@.take(i + 1).drop_last() =~= entries@.take(i as int));
        let named: Option<u64> = match entries[i].as_u64() {
            Some(raw) => Some(raw),
            None => number_of(entries[i].get("fourcc")),
        };
        if let Some(raw) = named {
            if raw <= u32::MAX as u64 {
                formats.push(raw as u32);
            }
        }
        i += 1;
    }
    assert(entries@.take(i as int) =~= entries@);
    formats
}

/// A number that fits, or zero.
pub open spec fn fitting(number: Option<u64>) -> u32 {
    match number {
        Some(raw) => if raw <= u32::MAX {
            raw as u32
        } else {
            0
        },
        None => 0,
    }
}

fn fit(number: Option<u64>) -> (fitted: u32)
    ensures
        fitted == fitting(number),
{
    match number {
        Some(raw) => if raw <= u32::MAX as u64 {
            raw as u32
        } else {
            0
        },
        None => 0,
    }
}

/// The kind of plane a dump names.
pub open spec fn named_type(name: Option<Seq<char>>) -> PlaneType {
    if name == Some("Primary"@) {
        PlaneType::Primary
    } else if name == Some("Cursor"@) {
        PlaneType::Cursor
    } else {
        PlaneType::Overlay
    }
}

/// Whether a dump flags a property as immutable.
pub open spec fn flagged_immutable(props: Option<Node>, name: Seq<char>) -> bool {
    member_of(member_of(props, name), "immutable"@) == Some(Node::Bool(true))
}

/// What a plane is, read from its entry in a dump.
pub open spec fn plane_read(value: Node, plane: Plane) -> bool {
    let props = member(value, "properties"@);
    let listed = key_names(props);
    &&& texts(plane.properties@) == listed
    &&& texts(plane.rotation_names@) == advertised(props, "rotation"@)
    &&& plane.zpos_immutable == flagged_immutable(props, "zpos"@)
    &&& plane.caps.id == fitting(unsigned(member(value, "id"@)))
    &&& plane.caps.possible_crtcs == fitting(unsigned(member(value, "possible_crtcs"@)))
    &&& plane.caps.plane_type == named_type(enum_value_of(props, "type"@))
    &&& plane.caps.formats@ == plane_formats(value)
    &&& (plane.caps.zpos_min, plane.caps.zpos_max) == stated_range(props, "zpos"@)
    &&& plane.caps.supports_rotation == listed.contains("rotation"@)
    &&& plane.caps.supports_scaling == listed.contains("SRC_W"@)
    &&& plane.caps.has_fb_damage_clips == listed.contains("FB_DAMAGE_CLIPS"@)
    &&& plane.caps.has_pixel_blend_mode == listed.contains("pixel blend mode"@)
    &&& plane.caps.has_per_plane_alpha == listed.contains("alpha"@)
    &&& plane.caps.has_color_encoding == listed.contains("COLOR_ENCODING"@)
    &&& plane.caps.has_color_range == listed.contains("COLOR_RANGE"@)
    &&& plane.caps.rotation_bits == 0
    &&& !plane.caps.has_format_modifiers
}

fn is_text(text: &str, other: &str) -> (same: bool)
    ensures
        same == (text@ == other@),
{
    let a: String = text.to_owned();
    let b: String = other.to_owned();
    a == b
}

/// Read one plane.
pub fn plane_from_json(value: &Node) -> (plane: Plane)
    ensures
        plane_read(*value, plane),
{
    let props: Option<&Node> = value.get("properties");
    let properties: Vec<String> = match props {
        Some(found) => found.keys(),
        None => Vec::new(),
    };
    proof {
        if props is None {
            assert(texts(properties@) =~= Seq::empty());
        }
    }
    let formats = formats_of(value);
    let plane_type: PlaneType = match enum_value(props, "type") {
        Some(name) => if is_text(name, "Primary") {
            PlaneType::Primary
        } else if is_text(name, "Cursor") {
            PlaneType::Cursor
        } else {
            PlaneType::Overlay
        },
        None => PlaneType::Overlay,
    };
    let (zpos_min, zpos_max): (Option<u64>, Option<u64>) = range_of(props, "zpos");
    let zpos_immutable: bool = match get_of(get_of(props, "zpos"), "immutable") {
        Some(found) => match found.as_bool() {
            Some(flag) => flag,
            None => false,
        },
        None => false,
    };
    let rotation_names = bitmask_names(props, "rotation");
    proof {
        if props is None {
            assert(texts(rotation_names@) =~= Seq::empty());
        }
    }
    let caps = PlaneCapabilities {
        id: fit(number_of(value.get("id"))),
        possible_crtcs: fit(number_of(value.get("possible_crtcs"))),
        plane_type,
        formats,
        zpos_min,
        zpos_max,
        rotation_bits: 0,
        supports_rotation: has_name(&properties, "rotation"),
        supports_scaling: has_name(&properties, "SRC_W"),
        has_fb_damage_clips: has_name(&properties, "FB_DAMAGE_CLIPS"),
        has_pixel_blend_mode: has_name(&properties, "pixel blend mode"),
        has_per_plane_alpha: has_name(&properties, "alpha"),
        has_color_encoding: has_name(&properties, "COLOR_ENCODING"),
        has_color_range: has_name(&properties, "COLOR_RANGE"),
        has_format_modifiers: false,
    };
    Plane { caps, properties, rotation_names, zpos_immutable }
}

/// The driver a dump names.
pub open spec fn driver_of(value: Node) -> Seq<char> {
    match text_of(member_of(member(value, "driver"@), "name"@)) {
        Some(name) => name,
        None => "unknown"@,
    }
}

/// The entries a dump lists under a name.
pub open spec fn listed(value: Node, name: Seq<char>) -> Seq<Node> {
    match items(member(value, name)) {
        Some(entries) => entries,
        None => Seq::empty(),
    }
}

/// Whether some plane lists a property that the kernel hides from a client that
/// is not atomic.
pub open spec fn taken_atomically(planes: Seq<Plane>) -> bool {
    exists|i: int|
        0 <= i < planes.len() && texts((#[trigger] planes[i]).properties@).contains("CRTC_X"@)
}

/// What a device is, read from its dump.
pub open spec fn device_read(name: Seq<char>, value: Node, device: Device) -> bool {
    let planes = listed(value, "planes"@);
    let crtcs = listed(value, "crtcs"@);
    &&& device.name@ == name
    &&& device.driver@ == driver_of(value)
    &&& device.planes@.len() == planes.len()
    &&& forall|i: int|
        0 <= i < planes.len() ==> plane_read(planes[i], #[trigger] device.planes@[i])
    &&& device.atomic == taken_atomically(device.planes@)
    &&& device.crtcs@.len() == crtcs.len()
    &&& forall|i: int|
        0 <= i < crtcs.len() ==> texts((#[trigger] device.crtcs@[i]).properties@) == key_names(
            member(crtcs[i], "properties"@),
        )
}

fn read_planes(value: &Node) -> (planes: Vec<Plane>)
    ensures
        planes@.len() == listed(*value, "planes"@).len(),
        forall|i: int|
            0 <= i < planes@.len() ==> plane_read(
                listed(*value, "planes"@)[i],
                #[trigger] planes@[i],
            ),
{
    let mut planes: Vec<Plane> = Vec::new();
    if let Some(found) = value.get("planes") {
        if let Some(entries) = found.as_array() {
            let mut i: usize = 0;
            while i < entries.len()
                invariant
                    0 <= i <= entries@.len(),
                    planes@.len() == i,
                    forall|j: int| 0 <= j < i ==> plane_read(entries@[j], #[trigger] planes@[j]),
                decreases entries@.len() - i,
            {
                planes.push(plane_from_json(&entries[i]));
                i += 1;
            }
        }
    }
    planes
}

fn read_crtcs(value: &Node) -> (crtcs: Vec<Crtc>)
    ensures
        crtcs@.len() == listed(*value, "crtcs"@).len(),
        forall|i: int|
            0 <= i < crtcs@.len() ==> texts((#[trigger] crtcs@[i]).properties@) == key_names(
                member(listed(*value, "crtcs"@)[i], "properties"@),
            ),
{
    let mut crtcs: Vec<Crtc> = Vec::new();
    if let Some(found) = value.get("crtcs") {
        if let Some(entries) = found.as_array() {
            let mut i: usize = 0;
            while i < entries.len()
                invariant
                    0 <= i <= entries@.len(),
                    crtcs@.len() == i,
                    forall|j: int|
                        0 <= j < i ==> texts((#[trigger] crtcs@[j]).properties@) == key_names(
                            member(entries@[j], "properties"@),
                        ),
                decreases entries@.len() - i,
            {
                let properties: Vec<String> = match entries[i].get("properties") {
                    Some(found) => found.keys(),
                    None => {
                        let none: Vec<String> = Vec::new();
                        assert(texts(none@) =~= Seq::empty());
                        none
                    },
                };
                crtcs.push(Crtc { properties });
                i += 1;
            }
        }
    }
    crtcs
}

impl Device {
    /// How many CRTCs the dump lists, as a bit index bound.
    pub open spec fn crtc_bound(self) -> nat {
        if self.crtcs@.len() <= u32::MAX {
            self.crtcs@.len()
        } else {
            u32::MAX as nat
        }
    }

    /// How many CRTCs the dump lists, as a bit index bound.
    pub fn crtc_count(&self) -> (count: u32)
        ensures
            count == self.crtc_bound(),
    {
        let listed: usize = self.crtcs.len();
        if listed <= u32::MAX as usize {
            listed as u32
        } else {
            u32::MAX
        }
    }

    /// Read a device from its dump.
    pub fn from_json(name: &str, value: &Node) -> (device: Self)
        ensures
            device_read(name@, *value, device),
    {
        let driver: String = match get_of(value.get("driver"), "name") {
            Some(found) => match found.as_str() {
                Some(text) => text.to_owned(),
                None => "unknown".to_owned(),
            },
            None => "unknown".to_owned(),
        };
        let planes = read_planes(value);
        let mut atomic = false;
        let mut i: usize = 0;
        while i < planes.len()
            invariant
                0 <= i <= planes@.len(),
                atomic == exists|j: int|
                    0 <= j < i && texts((#[trigger] planes@[j]).properties@).contains("CRTC_X"@),
            decreases planes@.len() - i,
        {
            let ghost was = atomic;
            if has_name(&planes[i].properties, "CRTC_X") {
                atomic = true;
                assert(texts(planes@[i as int].properties@).contains("CRTC_X"@));
            }
            i += 1;
        }
        let crtcs = read_crtcs(value);
        Device { name: name.to_owned(), driver, atomic, crtcs, planes }
    }
}

/// Whether a device is read from a dump that holds a tree.
pub open spec fn read_from(name: Seq<char>, tree: Tree, device: Device) -> bool {
    exists|value: Node| #[trigger] tree_of(value) == tree && device_read(name, value, device)
}

/// Read a device from the text of its dump, where that is JSON at all.
pub fn read_dump(name: &str, text: &str) -> (device: Option<Device>)
    ensures
        match (device, json_tree(text@)) {
            (Some(read), Some(tree)) => read_from(name@, tree, read),
            (None, None) => true,
            _ => false,
        },
{
    match parse_json(text) {
        Some(parsed) => {
            let value = plain(parsed);
            Some(Device::from_json(name, &value))
        },
        None => None,
    }
}

impl View for Device {
    type V = Device;

    open spec fn view(&self) -> Device {
        *self
    }
}

impl Ranked for Device {
    open spec fn precedes(a: Device, b: Device) -> bool {
        text_before(a.name@, b.name@)
    }

    proof fn order_is_strict(a: Device, b: Device, c: Device) {
        law_texts_are_totally_ordered(a.name@, b.name@, c.name@);
        law_texts_are_totally_ordered(b.name@, c.name@, a.name@);
        law_texts_are_totally_ordered(c.name@, a.name@, b.name@);
        law_texts_are_totally_ordered(c.name@, b.name@, a.name@);
        law_texts_are_totally_ordered(b.name@, a.name@, c.name@);
    }

    fn is_before(&self, other: &Self) -> (before: bool) {
        sorts_before(self.name.as_str(), other.name.as_str())
    }
}

/// A corpus in the order findings are reported: by name.
pub fn in_name_order(devices: Vec<Device>) -> (sorted: Vec<Device>)
    ensures
        sorted@ == ordered::<Device>(devices@),
{
    let ghost before = devices@;
    let sorted = sort(devices);
    assert(views(before) =~= before);
    assert(views(sorted@) =~= sorted@);
    sorted
}

/// Whether a dump's bounds are stated under one spelling of the maximum or the
/// other makes no difference to a dump that has only one of them.
pub proof fn law_either_spelling_of_the_maximum_is_read(
    props: Option<Node>,
    name: Seq<char>,
    max: u64,
)
    requires
        ({
            let stated = member_of(member_of(props, name), "spec"@);
            ||| unsigned(member_of(stated, "Max"@)) == Some(max)
            ||| member_of(stated, "Max"@) is None && unsigned(member_of(stated, "max"@)) == Some(
                max,
            )
        }),
    ensures
        stated_range(props, name).1 == Some(max),
{
}

/// A property without stated bounds has no range: its current value never
/// stands in for one.
pub proof fn law_unstated_bounds_are_unknown(props: Option<Node>, name: Seq<char>)
    requires
        member_of(member_of(props, name), "spec"@) is None,
    ensures
        stated_range(props, name) == (None::<u64>, None::<u64>),
{
}

// --- reading, member by member -----------------------------------------------

/// Whether a member is the first of its name.
pub open spec fn is_member(members: Seq<Member>, name: Seq<char>, i: int) -> bool {
    0 <= i < members.len() && members[i].name@ == name && forall|j: int|
        0 <= j < i ==> (#[trigger] members[j]).name@ != name
}

/// Whether a value is an object whose first member of a name holds this.
pub open spec fn finds(value: Node, name: Seq<char>, found: Node) -> bool {
    value matches Node::Object(members) && exists|i: int| #[trigger]
        is_member(members@, name, i) && members@[i].value == found
}

/// Whether a value is no object, or one without a member of a name.
pub open spec fn lacks(value: Node, name: Seq<char>) -> bool {
    value matches Node::Object(members) ==> forall|j: int|
        0 <= j < members@.len() ==> (#[trigger] members@[j]).name@ != name
}

proof fn lemma_first_member(members: Seq<Member>, name: Seq<char>, i: int)
    ensures
        is_member(members, name, i) ==> first_member(members, name) == Some(members[i].value),
        (forall|j: int| 0 <= j < members.len() ==> (#[trigger] members[j]).name@ != name)
            <==> first_member(members, name) is None,
    decreases members.len(),
{
    if members.len() > 0 {
        let rest = members.skip(1);
        assert forall|j: int| 0 <= j < rest.len() implies #[trigger] rest[j] == members[j + 1] by {}
        if members[0].name@ == name {
            if is_member(members, name, i) && i > 0 {
                assert(members[0].name@ != name);
            }
        } else {
            lemma_first_member(rest, name, i - 1);
            if is_member(members, name, i) {
                assert(is_member(rest, name, i - 1)) by {
                    assert forall|j: int| 0 <= j < i - 1 implies (#[trigger] rest[j]).name@
                        != name by {
                        assert(members[j + 1].name@ != name);
                    }
                }
            }
            if first_member(rest, name) is None {
                assert forall|j: int| 0 <= j < members.len() implies (#[trigger] members[j]).name@
                    != name by {
                    if j > 0 {
                        assert(rest[j - 1].name@ != name);
                    }
                }
            } else {
                assert(!(forall|j: int|
                    0 <= j < rest.len() ==> (#[trigger] rest[j]).name@ != name));
                let j = choose|j: int| 0 <= j < rest.len() && (#[trigger] rest[j]).name@ == name;
                assert(members[j + 1].name@ == name);
            }
        }
    }
}

/// A member is found by the first of its name in an object, and nowhere else.
pub proof fn law_members_are_found_by_name(value: Node, name: Seq<char>, found: Node)
    ensures
        finds(value, name, found) ==> member(value, name) == Some(found),
        lacks(value, name) ==> member(value, name) is None,
{
    if let Node::Object(members) = value {
        lemma_first_member(members@, name, 0);
        if finds(value, name, found) {
            let i = choose|i: int| #[trigger]
                is_member(members@, name, i) && members@[i].value == found;
            lemma_first_member(members@, name, i);
        }
    }
}

/// A plane's numbers are those its entry states, where they fit: its id and the
/// CRTCs it can feed.
pub proof fn law_a_planes_numbers_are_read(value: Node, plane: Plane, number: u64)
    requires
        plane_read(value, plane),
    ensures
        finds(value, "id"@, Node::Unsigned(number)) && number <= u32::MAX ==> plane.caps.id
            == number,
        lacks(value, "id"@) ==> plane.caps.id == 0,
        finds(value, "possible_crtcs"@, Node::Unsigned(number)) && number <= u32::MAX
            ==> plane.caps.possible_crtcs == number,
        lacks(value, "possible_crtcs"@) ==> plane.caps.possible_crtcs == 0,
{
    law_members_are_found_by_name(value, "id"@, Node::Unsigned(number));
    law_members_are_found_by_name(value, "possible_crtcs"@, Node::Unsigned(number));
}

/// Whether an object has a member of a name.
pub open spec fn has_member(members: Seq<Member>, name: Seq<char>) -> bool {
    exists|j: int| 0 <= j < members.len() && (#[trigger] members[j]).name@ == name
}

/// A plane has exactly the abilities whose properties it lists, and the properties
/// are listed as they stand.
pub proof fn law_a_planes_abilities_are_its_properties(
    value: Node,
    plane: Plane,
    members: Vec<Member>,
)
    requires
        plane_read(value, plane),
        finds(value, "properties"@, Node::Object(members)),
    ensures
        plane.properties@.len() == members@.len(),
        forall|j: int|
            0 <= j < members@.len() ==> (#[trigger] plane.properties@[j])@ == members@[j].name@,
        plane.caps.supports_rotation <==> has_member(members@, "rotation"@),
        plane.caps.supports_scaling <==> has_member(members@, "SRC_W"@),
        plane.caps.has_fb_damage_clips <==> has_member(members@, "FB_DAMAGE_CLIPS"@),
        plane.caps.has_pixel_blend_mode <==> has_member(members@, "pixel blend mode"@),
        plane.caps.has_per_plane_alpha <==> has_member(members@, "alpha"@),
        plane.caps.has_color_encoding <==> has_member(members@, "COLOR_ENCODING"@),
        plane.caps.has_color_range <==> has_member(members@, "COLOR_RANGE"@),
{
    law_members_are_found_by_name(value, "properties"@, Node::Object(members));
    let listed = key_names(Some(Node::Object(members)));
    assert(texts(plane.properties@) == listed);
    assert forall|j: int| 0 <= j < members@.len() implies (#[trigger] plane.properties@[j])@
        == members@[j].name@ by {
        assert(texts(plane.properties@)[j] == plane.properties@[j]@);
        assert(listed[j] == members@[j].name@);
    }
    assert forall|name: Seq<char>| #[trigger] listed.contains(name) <==> has_member(
        members@,
        name,
    ) by {
        if listed.contains(name) {
            let j = choose|j: int| 0 <= j < listed.len() && listed[j] == name;
            assert(members@[j].name@ == name);
        }
        if has_member(members@, name) {
            let j = choose|j: int|
                0 <= j < members@.len() && (#[trigger] members@[j]).name@ == name;
            assert(listed[j] == name);
        }
    }
}

/// A plane's stacking range is what the dump states under `zpos`: the least under
/// `min`, the greatest under `Max` or else `max`; whether it is fixed is its own
/// flag.
pub proof fn law_a_planes_stacking_is_read(
    value: Node,
    plane: Plane,
    props: Node,
    zpos: Node,
    stated: Node,
    low: u64,
    high: u64,
    flag: bool,
)
    requires
        plane_read(value, plane),
        finds(value, "properties"@, props),
        finds(props, "zpos"@, zpos),
    ensures
        finds(zpos, "spec"@, stated) ==> {
            &&& finds(stated, "min"@, Node::Unsigned(low)) ==> plane.caps.zpos_min == Some(low)
            &&& lacks(stated, "min"@) ==> plane.caps.zpos_min is None
            &&& finds(stated, "Max"@, Node::Unsigned(high)) ==> plane.caps.zpos_max == Some(high)
            &&& lacks(stated, "Max"@) && finds(stated, "max"@, Node::Unsigned(high))
                ==> plane.caps.zpos_max == Some(high)
            &&& lacks(stated, "Max"@) && lacks(stated, "max"@) ==> plane.caps.zpos_max is None
        },
        lacks(zpos, "spec"@) ==> plane.caps.zpos_min is None && plane.caps.zpos_max is None,
        finds(zpos, "immutable"@, Node::Bool(flag)) ==> plane.zpos_immutable == flag,
        lacks(zpos, "immutable"@) ==> !plane.zpos_immutable,
{
    law_members_are_found_by_name(value, "properties"@, props);
    law_members_are_found_by_name(props, "zpos"@, zpos);
    law_members_are_found_by_name(zpos, "spec"@, stated);
    law_members_are_found_by_name(zpos, "immutable"@, Node::Bool(flag));
    law_members_are_found_by_name(stated, "min"@, Node::Unsigned(low));
    law_members_are_found_by_name(stated, "Max"@, Node::Unsigned(high));
    law_members_are_found_by_name(stated, "max"@, Node::Unsigned(high));
}

/// A plane is of the type named by the entry that bears the property's current
/// value; anything but a primary or a cursor is an overlay.
pub proof fn law_a_planes_type_is_its_current_value(
    value: Node,
    plane: Plane,
    props: Node,
    property: Node,
    raw: u64,
    entries: Vec<Node>,
    at: int,
    name: String,
)
    requires
        plane_read(value, plane),
        finds(value, "properties"@, props),
        finds(props, "type"@, property),
        finds(property, "raw_value"@, Node::Unsigned(raw)),
        finds(property, "spec"@, Node::Array(entries)),
        0 <= at < entries@.len(),
        finds(entries@[at], "value"@, Node::Unsigned(raw)),
        finds(entries@[at], "name"@, Node::Text(name)),
        forall|j: int|
            0 <= j < at ==> exists|other: u64|
                other != raw && finds(#[trigger] entries@[j], "value"@, Node::Unsigned(other)),
    ensures
        plane.caps.plane_type == if name@ == "Primary"@ {
            PlaneType::Primary
        } else if name@ == "Cursor"@ {
            PlaneType::Cursor
        } else {
            PlaneType::Overlay
        },
{
    law_members_are_found_by_name(value, "properties"@, props);
    law_members_are_found_by_name(props, "type"@, property);
    law_members_are_found_by_name(property, "raw_value"@, Node::Unsigned(raw));
    law_members_are_found_by_name(property, "spec"@, Node::Array(entries));
    assert forall|j: int| 0 <= j < at implies unsigned(
        member(#[trigger] entries@[j], "value"@),
    ) != Some(raw) by {
        let other = choose|other: u64|
            other != raw && finds(entries@[j], "value"@, Node::Unsigned(other));
        law_members_are_found_by_name(entries@[j], "value"@, Node::Unsigned(other));
    }
    law_members_are_found_by_name(entries@[at], "value"@, Node::Unsigned(raw));
    law_members_are_found_by_name(entries@[at], "name"@, Node::Text(name));
    lemma_enum_name(entries@, raw, at);
}

proof fn lemma_enum_name(entries: Seq<Node>, raw: u64, at: int)
    requires
        0 <= at < entries.len(),
        unsigned(member(entries[at], "value"@)) == Some(raw),
        forall|j: int|
            0 <= j < at ==> unsigned(member(#[trigger] entries[j], "value"@)) != Some(raw),
    ensures
        enum_name(entries, raw) == text_of(member(entries[at], "name"@)),
    decreases at,
{
    if at > 0 {
        let rest = entries.skip(1);
        assert(unsigned(member(entries[0], "value"@)) != Some(raw));
        assert(rest[at - 1] == entries[at]);
        assert forall|j: int| 0 <= j < at - 1 implies unsigned(
            member(#[trigger] rest[j], "value"@),
        ) != Some(raw) by {
            assert(rest[j] == entries[j + 1]);
        }
        lemma_enum_name(rest, raw, at - 1);
    }
}

/// The formats of a plane are those its list names, in order: a number by itself,
/// or an object that holds one under `fourcc`. What does not fit is passed over.
pub proof fn law_formats_are_read_in_order(entries: Seq<Node>, entry: Node, number: u64)
    ensures
        format_list(Seq::empty()).len() == 0,
        (entry == Node::Unsigned(number) || finds(entry, "fourcc"@, Node::Unsigned(number)))
            && number <= u32::MAX ==> format_list(entries.push(entry)) == format_list(entries).push(
            number as u32,
        ),
        (entry == Node::Unsigned(number) || finds(entry, "fourcc"@, Node::Unsigned(number)))
            && number > u32::MAX ==> format_list(entries.push(entry)) == format_list(entries),
        !(entry is Unsigned) && lacks(entry, "fourcc"@) ==> format_list(entries.push(entry))
            == format_list(entries),
{
    assert(entries.push(entry).drop_last() =~= entries);
    law_members_are_found_by_name(entry, "fourcc"@, Node::Unsigned(number));
}

/// A plane lists its own formats and advertises the rotations its property names,
/// in order.
pub proof fn law_a_planes_lists_are_read(
    value: Node,
    plane: Plane,
    formats: Vec<Node>,
    props: Node,
    rotation: Node,
    names: Vec<Node>,
)
    requires
        plane_read(value, plane),
    ensures
        finds(value, "formats"@, Node::Array(formats)) ==> plane.caps.formats@ == format_list(
            formats@,
        ),
        lacks(value, "formats"@) ==> plane.caps.formats@.len() == 0,
        finds(value, "properties"@, props) && finds(props, "rotation"@, rotation) && finds(
            rotation,
            "spec"@,
            Node::Array(names),
        ) ==> texts(plane.rotation_names@) == entry_names(names@),
        plane.caps.rotation_bits == 0,
        !plane.caps.has_format_modifiers,
{
    law_members_are_found_by_name(value, "formats"@, Node::Array(formats));
    law_members_are_found_by_name(value, "properties"@, props);
    law_members_are_found_by_name(props, "rotation"@, rotation);
    law_members_are_found_by_name(rotation, "spec"@, Node::Array(names));
}

/// The names a bitmask advertises are its entries' names, in order; an entry
/// without one is passed over.
pub proof fn law_advertised_names_are_in_order(entries: Seq<Node>, entry: Node, name: String)
    ensures
        entry_names(Seq::empty()).len() == 0,
        finds(entry, "name"@, Node::Text(name)) ==> entry_names(entries.push(entry)) == entry_names(
            entries,
        ).push(name@),
        lacks(entry, "name"@) ==> entry_names(entries.push(entry)) == entry_names(entries),
{
    assert(entries.push(entry).drop_last() =~= entries);
    law_members_are_found_by_name(entry, "name"@, Node::Text(name));
}

/// A device is named as it was asked for, driven by what its dump says or unknown,
/// and taken atomically if some plane lists what only an atomic client sees.
pub proof fn law_a_device_is_read_whole(
    name: Seq<char>,
    value: Node,
    device: Device,
    driver: Node,
    called: String,
    planes: Vec<Node>,
    crtcs: Vec<Node>,
    i: int,
)
    requires
        device_read(name, value, device),
    ensures
        device.name@ == name,
        finds(value, "driver"@, driver) && finds(driver, "name"@, Node::Text(called))
            ==> device.driver@ == called@,
        lacks(value, "driver"@) ==> device.driver@ == "unknown"@,
        finds(value, "planes"@, Node::Array(planes)) ==> device.planes@.len() == planes@.len() && (0
            <= i < planes@.len() ==> plane_read(planes@[i], device.planes@[i])),
        lacks(value, "planes"@) ==> device.planes@.len() == 0,
        finds(value, "crtcs"@, Node::Array(crtcs)) ==> device.crtcs@.len() == crtcs@.len() && (0
            <= i < crtcs@.len() ==> texts(device.crtcs@[i].properties@) == key_names(
            member(crtcs@[i], "properties"@),
        )),
        device.atomic <==> exists|p: int, q: int|
            0 <= p < device.planes@.len() && 0 <= q < device.planes@[p].properties@.len()
                && #[trigger] device.planes@[p].properties@[q]@ == "CRTC_X"@,
{
    law_members_are_found_by_name(value, "driver"@, driver);
    law_members_are_found_by_name(driver, "name"@, Node::Text(called));
    law_members_are_found_by_name(value, "planes"@, Node::Array(planes));
    law_members_are_found_by_name(value, "crtcs"@, Node::Array(crtcs));
    if device.atomic {
        let p = choose|p: int|
            0 <= p < device.planes@.len() && texts(
                (#[trigger] device.planes@[p]).properties@,
            ).contains("CRTC_X"@);
        let listed = texts(device.planes@[p].properties@);
        let q = choose|q: int| 0 <= q < listed.len() && listed[q] == "CRTC_X"@;
        assert(device.planes@[p].properties@[q]@ == "CRTC_X"@);
    }
    if exists|p: int, q: int|
        0 <= p < device.planes@.len() && 0 <= q < device.planes@[p].properties@.len()
            && #[trigger] device.planes@[p].properties@[q]@ == "CRTC_X"@ {
        let (p, q) = choose|p: int, q: int|
            0 <= p < device.planes@.len() && 0 <= q < device.planes@[p].properties@.len()
                && #[trigger] device.planes@[p].properties@[q]@ == "CRTC_X"@;
        assert(texts(device.planes@[p].properties@)[q] == "CRTC_X"@);
        assert(texts(device.planes@[p].properties@).contains("CRTC_X"@));
    }
}

/// Devices stand in the order of their names.
pub proof fn law_devices_stand_by_name(a: Device, b: Device)
    ensures
        Device::precedes(a, b) <==> text_before(a.name@, b.name@),
{
}

} // verus!
