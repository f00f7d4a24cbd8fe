//! JSON values: the tree that the commands read and build, and its text form.

use vstd::prelude::*;
use vstd::utf8::encode_utf8;

use crate::error::Error;
use crate::order::{ascending_names, lemma_ascending_names, lists, name_order};
use crate::text::{
    is_white, lemma_text_less_total, lemma_text_less_trans, same_text, text_before, text_less,
};

verus! {

/// The number type of `serde_json`; opaque.
#[verifier::external_type_specification]
#[verifier::external_body]
pub struct ExNumber(serde_json::Number);

/// The value type of `serde_json`; opaque.
#[verifier::external_type_specification]
#[verifier::external_body]
pub struct ExValue(serde_json::Value);

/// A JSON number that is no integer of 64 bits. It comes from reading JSON only.
#[derive(Debug, PartialEq)]
pub struct JsonFloat {
    number: serde_json::Number,
}

impl JsonFloat {
    #[verifier::type_invariant]
    spec fn is_no_integer(self) -> bool {
        number_integer(self.number) is None
    }
}

/// A JSON value.
#[derive(Debug, PartialEq)]
pub enum Json {
    Null,
    Bool(bool),
    Unsigned(u64),
    Negative(i64),
    Float(JsonFloat),
    Str(String),
    Array(Vec<Json>),
    Object(JsonObject),
}

/// A JSON object: its fields in ascending order of their names, no name twice.
#[derive(Debug, PartialEq)]
pub struct JsonObject {
    entries: Vec<(String, Json)>,
}

/// What a JSON value says, whatever its representation.
#[verifier::ext_equal]
pub enum JsonTree {
    Null,
    Bool(bool),
    Int(int),
    Float(JsonFloat),
    Str(Seq<char>),
    Array(Seq<JsonTree>),
    Object(Map<Seq<char>, JsonTree>),
}

/// The map that a list of named trees describes; of two with one name the later counts.
pub open spec fn map_of(pairs: Seq<(Seq<char>, JsonTree)>) -> Map<Seq<char>, JsonTree>
    decreases pairs.len(),
{
    if pairs.len() == 0 {
        Map::empty()
    } else {
        map_of(pairs.drop_last()).insert(pairs.last().0, pairs.last().1)
    }
}

/// The tree that a value stands for.
pub open spec fn tree_of(json: Json) -> JsonTree
    decreases json,
{
    match json {
        Json::Null => JsonTree::Null,
        Json::Bool(b) => JsonTree::Bool(b),
        Json::Unsigned(n) => JsonTree::Int(n as int),
        Json::Negative(n) => JsonTree::Int(n as int),
        Json::Float(number) => JsonTree::Float(number),
        Json::Str(s) => JsonTree::Str(s@),
        Json::Array(items) => JsonTree::Array(trees(items@)),
        Json::Object(object) => JsonTree::Object(map_of(field_trees(object.fields()))),
    }
}

/// The trees of a list of values.
pub open spec fn trees(items: Seq<Json>) -> Seq<JsonTree>
    decreases items,
{
    if items.len() == 0 {
        Seq::empty()
    } else {
        trees(items.drop_last()).push(tree_of(items.last()))
    }
}

/// The named trees of a list of fields.
pub open spec fn field_trees(fields: Seq<(String, Json)>) -> Seq<(Seq<char>, JsonTree)>
    decreases fields,
{
    if fields.len() == 0 {
        Seq::empty()
    } else {
        field_trees(fields.drop_last()).push((fields.last().0@, tree_of(fields.last().1)))
    }
}

impl View for Json {
    type V = JsonTree;

    open spec fn view(&self) -> JsonTree {
        tree_of(*self)
    }
}

/// Whether the names of a list of fields ascend.
pub open spec fn names_ascend(fields: Seq<(String, Json)>) -> bool {
    forall|i: int, j: int|
        0 <= i < j < fields.len() ==> text_less(#[trigger] fields[i].0@, #[trigger] fields[j].0@)
}

impl JsonObject {
    /// The fields, in the order in which they are kept.
    pub closed spec fn fields(self) -> Seq<(String, Json)> {
        self.entries@
    }

    #[verifier::type_invariant]
    spec fn well_formed(self) -> bool {
        names_ascend(self.entries@)
    }
}

impl View for JsonObject {
    type V = Map<Seq<char>, JsonTree>;

    open spec fn view(&self) -> Map<Seq<char>, JsonTree> {
        map_of(field_trees(self.fields()))
    }
}

/// The trees of a list of values, one by one.
pub proof fn lemma_trees(items: Seq<Json>)
    ensures
        trees(items).len() == items.len(),
        forall|i: int| 0 <= i < items.len() ==> #[trigger] trees(items)[i] == items[i]@,
    decreases items.len(),
{
    if items.len() > 0 {
        lemma_trees(items.drop_last());
    }
}

/// The named trees of a list of fields, one by one.
pub proof fn lemma_field_trees(fields: Seq<(String, Json)>)
    ensures
        field_trees(fields).len() == fields.len(),
        forall|i: int|
            0 <= i < fields.len() ==> #[trigger] field_trees(fields)[i] == (
                fields[i].0@,
                fields[i].1@,
            ),
    decreases fields.len(),
{
    if fields.len() > 0 {
        lemma_field_trees(fields.drop_last());
    }
}

/// Whether no name stands twice in a list of named trees.
pub open spec fn names_differ(pairs: Seq<(Seq<char>, JsonTree)>) -> bool {
    forall|i: int, j: int|
        0 <= i < j < pairs.len() ==> #[trigger] pairs[i].0 != #[trigger] pairs[j].0
}

/// The domain of the map that a list describes: the names in the list.
pub proof fn lemma_map_of_domain(pairs: Seq<(Seq<char>, JsonTree)>)
    ensures
        forall|k: Seq<char>| #[trigger]
            map_of(pairs).contains_key(k) <==> exists|i: int|
                0 <= i < pairs.len() && #[trigger] pairs[i].0 == k,
        map_of(pairs).dom().finite(),
    decreases pairs.len(),
{
    if pairs.len() > 0 {
        let rest = pairs.drop_last();
        lemma_map_of_domain(rest);
        assert forall|k: Seq<char>| #[trigger] map_of(pairs).contains_key(k) <==> exists|i: int|
            0 <= i < pairs.len() && #[trigger] pairs[i].0 == k by {
            if map_of(rest).contains_key(k) {
                let i = choose|i: int| 0 <= i < rest.len() && #[trigger] rest[i].0 == k;
                assert(pairs[i].0 == k);
            }
            if pairs.last().0 == k {
                assert(pairs[pairs.len() - 1].0 == k);
            }
            if exists|i: int| 0 <= i < pairs.len() && #[trigger] pairs[i].0 == k {
                let i = choose|i: int| 0 <= i < pairs.len() && #[trigger] pairs[i].0 == k;
                if i < pairs.len() - 1 {
                    assert(rest[i].0 == k);
                }
            }
        }
    }
}

/// Where the names differ, the map that a list describes holds each of its pairs.
pub proof fn lemma_map_of_value(pairs: Seq<(Seq<char>, JsonTree)>, i: int)
    requires
        names_differ(pairs),
        0 <= i < pairs.len(),
    ensures
        map_of(pairs).contains_key(pairs[i].0),
        map_of(pairs)[pairs[i].0] == pairs[i].1,
    decreases pairs.len(),
{
    let rest = pairs.drop_last();
    if i < rest.len() {
        lemma_map_of_value(rest, i);
        assert(rest[i] == pairs[i]);
        assert(pairs[i].0 != pairs[pairs.len() - 1].0);
    }
}

proof fn lemma_map_of_replaced(pairs: Seq<(Seq<char>, JsonTree)>, i: int, tree: JsonTree)
    requires
        names_differ(pairs),
        0 <= i < pairs.len(),
    ensures
        map_of(pairs.update(i, (pairs[i].0, tree))) == map_of(pairs).insert(pairs[i].0, tree),
    decreases pairs.len(),
{
    let key = pairs[i].0;
    let new = pairs.update(i, (key, tree));
    let rest = pairs.drop_last();
    if i < rest.len() {
        lemma_map_of_replaced(rest, i, tree);
        assert(new.drop_last() =~= rest.update(i, (key, tree)));
        assert(key != pairs[pairs.len() - 1].0);
    } else {
        assert(new.drop_last() =~= rest);
    }
    assert(map_of(new) =~= map_of(pairs).insert(key, tree));
}

proof fn lemma_map_of_inserted(
    pairs: Seq<(Seq<char>, JsonTree)>,
    at: int,
    key: Seq<char>,
    tree: JsonTree,
)
    requires
        0 <= at <= pairs.len(),
        forall|i: int| 0 <= i < pairs.len() ==> #[trigger] pairs[i].0 != key,
    ensures
        map_of(pairs.insert(at, (key, tree))) == map_of(pairs).insert(key, tree),
    decreases pairs.len(),
{
    let new = pairs.insert(at, (key, tree));
    if at == pairs.len() {
        assert(new.drop_last() =~= pairs);
    } else {
        let rest = pairs.drop_last();
        assert forall|i: int| 0 <= i < rest.len() implies #[trigger] rest[i].0 != key by {
            assert(pairs[i].0 != key);
        }
        lemma_map_of_inserted(rest, at, key, tree);
        assert(new.drop_last() =~= rest.insert(at, (key, tree)));
        assert(new.last() == pairs.last());
        assert(pairs[pairs.len() - 1].0 != key);
        assert(map_of(new) =~= map_of(pairs).insert(key, tree));
    }
}

proof fn lemma_ascending_differ(fields: Seq<(String, Json)>)
    requires
        names_ascend(fields),
    ensures
        names_differ(field_trees(fields)),
{
    let pairs = field_trees(fields);
    lemma_field_trees(fields);
    assert forall|i: int, j: int| 0 <= i < j < pairs.len() implies #[trigger] pairs[i].0
        != #[trigger] pairs[j].0 by {
        lemma_text_less_total(fields[i].0@, fields[j].0@);
    }
}

/// The names of a list of fields.
pub open spec fn names_of(fields: Seq<(String, Json)>) -> Seq<Seq<char>> {
    Seq::new(fields.len(), |i: int| fields[i].0@)
}

/// Fields with ascending names list their object: the names come in ascending order, each with
/// its value.
pub proof fn lemma_fields_listed(fields: Seq<(String, Json)>)
    requires
        names_ascend(fields),
    ensures
        names_of(fields) == ascending_names(map_of(field_trees(fields)).dom()),
        forall|i: int|
            0 <= i < fields.len() ==> map_of(field_trees(fields)).contains_key(
                #[trigger] fields[i].0@,
            ) && map_of(field_trees(fields))[fields[i].0@] == fields[i].1@,
{
    let pairs = field_trees(fields);
    let names = names_of(fields);
    let object = map_of(pairs);
    lemma_field_trees(fields);
    lemma_ascending_differ(fields);
    lemma_map_of_domain(pairs);
    assert forall|i: int| 0 <= i < fields.len() implies object.contains_key(
        #[trigger] fields[i].0@,
    ) && object[fields[i].0@] == fields[i].1@ by {
        lemma_map_of_value(pairs, i);
    }
    assert forall|name: Seq<char>| #[trigger] object.dom().contains(name) <==> names.contains(
        name,
    ) by {
        if object.contains_key(name) {
            let i = choose|i: int| 0 <= i < pairs.len() && #[trigger] pairs[i].0 == name;
            assert(names[i] == name);
        }
        if names.contains(name) {
            let i = choose|i: int| 0 <= i < names.len() && names[i] == name;
            assert(pairs[i].0 == name);
        }
    }
    assert(lists(names, object.dom(), name_order()));
    lemma_ascending_names(names, object.dom());
}

impl JsonObject {
    /// The object without fields.
    pub fn new() -> (r: JsonObject)
        ensures
            r@ == Map::<Seq<char>, JsonTree>::empty(),
    {
        JsonObject { entries: Vec::new() }
    }

    /// The fields in ascending order of their names.
    pub fn pairs(&self) -> (r: &Vec<(String, Json)>)
        ensures
            r@ == self.fields(),
            names_ascend(r@),
            self@ == map_of(field_trees(r@)),
    {
        proof {
            use_type_invariant(self);
        }
        &self.entries
    }

    /// The value of a field.
    pub fn get(&self, name: &str) -> (r: Option<&Json>)
        ensures
            match r {
                Some(value) => self@.contains_key(name@) && self@[name@] == value@,
                None => !self@.contains_key(name@),
            },
    {
        proof {
            use_type_invariant(self);
            lemma_ascending_differ(self.entries@);
            lemma_field_trees(self.entries@);
        }
        let ghost pairs = field_trees(self.entries@);
        let mut i: usize = 0;
        while i < self.entries.len()
            invariant
                i <= self.entries@.len(),
                pairs.len() == self.entries@.len(),
                pairs == field_trees(self.entries@),
                forall|j: int|
                    0 <= j < pairs.len() ==> #[trigger] pairs[j] == (
                        self.entries@[j].0@,
                        self.entries@[j].1@,
                    ),
                names_differ(pairs),
                forall|j: int| 0 <= j < i ==> #[trigger] pairs[j].0 != name@,
            decreases self.entries.len() - i,
        {
            if same_text(self.entries[i].0.as_str(), name) {
                proof {
                    lemma_map_of_value(pairs, i as int);
                }
                return Some(&self.entries[i].1);
            }
            i += 1;
        }
        proof {
            lemma_map_of_domain(pairs);
        }
        None
    }

    /// Gives a field a value; an earlier value of that field is replaced.
    pub fn insert(&mut self, name: String, value: Json)
        ensures
            final(self)@ == old(self)@.insert(name@, value@),
    {
        proof {
            use_type_invariant(&*self);
        }
        let mut entries: Vec<(String, Json)> = Vec::new();
        std::mem::swap(&mut entries, &mut self.entries);
        let ghost before = entries@;
        let ghost pairs = field_trees(before);
        proof {
            lemma_ascending_differ(before);
            lemma_field_trees(before);
        }
        let mut at: usize = entries.len();
        while at > 0 && text_before(name.as_str(), entries[at - 1].0.as_str())
            invariant
                at <= entries@.len(),
                entries@ == before,
                forall|j: int|
                    at <= j < before.len() ==> text_less(name@, #[trigger] before[j].0@),
            decreases at,
        {
            at -= 1;
        }
        if at > 0 && same_text(entries[at - 1].0.as_str(), name.as_str()) {
            let ghost tree = value@;
            let ghost place = at - 1;
            entries[at - 1] = (name, value);
            proof {
                let after = entries@;
                lemma_field_trees(after);
                assert(field_trees(after) =~= pairs.update(place, (pairs[place].0, tree)));
                lemma_map_of_replaced(pairs, place, tree);
                assert forall|i: int, j: int| 0 <= i < j < after.len() implies text_less(
                    #[trigger] after[i].0@,
                    #[trigger] after[j].0@,
                ) by {
                    assert(text_less(before[i].0@, before[j].0@));
                }
            }
        } else {
            let ghost name_text = name@;
            let ghost tree = value@;
            entries.insert(at, (name, value));
            proof {
                let after = entries@;
                lemma_field_trees(after);
                assert forall|j: int| 0 <= j < at implies text_less(
                    #[trigger] before[j].0@,
                    name_text,
                ) by {
                    lemma_text_less_total(before[at - 1].0@, name_text);
                    if j < at - 1 {
                        lemma_text_less_trans(before[j].0@, before[at - 1].0@, name_text);
                    }
                }
                assert forall|i: int, j: int| 0 <= i < j < after.len() implies text_less(
                    #[trigger] after[i].0@,
                    #[trigger] after[j].0@,
                ) by {
                    let old_i = if i < at { i } else { i - 1 };
                    let old_j = if j < at { j } else { j - 1 };
                    if i != at && j != at {
                        assert(after[i] == before[old_i] && after[j] == before[old_j]);
                        assert(text_less(before[old_i].0@, before[old_j].0@));
                    } else if i == at {
                        assert(after[j] == before[old_j]);
                    } else {
                        assert(after[i] == before[i]);
                    }
                }
                assert forall|i: int| 0 <= i < pairs.len() implies #[trigger] pairs[i].0
                    != name_text by {
                    lemma_text_less_total(before[i].0@, name_text);
                    lemma_text_less_total(name_text, before[i].0@);
                }
                assert(field_trees(after) =~= pairs.insert(at as int, (name_text, tree)));
                lemma_map_of_inserted(pairs, at as int, name_text, tree);
            }
        }
        self.entries = entries;
    }
}

/// The tree that a `serde_json` value holds.
pub uninterp spec fn value_tree(value: serde_json::Value) -> JsonTree;

/// The integer that a `serde_json` number is, if it is an integer of 64 bits.
pub uninterp spec fn number_integer(number: serde_json::Number) -> Option<int>;

/// A `serde_json` value taken apart by one level. A number comes with what it is as an unsigned and
/// as a signed integer.
enum Node {
    Null,
    Bool(bool),
    Number(Option<u64>, Option<i64>, serde_json::Number),
    Str(String),
    Array(Vec<serde_json::Value>),
    Object(Vec<(String, serde_json::Value)>),
}

spec fn value_trees(items: Seq<serde_json::Value>) -> Seq<JsonTree> {
    Seq::new(items.len(), |i: int| value_tree(items[i]))
}

spec fn value_fields(fields: Seq<(String, serde_json::Value)>) -> Seq<(Seq<char>, JsonTree)> {
    Seq::new(fields.len(), |i: int| (fields[i].0@, value_tree(fields[i].1)))
}

spec fn node_tree(node: Node) -> JsonTree {
    match node {
        Node::Null => JsonTree::Null,
        Node::Bool(b) => JsonTree::Bool(b),
        Node::Number(Some(n), _, _) => JsonTree::Int(n as int),
        Node::Number(None, Some(n), _) => JsonTree::Int(n as int),
        Node::Number(None, None, number) => JsonTree::Float(JsonFloat { number }),
        Node::Str(s) => JsonTree::Str(s@),
        Node::Array(items) => JsonTree::Array(value_trees(items@)),
        Node::Object(fields) => JsonTree::Object(map_of(value_fields(fields@))),
    }
}

/// Takes a `serde_json::Value` apart: its variant, and what that holds. `Number::as_u64` and
/// `Number::as_i64` tell which integer a number is; one that is neither is handed out as it is. A
/// `serde_json::Map` is handed out as a list of its fields, which differ in their names.
#[verifier::external_body]
fn split_value(value: serde_json::Value) -> (r: Node)
    ensures
        value_tree(value) == node_tree(r),
        match r {
            Node::Number(Some(n), _, number) => number_integer(number) == Some(n as int),
            Node::Number(None, Some(n), number) => number_integer(number) == Some(n as int),
            Node::Number(None, None, number) => number_integer(number) is None,
            Node::Object(fields) => names_differ(value_fields(fields@)),
            _ => true,
        },
{
    match value {
        serde_json::Value::Null => Node::Null,
        serde_json::Value::Bool(b) => Node::Bool(b),
        serde_json::Value::Number(n) => Node::Number(n.as_u64(), n.as_i64(), n),
        serde_json::Value::String(s) => Node::Str(s),
        serde_json::Value::Array(items) => Node::Array(items),
        serde_json::Value::Object(fields) => Node::Object(fields.into_iter().collect()),
    }
}

/// `Value::from` an unsigned integer holds that integer.
#[verifier::external_body]
fn unsigned_value(n: u64) -> (r: serde_json::Value)
    ensures
        value_tree(r) == JsonTree::Int(n as int),
{
    serde_json::Value::from(n)
}

/// `Value::from` a signed integer holds that integer.
#[verifier::external_body]
fn signed_value(n: i64) -> (r: serde_json::Value)
    ensures
        value_tree(r) == JsonTree::Int(n as int),
{
    serde_json::Value::from(n)
}

/// A `serde_json::Value` of a copy, by `Number::clone`, of a number that is no integer.
#[verifier::external_body]
fn float_value(float: &JsonFloat) -> (r: serde_json::Value)
    requires
        number_integer(float.number) is None,
    ensures
        value_tree(r) == JsonTree::Float(*float),
{
    serde_json::Value::Number(float.number.clone())
}

/// Makes a `serde_json::Value` of its variant and what that holds. A list of fields is
/// collected into a `serde_json::Map`, where the later of two fields with one name stays.
#[verifier::external_body]
fn join_value(node: Node) -> (r: serde_json::Value)
    requires
        node !is Number,
    ensures
        value_tree(r) == node_tree(node),
{
    match node {
        Node::Null => serde_json::Value::Null,
        Node::Bool(b) => serde_json::Value::Bool(b),
        Node::Number(_, _, n) => serde_json::Value::Number(n),
        Node::Str(s) => serde_json::Value::String(s),
        Node::Array(items) => serde_json::Value::Array(items),
        Node::Object(fields) => serde_json::Value::Object(fields.into_iter().collect()),
    }
}

/// What `serde_json` reads from some bytes: a value, or the text of its error.
pub uninterp spec fn json_parse(bytes: Seq<u8>) -> Result<JsonTree, Seq<char>>;

/// Reads a JSON text with `serde_json::from_slice`.
#[verifier::external_body]
fn read_value(bytes: &[u8]) -> (r: Result<serde_json::Value, String>)
    ensures
        match r {
            Ok(value) => json_parse(bytes@) == Ok::<JsonTree, Seq<char>>(value_tree(value)),
            Err(text) => json_parse(bytes@) == Err::<JsonTree, Seq<char>>(text@),
        },
{
    serde_json::from_slice(bytes).map_err(|e| e.to_string())
}

/// The compact text that `serde_json` writes for a value.
pub uninterp spec fn json_text(tree: JsonTree) -> Seq<char>;

/// The depth of nested arrays and objects that `serde_json` reads.
pub const READ_DEPTH: u64 = 127;

/// Whether a tree nests arrays and objects no deeper than `depth` and holds no number but
/// integers.
pub open spec fn within(tree: JsonTree, depth: nat) -> bool
    decreases depth,
{
    match tree {
        JsonTree::Float(_) => false,
        JsonTree::Array(items) => depth > 0 && forall|i: int|
            0 <= i < items.len() ==> within(#[trigger] items[i], (depth - 1) as nat),
        JsonTree::Object(fields) => depth > 0 && forall|name: Seq<char>| #[trigger]
            fields.contains_key(name) ==> within(fields[name], (depth - 1) as nat),
        _ => true,
    }
}

/// Writes a value with `serde_json::to_string`, which never fails on a `serde_json::Value`.
/// It writes without white space between the parts of a value and escapes control characters, so
/// that the text holds no line feed and does not begin with white space. What it writes of a tree
/// that the reader's depth covers and that holds no number but integers, `serde_json::from_slice`
/// reads back as that tree.
#[verifier::external_body]
fn write_value(value: &serde_json::Value) -> (r: Result<String, String>)
    ensures
        match r {
            Ok(text) => {
                &&& text@ == json_text(value_tree(*value))
                &&& !text@.contains('\n')
                &&& text@.len() > 0 && !is_white(text@[0])
                &&& within(value_tree(*value), READ_DEPTH as nat) ==> json_parse(
                    encode_utf8(text@),
                ) == Ok::<JsonTree, Seq<char>>(value_tree(*value))
            },
            Err(_) => false,
        },
{
    serde_json::to_string(value).map_err(|e| e.to_string())
}

fn from_value(value: serde_json::Value) -> (r: Json)
    ensures
        r@ == value_tree(value),
    decreases value_tree(value),
{
    let ghost tree = value_tree(value);
    match split_value(value) {
        Node::Null => Json::Null,
        Node::Bool(b) => Json::Bool(b),
        Node::Number(Some(n), _, _) => Json::Unsigned(n),
        Node::Number(None, Some(n), _) => Json::Negative(n),
        Node::Number(None, None, number) => Json::Float(JsonFloat { number }),
        Node::Str(s) => Json::Str(s),
        Node::Array(items) => {
            let mut out: Vec<Json> = Vec::new();
            let ghost all = items@;
            for item in it: items
                invariant
                    it.seq() == all,
                    tree == value_tree(value),
                    tree == JsonTree::Array(value_trees(all)),
                    out@.len() == it.index(),
                    forall|j: int| 0 <= j < out@.len() ==> #[trigger] out@[j]@ == value_tree(all[j]),
            {
                proof {
                    let below = value_trees(all);
                    assert(below[it.index()] == value_tree(item));
                    assert(decreases_to!(tree => tree->Array_0));
                }
                out.push(from_value(item));
            }
            proof {
                lemma_trees(out@);
                assert(trees(out@) =~= value_trees(all));
            }
            Json::Array(out)
        },
        Node::Object(fields) => {
            let mut out = JsonObject::new();
            let ghost all = fields@;
            let ghost pairs = value_fields(all);
            proof {
                lemma_map_of_domain(pairs);
            }
            for field in it: fields
                invariant
                    it.seq() == all,
                    pairs == value_fields(all),
                    names_differ(pairs),
                    map_of(pairs).dom().finite(),
                    tree == value_tree(value),
                    tree == JsonTree::Object(map_of(pairs)),
                    out@ == map_of(pairs.take(it.index())),
            {
                let ghost k = it.index();
                proof {
                    assert(pairs.take(k + 1).drop_last() =~= pairs.take(k));
                    lemma_map_of_value(pairs, k);
                    assert(decreases_to!(tree => tree->Object_0));
                    assert(decreases_to!(map_of(pairs) => map_of(pairs)[pairs[k].0]));
                }
                let (name, inner) = field;
                out.insert(name, from_value(inner));
            }
            proof {
                assert(pairs.take(pairs.len() as int) =~= pairs);
            }
            Json::Object(out)
        },
    }
}

fn to_value(json: &Json) -> (r: serde_json::Value)
    ensures
        value_tree(r) == json@,
    decreases json,
{
    match json {
        Json::Null => join_value(Node::Null),
        Json::Bool(b) => join_value(Node::Bool(*b)),
        Json::Unsigned(n) => unsigned_value(*n),
        Json::Negative(n) => signed_value(*n),
        Json::Float(float) => {
            proof {
                use_type_invariant(float);
            }
            float_value(float)
        },
        Json::Str(s) => join_value(Node::Str(s.clone())),
        Json::Array(items) => {
            let mut out: Vec<serde_json::Value> = Vec::new();
            let mut i: usize = 0;
            while i < items.len()
                invariant
                    i <= items@.len(),
                    json matches Json::Array(all) && all == items,
                    out@.len() == i,
                    forall|j: int| 0 <= j < i ==> value_tree(#[trigger] out@[j]) == items@[j]@,
                decreases items.len() - i,
            {
                out.push(to_value(&items[i]));
                i += 1;
            }
            proof {
                lemma_trees(items@);
                assert(value_trees(out@) =~= trees(items@));
            }
            join_value(Node::Array(out))
        },
        Json::Object(object) => {
            let mut out: Vec<(String, serde_json::Value)> = Vec::new();
            let mut i: usize = 0;
            while i < object.entries.len()
                invariant
                    i <= object.entries@.len(),
                    json matches Json::Object(all) && all == object,
                    out@.len() == i,
                    forall|j: int|
                        0 <= j < i ==> (#[trigger] out@[j]).0@ == object.entries@[j].0@
                            && value_tree(out@[j].1) == object.entries@[j].1@,
                decreases object.entries.len() - i,
            {
                let name = object.entries[i].0.clone();
                out.push((name, to_value(&object.entries[i].1)));
                i += 1;
            }
            proof {
                lemma_field_trees(object.entries@);
                assert(value_fields(out@) =~= field_trees(object.entries@));
            }
            join_value(Node::Object(out))
        },
    }
}

impl Json {
    /// Reads a JSON text.
    pub fn parse(bytes: &[u8]) -> (r: Result<Json, Error>)
        ensures
            match r {
                Ok(json) => json_parse(bytes@) == Ok::<JsonTree, Seq<char>>(json@),
                Err(e) => json_parse(bytes@) == Err::<JsonTree, Seq<char>>(e@),
            },
    {
        match read_value(bytes) {
            Ok(value) => Ok(from_value(value)),
            Err(text) => Err(Error::new(text)),
        }
    }

    /// The compact JSON text of this value: one line. The text of a value without fractions that
    /// nests no deeper than the reader goes is read back as that value.
    pub fn text(&self) -> (r: String)
        ensures
            r@ == json_text(self@),
            reads_back(self@, r@),
            is_line(self@),
    {
        let value = to_value(self);
        match write_value(&value) {
            Ok(text) => text,
            Err(text) => text,
        }
    }
}

/// Whether the reader makes of a text the tree that it was written for, where the tree is one
/// that the reader gives back.
pub open spec fn reads_back(tree: JsonTree, text: Seq<char>) -> bool {
    within(tree, READ_DEPTH as nat) ==> json_parse(encode_utf8(text)) == Ok::<
        JsonTree,
        Seq<char>,
    >(tree)
}

/// Whether a tree is what is read from the text that is written for it.
pub open spec fn survives(tree: JsonTree) -> bool {
    json_parse(encode_utf8(json_text(tree))) == Ok::<JsonTree, Seq<char>>(tree)
}

/// A value without fractions that nests no deeper than JSON is read is read back from its text.
pub proof fn law_values_without_fractions_survive(tree: JsonTree)
    requires
        is_line(tree),
        within(tree, READ_DEPTH as nat),
    ensures
        survives(tree),
{
}

/// Whether the text of a tree is a line that is not blank and tells the tree: it holds no line
/// feed, does not begin with white space, and is read back as the tree.
pub open spec fn is_line(tree: JsonTree) -> bool {
    let text = json_text(tree);
    &&& !text.contains('\n')
    &&& text.len() > 0 && !is_white(text[0])
    &&& reads_back(tree, text)
}

/// The tree of a value is the value: an integer of either kind is that integer, a text its
/// characters, a list the trees of its items in order, and an object the trees of its fields under
/// their names.
pub proof fn law_trees_are_the_values(n: u64, m: i64, b: bool, s: String, items: Vec<Json>, i: int)
    requires
        0 <= i < items@.len(),
    ensures
        Json::Null@ == JsonTree::Null,
        Json::Bool(b)@ == JsonTree::Bool(b),
        Json::Unsigned(n)@ == JsonTree::Int(n as int),
        Json::Negative(m)@ == JsonTree::Int(m as int),
        Json::Str(s)@ == JsonTree::Str(s@),
        Json::Array(items)@ == JsonTree::Array(trees(items@)),
        trees(items@).len() == items@.len(),
        trees(items@)[i] == items@[i]@,
{
    lemma_trees(items@);
}

/// A list of fields is a map in which the last field of a name counts.
pub proof fn law_last_field_counts(
    pairs: Seq<(Seq<char>, JsonTree)>,
    name: Seq<char>,
    tree: JsonTree,
)
    ensures
        map_of(Seq::<(Seq<char>, JsonTree)>::empty()) == Map::<Seq<char>, JsonTree>::empty(),
        map_of(pairs.push((name, tree))) == map_of(pairs).insert(name, tree),
{
    assert(pairs.push((name, tree)).drop_last() =~= pairs);
}

} // verus!
