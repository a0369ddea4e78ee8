//! Reading and writing documents: YAML text on one side, configuration trees on the
//! other. The text itself is read and written by `serde_yaml`.

use crate::errors::SkeletorError;
use crate::value::{ConfigTree, ConfigValue};
use vstd::prelude::*;
use vstd::string::*;

verus! {

#[verifier::external_type_specification]
#[verifier::external_body]
pub struct ExYamlValue(serde_yaml::Value);

/// What a YAML value holds, as a configuration tree. A tagged value is known as
/// tagged only, a number that is no integer by its notation.
pub uninterp spec fn yaml_tree(value: serde_yaml::Value) -> ConfigTree;

/// The value that a YAML text stands for, or the message with which the parser
/// refuses the text.
pub uninterp spec fn yaml_document(text: Seq<char>) -> Result<ConfigTree, Seq<char>>;

/// The YAML text that `serde_yaml` writes for a writable value, or the message with
/// which the serializer refuses it.
pub uninterp spec fn yaml_rendering(tree: ConfigTree) -> Result<Seq<char>, Seq<char>>;

/// `serde_yaml::from_str` at the type `serde_yaml::Value`: the value of the document,
/// or the `Display` text of the parser's error.
#[verifier::external_body]
fn yaml_from_str(text: &str) -> (r: Result<serde_yaml::Value, String>)
    ensures
        match r {
            Ok(value) => yaml_document(text@) == Ok::<ConfigTree, Seq<char>>(yaml_tree(value)),
            Err(message) => yaml_document(text@) == Err::<ConfigTree, Seq<char>>(message@),
        },
{
    serde_yaml::from_str::<serde_yaml::Value>(text).map_err(|e| e.to_string())
}

/// What a YAML value is at its top: the scalar that it holds, or the values that it
/// is made of.
enum YamlShape<'a> {
    Null,
    Bool(bool),
    Unsigned(u64),
    Signed(i64),
    Real(String),
    Text(String),
    Sequence(Vec<&'a serde_yaml::Value>),
    Mapping(Vec<(&'a serde_yaml::Value, &'a serde_yaml::Value)>),
    Tagged,
}

impl<'a> YamlShape<'a> {
    /// The tree of a value of this shape.
    spec fn tree(self) -> ConfigTree {
        match self {
            YamlShape::Null => ConfigTree::Null,
            YamlShape::Bool(b) => ConfigTree::Bool(b),
            YamlShape::Unsigned(n) => ConfigTree::Unsigned(n),
            YamlShape::Signed(n) => ConfigTree::Signed(n),
            YamlShape::Real(text) => ConfigTree::Real(text@),
            YamlShape::Text(text) => ConfigTree::Text(text@),
            YamlShape::Sequence(items) => ConfigTree::Sequence(
                Seq::new(items@.len(), |i: int| yaml_tree(*items@[i])),
            ),
            YamlShape::Mapping(entries) => ConfigTree::Mapping(
                Seq::new(
                    entries@.len(),
                    |i: int| (yaml_tree(*entries@[i].0), yaml_tree(*entries@[i].1)),
                ),
            ),
            YamlShape::Tagged => ConfigTree::Tagged,
        }
    }
}

/// Tells the variants of a `serde_yaml::Value` apart and hands out what the value
/// holds: the items of a sequence and the entries of a mapping in their order. An
/// integer is taken by `Number::as_u64` where that gives one, else by
/// `Number::as_i64`; any other number by its `Display` text. Of a tagged value only
/// the fact that it is tagged is kept.
#[verifier::external_body]
fn yaml_shape<'a>(value: &'a serde_yaml::Value) -> (shape: YamlShape<'a>)
    ensures
        shape.tree() == yaml_tree(*value),
{
    match value {
        serde_yaml::Value::Null => YamlShape::Null,
        serde_yaml::Value::Bool(b) => YamlShape::Bool(*b),
        serde_yaml::Value::Number(n) => n.as_u64().map(YamlShape::Unsigned).or_else(
            || n.as_i64().map(YamlShape::Signed),
        ).unwrap_or_else(|| YamlShape::Real(n.to_string())),
        serde_yaml::Value::String(s) => YamlShape::Text(s.clone()),
        serde_yaml::Value::Sequence(items) => YamlShape::Sequence(items.iter().collect()),
        serde_yaml::Value::Mapping(entries) => YamlShape::Mapping(entries.iter().collect()),
        serde_yaml::Value::Tagged(_) => YamlShape::Tagged,
    }
}

/// The configuration tree that a YAML value holds.
fn config_value_of(value: &serde_yaml::Value) -> (tree: ConfigValue)
    ensures
        tree@ == yaml_tree(*value),
    decreases yaml_tree(*value),
{
    let shape = yaml_shape(value);
    match shape {
        YamlShape::Null => ConfigValue::Null,
        YamlShape::Bool(b) => ConfigValue::Bool(b),
        YamlShape::Unsigned(n) => ConfigValue::Unsigned(n),
        YamlShape::Signed(n) => ConfigValue::Signed(n),
        YamlShape::Real(text) => ConfigValue::Real(text),
        YamlShape::Text(text) => ConfigValue::Text(text),
        YamlShape::Tagged => ConfigValue::Tagged,
        YamlShape::Sequence(items) => {
            let ghost wanted = yaml_tree(*value)->Sequence_0;
            let mut out: Vec<ConfigValue> = Vec::new();
            let n: usize = items.len();
            let mut i: usize = 0;
            while i < n
                invariant
                    n == items@.len(),
                    i <= n,
                    yaml_tree(*value) == ConfigTree::Sequence(wanted),
                    wanted == Seq::new(items@.len(), |k: int| yaml_tree(*items@[k])),
                    out@.len() == i,
                    forall|k: int| 0 <= k < i ==> (#[trigger] out@[k])@ == wanted[k],
                decreases n - i,
            {
                proof {
                    assert(wanted[i as int] == yaml_tree(*items@[i as int]));
                    assert(decreases_to!(yaml_tree(*value) => yaml_tree(*value)->Sequence_0));
                    assert(decreases_to!(wanted => wanted[i as int]));
                }
                let item = config_value_of(items[i]);
                out.push(item);
                i += 1;
            }
            proof {
                crate::value::lemma_sequence_view(out);
                assert(crate::value::item_views(out@) =~= wanted);
            }
            ConfigValue::Sequence(out)
        },
        YamlShape::Mapping(entries) => {
            let ghost wanted = yaml_tree(*value)->Mapping_0;
            let mut out: Vec<(ConfigValue, ConfigValue)> = Vec::new();
            let n: usize = entries.len();
            let mut i: usize = 0;
            while i < n
                invariant
                    n == entries@.len(),
                    i <= n,
                    yaml_tree(*value) == ConfigTree::Mapping(wanted),
                    wanted == Seq::new(
                        entries@.len(),
                        |k: int| (yaml_tree(*entries@[k].0), yaml_tree(*entries@[k].1)),
                    ),
                    out@.len() == i,
                    forall|k: int|
                        0 <= k < i ==> (#[trigger] out@[k]).0@ == wanted[k].0 && out@[k].1@
                            == wanted[k].1,
                decreases n - i,
            {
                proof {
                    assert(wanted[i as int] == (
                        yaml_tree(*entries@[i as int].0),
                        yaml_tree(*entries@[i as int].1),
                    ));
                    assert(decreases_to!(yaml_tree(*value) => yaml_tree(*value)->Mapping_0));
                    assert(decreases_to!(wanted => wanted[i as int]));
                    assert(decreases_to!(wanted[i as int] => wanted[i as int].0));
                    assert(decreases_to!(wanted[i as int] => wanted[i as int].1));
                }
                let key = config_value_of(entries[i].0);
                let held = config_value_of(entries[i].1);
                out.push((key, held));
                i += 1;
            }
            proof {
                crate::value::lemma_mapping_view(out);
                assert(crate::value::entry_views(out@) =~= wanted);
            }
            ConfigValue::Mapping(out)
        },
    }
}

/// The `serde_yaml::Value` of a scalar: `Value::Null`, `Value::Bool`, `Value::String`,
/// or `Value::Number` by `Number::from`, which makes a signed number that is not
/// negative an unsigned one.
#[verifier::external_body]
fn yaml_scalar(tree: &ConfigValue) -> (value: serde_yaml::Value)
    requires
        tree@.is_writable(),
        !(tree@ is Sequence),
        !(tree@ is Mapping),
    ensures
        yaml_tree(value) == tree@,
{
    match tree {
        ConfigValue::Bool(b) => serde_yaml::Value::Bool(*b),
        ConfigValue::Unsigned(n) => serde_yaml::Value::Number((*n).into()),
        ConfigValue::Signed(n) => serde_yaml::Value::Number((*n).into()),
        ConfigValue::Text(s) => serde_yaml::Value::String(s.clone()),
        _ => serde_yaml::Value::Null,
    }
}

/// `serde_yaml::Value::Sequence` of the given values, in their order.
#[verifier::external_body]
fn yaml_sequence(items: Vec<serde_yaml::Value>) -> (value: serde_yaml::Value)
    ensures
        yaml_tree(value) == ConfigTree::Sequence(
            Seq::new(items@.len(), |i: int| yaml_tree(items@[i])),
        ),
{
    serde_yaml::Value::Sequence(items)
}

/// `serde_yaml::Value::Mapping` of entries whose keys are texts that differ,
/// collected in their order: the mapping keeps the order of insertion, and an entry
/// replaces another only where their keys are equal, which texts that differ are not.
#[verifier::external_body]
fn yaml_mapping(entries: Vec<(serde_yaml::Value, serde_yaml::Value)>) -> (value: serde_yaml::Value)
    requires
        forall|i: int| 0 <= i < entries@.len() ==> yaml_tree(#[trigger] entries@[i].0) is Text,
        forall|i: int, j: int|
            0 <= i < j < entries@.len() ==> yaml_tree(#[trigger] entries@[i].0) != yaml_tree(
                #[trigger] entries@[j].0,
            ),
    ensures
        yaml_tree(value) == ConfigTree::Mapping(
            Seq::new(
                entries@.len(),
                |i: int| (yaml_tree(entries@[i].0), yaml_tree(entries@[i].1)),
            ),
        ),
{
    serde_yaml::Value::Mapping(entries.into_iter().collect())
}

/// The `serde_yaml::Value` that holds a writable tree.
fn yaml_value_of(tree: &ConfigValue) -> (value: serde_yaml::Value)
    requires
        tree@.is_writable(),
    ensures
        yaml_tree(value) == tree@,
    decreases tree,
{
    match tree {
        ConfigValue::Sequence(items) => {
            proof {
                crate::value::lemma_sequence_view(*items);
            }
            let ghost wanted = crate::value::item_views(items@);
            let mut out: Vec<serde_yaml::Value> = Vec::new();
            let n: usize = items.len();
            let mut i: usize = 0;
            while i < n
                invariant
                    n == items@.len(),
                    i <= n,
                    *tree == ConfigValue::Sequence(*items),
                    tree@ == ConfigTree::Sequence(wanted),
                    tree@.is_writable(),
                    wanted == crate::value::item_views(items@),
                    out@.len() == i,
                    forall|k: int| 0 <= k < i ==> yaml_tree(#[trigger] out@[k]) == wanted[k],
                decreases n - i,
            {
                proof {
                    vstd::std_specs::vec::axiom_vec_index_decreases(*items, i as int);
                    assert(tree is Sequence);
                    assert(tree->Sequence_0 == *items);
                    assert(decreases_to!(*tree => tree->Sequence_0));
                    assert(decreases_to!(*items => items[i as int]));
                    assert(tree@->Sequence_0[i as int] == wanted[i as int]);
                    assert(wanted[i as int].is_writable());
                }
                let item = yaml_value_of(&items[i]);
                out.push(item);
                i += 1;
            }
            assert(Seq::new(out@.len(), |k: int| yaml_tree(out@[k])) =~= wanted);
            yaml_sequence(out)
        },
        ConfigValue::Mapping(entries) => {
            proof {
                crate::value::lemma_mapping_view(*entries);
            }
            let ghost wanted = crate::value::entry_views(entries@);
            let mut out: Vec<(serde_yaml::Value, serde_yaml::Value)> = Vec::new();
            let n: usize = entries.len();
            let mut i: usize = 0;
            while i < n
                invariant
                    n == entries@.len(),
                    i <= n,
                    *tree == ConfigValue::Mapping(*entries),
                    tree@ == ConfigTree::Mapping(wanted),
                    tree@.is_writable(),
                    wanted == crate::value::entry_views(entries@),
                    out@.len() == i,
                    forall|k: int|
                        0 <= k < i ==> yaml_tree((#[trigger] out@[k]).0) == wanted[k].0
                            && yaml_tree(out@[k].1) == wanted[k].1,
                decreases n - i,
            {
                proof {
                    vstd::std_specs::vec::axiom_vec_index_decreases(*entries, i as int);
                    assert(tree is Mapping);
                    assert(tree->Mapping_0 == *entries);
                    assert(decreases_to!(*tree => tree->Mapping_0));
                    assert(decreases_to!(*entries => entries[i as int]));
                    assert(tree@->Mapping_0[i as int] == wanted[i as int]);
                    assert(wanted[i as int].0 is Text && wanted[i as int].1.is_writable());
                }
                let key = yaml_value_of(&entries[i].0);
                let held = yaml_value_of(&entries[i].1);
                out.push((key, held));
                i += 1;
            }
            proof {
                assert forall|i: int| 0 <= i < out@.len() implies yaml_tree(
                    #[trigger] out@[i].0,
                ) is Text by {
                    assert(tree@->Mapping_0[i] == wanted[i]);
                    assert(wanted[i].0 is Text);
                }
                assert forall|i: int, j: int| 0 <= i < j < out@.len() implies yaml_tree(
                    #[trigger] out@[i].0,
                ) != yaml_tree(#[trigger] out@[j].0) by {
                    assert(wanted[i].0 != wanted[j].0);
                }
                assert(Seq::new(
                    out@.len(),
                    |k: int| (yaml_tree(out@[k].0), yaml_tree(out@[k].1)),
                ) =~= wanted);
            }
            yaml_mapping(out)
        },
        _ => yaml_scalar(tree),
    }
}

/// `serde_yaml::to_string` on a `serde_yaml::Value` that holds a writable tree: the
/// YAML text, or the `Display` text of the serializer's error.
#[verifier::external_body]
fn yaml_to_string(value: &serde_yaml::Value) -> (r: Result<String, String>)
    requires
        yaml_tree(*value).is_writable(),
    ensures
        match r {
            Ok(text) => yaml_rendering(yaml_tree(*value)) == Ok::<Seq<char>, Seq<char>>(text@),
            Err(message) => yaml_rendering(yaml_tree(*value)) == Err::<Seq<char>, Seq<char>>(
                message@,
            ),
        },
{
    serde_yaml::to_string(value).map_err(|e| e.to_string())
}

/// Parse YAML string with consistent error handling: the tree of the document, or
/// `InvalidYaml` with the parser's message.
pub fn parse_yaml_string(yaml_str: &str) -> (r: Result<ConfigValue, SkeletorError>)
    ensures
        match yaml_document(yaml_str@) {
            Ok(tree) => r is Ok && r.unwrap()@ == tree,
            Err(refusal) => r matches Err(SkeletorError::InvalidYaml { message }) && message@
                == refusal,
        },
{
    match yaml_from_str(yaml_str) {
        Ok(value) => Ok(config_value_of(&value)),
        Err(message) => Err(SkeletorError::InvalidYaml { message }),
    }
}

/// What a tree that is not writable is refused with.
pub open spec fn not_writable() -> Seq<char> {
    "the value cannot be written as a document"@
}

/// Writes a tree as YAML text. A tree that is not writable is refused, and so is one
/// that the serializer refuses: both with `Config` and the reason.
pub fn to_yaml_string(tree: &ConfigValue) -> (r: Result<String, SkeletorError>)
    ensures
        match r {
            Ok(text) => tree@.is_writable() && yaml_rendering(tree@) == Ok::<
                Seq<char>,
                Seq<char>,
            >(text@),
            Err(error) => error matches SkeletorError::Config(reason) && if tree@.is_writable() {
                yaml_rendering(tree@) == Err::<Seq<char>, Seq<char>>(reason@)
            } else {
                reason@ == not_writable()
            },
        },
{
    if !tree.is_writable() {
        return Err(
            SkeletorError::Config(String::from_str("the value cannot be written as a document")),
        );
    }
    let value = yaml_value_of(tree);
    match yaml_to_string(&value) {
        Ok(text) => Ok(text),
        Err(reason) => Err(SkeletorError::Config(reason)),
    }
}

} // verus!
