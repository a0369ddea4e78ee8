//! The configuration tree: a nested value of mappings, sequences and scalars.
//!
//! A mapping keeps its entries in the order in which they were declared. An entry
//! whose key is a text names a file or a directory; the text under it is a file's
//! content, a mapping under it a directory.

use crate::text::same_text;
use vstd::prelude::*;
use vstd::string::*;

verus! {

/// The mathematical value of a configuration tree.
pub enum ConfigTree {
    Null,
    Bool(bool),
    Unsigned(u64),
    Signed(i64),
    /// A number that is no integer, in the notation of the document.
    Real(Seq<char>),
    Text(Seq<char>),
    Sequence(Seq<ConfigTree>),
    Mapping(Seq<(ConfigTree, ConfigTree)>),
    /// A value under a tag. Neither the tag nor the value is looked at.
    Tagged,
}

/// The value under the first entry of `entries` whose key is the text `key`.
pub open spec fn lookup(entries: Seq<(ConfigTree, ConfigTree)>, key: Seq<char>) -> Option<
    ConfigTree,
>
    decreases entries.len(),
{
    if entries.len() == 0 {
        None
    } else {
        match lookup(entries.drop_last(), key) {
            Some(found) => Some(found),
            None => if entries.last().0 == ConfigTree::Text(key) {
                Some(entries.last().1)
            } else {
                None
            },
        }
    }
}

impl ConfigTree {
    /// The entries of a mapping; any other value has none.
    pub open spec fn entries(self) -> Seq<(ConfigTree, ConfigTree)> {
        match self {
            ConfigTree::Mapping(entries) => entries,
            _ => Seq::empty(),
        }
    }

    /// The value that a mapping holds under the text `key`.
    pub open spec fn get(self, key: Seq<char>) -> Option<ConfigTree> {
        lookup(self.entries(), key)
    }

    pub open spec fn as_text(self) -> Option<Seq<char>> {
        match self {
            ConfigTree::Text(text) => Some(text),
            _ => None,
        }
    }

    pub open spec fn as_unsigned(self) -> Option<u64> {
        match self {
            ConfigTree::Unsigned(n) => Some(n),
            _ => None,
        }
    }

    pub open spec fn as_items(self) -> Option<Seq<ConfigTree>> {
        match self {
            ConfigTree::Sequence(items) => Some(items),
            _ => None,
        }
    }

    /// Whether the value is one that a document is written from: it holds no tagged
    /// value and no number that is no integer, a signed number in it is negative, and
    /// the keys of each mapping in it are texts, no two of them the same.
    pub open spec fn is_writable(self) -> bool
        decreases self,
    {
        match self {
            ConfigTree::Real(_) => false,
            ConfigTree::Tagged => false,
            ConfigTree::Signed(n) => n < 0,
            ConfigTree::Sequence(items) => forall|i: int|
                0 <= i < items.len() ==> (#[trigger] items[i]).is_writable(),
            ConfigTree::Mapping(entries) => {
                &&& forall|i: int|
                    0 <= i < entries.len() ==> (#[trigger] entries[i]).0 is Text
                        && entries[i].1.is_writable()
                &&& forall|i: int, j: int|
                    0 <= i < j < entries.len() ==> (#[trigger] entries[i]).0 != (
                    #[trigger] entries[j]).0
            },
            _ => true,
        }
    }
}

/// A configuration tree.
#[derive(Debug, PartialEq)]
pub enum ConfigValue {
    Null,
    Bool(bool),
    Unsigned(u64),
    Signed(i64),
    /// A number that is no integer, in the notation of the document.
    Real(String),
    Text(String),
    Sequence(Vec<ConfigValue>),
    Mapping(Vec<(ConfigValue, ConfigValue)>),
    /// A value under a tag. Neither the tag nor the value is looked at.
    Tagged,
}

impl ConfigValue {
    /// The mathematical value of this tree.
    pub open spec fn tree(&self) -> ConfigTree
        decreases self,
    {
        match self {
            ConfigValue::Null => ConfigTree::Null,
            ConfigValue::Bool(b) => ConfigTree::Bool(*b),
            ConfigValue::Unsigned(n) => ConfigTree::Unsigned(*n),
            ConfigValue::Signed(n) => ConfigTree::Signed(*n),
            ConfigValue::Real(text) => ConfigTree::Real(text@),
            ConfigValue::Text(text) => ConfigTree::Text(text@),
            ConfigValue::Tagged => ConfigTree::Tagged,
            ConfigValue::Sequence(items) => ConfigTree::Sequence(
                Seq::new(
                    items@.len(),
                    |i: int|
                        if 0 <= i < items@.len() {
                            items@[i].tree()
                        } else {
                            ConfigTree::Null
                        },
                ),
            ),
            ConfigValue::Mapping(entries) => ConfigTree::Mapping(
                Seq::new(
                    entries@.len(),
                    |i: int|
                        if 0 <= i < entries@.len() {
                            (entries@[i].0.tree(), entries@[i].1.tree())
                        } else {
                            (ConfigTree::Null, ConfigTree::Null)
                        },
                ),
            ),
        }
    }
}

impl View for ConfigValue {
    type V = ConfigTree;

    open spec fn view(&self) -> ConfigTree {
        self.tree()
    }
}

/// The values of the entries of a mapping, as its view holds them.
pub open spec fn entry_views(entries: Seq<(ConfigValue, ConfigValue)>) -> Seq<
    (ConfigTree, ConfigTree),
> {
    Seq::new(entries.len(), |i: int| (entries[i].0@, entries[i].1@))
}

/// The values of the items of a sequence, as its view holds them.
pub open spec fn item_views(items: Seq<ConfigValue>) -> Seq<ConfigTree> {
    Seq::new(items.len(), |i: int| items[i]@)
}

/// The value of a mapping holds the values of its entries, in order.
pub proof fn lemma_mapping_view(entries: Vec<(ConfigValue, ConfigValue)>)
    ensures
        ConfigValue::Mapping(entries)@ == ConfigTree::Mapping(entry_views(entries@)),
{
    reveal_with_fuel(ConfigValue::tree, 2);
    assert(ConfigValue::Mapping(entries)@.entries() =~= entry_views(entries@));
}

/// The value of a sequence holds the values of its items, in order.
pub proof fn lemma_sequence_view(items: Vec<ConfigValue>)
    ensures
        ConfigValue::Sequence(items)@ == ConfigTree::Sequence(item_views(items@)),
{
    reveal_with_fuel(ConfigValue::tree, 2);
    assert(ConfigValue::Sequence(items)@.as_items().unwrap() =~= item_views(items@));
}

impl ConfigValue {
    /// The text value with the characters of `text`.
    pub fn text(text: &str) -> (value: ConfigValue)
        ensures
            value@ == ConfigTree::Text(text@),
    {
        ConfigValue::Text(String::from_str(text))
    }

    pub fn is_null(&self) -> (b: bool)
        ensures
            b == (self@ == ConfigTree::Null),
    {
        match self {
            ConfigValue::Null => true,
            _ => false,
        }
    }

    pub fn is_mapping(&self) -> (b: bool)
        ensures
            b == (self@ is Mapping),
    {
        match self {
            ConfigValue::Mapping(_) => true,
            _ => false,
        }
    }

    pub fn as_str(&self) -> (text: Option<&str>)
        ensures
            match self@.as_text() {
                Some(t) => text is Some && text.unwrap()@ == t,
                None => text is None,
            },
    {
        match self {
            ConfigValue::Text(text) => Some(text.as_str()),
            _ => None,
        }
    }

    pub fn as_u64(&self) -> (n: Option<u64>)
        ensures
            n == self@.as_unsigned(),
    {
        match self {
            ConfigValue::Unsigned(n) => Some(*n),
            _ => None,
        }
    }

    pub fn as_sequence(&self) -> (items: Option<&Vec<ConfigValue>>)
        ensures
            match self@.as_items() {
                Some(s) => items is Some && item_views(items.unwrap()@) == s,
                None => items is None,
            },
    {
        match self {
            ConfigValue::Sequence(items) => {
                proof {
                    lemma_sequence_view(*items);
                }
                Some(items)
            },
            _ => None,
        }
    }

    pub fn as_mapping(&self) -> (entries: Option<&Vec<(ConfigValue, ConfigValue)>>)
        ensures
            match self@ {
                ConfigTree::Mapping(e) => entries is Some && entry_views(entries.unwrap()@) == e,
                _ => entries is None,
            },
    {
        match self {
            ConfigValue::Mapping(entries) => {
                proof {
                    lemma_mapping_view(*entries);
                }
                Some(entries)
            },
            _ => None,
        }
    }

    /// The value that a mapping holds under the text `key`.
    pub fn get(&self, key: &str) -> (found: Option<&ConfigValue>)
        ensures
            match self@.get(key@) {
                Some(t) => found is Some && found.unwrap()@ == t,
                None => found is None,
            },
    {
        match self {
            ConfigValue::Mapping(entries) => {
                proof {
                    lemma_mapping_view(*entries);
                }
                let ghost all = entry_views(entries@);
                let n: usize = entries.len();
                let mut i: usize = 0;
                while i < n
                    invariant
                        n == entries.len(),
                        i <= n,
                        all == entry_views(entries@),
                        self@ == ConfigTree::Mapping(all),
                        lookup(all.take(i as int), key@) is None,
                    decreases n - i,
                {
                    proof {
                        assert(all.take(i + 1).drop_last() == all.take(i as int));
                        assert(all.take(i + 1).last() == all[i as int]);
                    }
                    let hit = match &entries[i].0 {
                        ConfigValue::Text(name) => same_text(name.as_str(), key),
                        _ => false,
                    };
                    if hit {
                        proof {
                            assert(all[i as int].0 == ConfigTree::Text(key@));
                            assert(lookup(all.take(i + 1), key@) == Some(all[i as int].1));
                            lemma_lookup_extends(all, i + 1, key@);
                            assert(self@.entries() == all);
                        }
                        return Some(&entries[i].1);
                    }
                    i += 1;
                }
                assert(all.take(n as int) == all);
                None
            },
            _ => None,
        }
    }

    /// Whether a document can be written from this value.
    pub fn is_writable(&self) -> (b: bool)
        ensures
            b == self@.is_writable(),
        decreases self,
    {
        match self {
            ConfigValue::Real(_) => false,
            ConfigValue::Tagged => false,
            ConfigValue::Signed(n) => *n < 0,
            ConfigValue::Sequence(items) => {
                proof {
                    lemma_sequence_view(*items);
                }
                let ghost all = item_views(items@);
                let n: usize = items.len();
                let mut i: usize = 0;
                while i < n
                    invariant
                        n == items.len(),
                        *self == ConfigValue::Sequence(*items),
                        self@ == ConfigTree::Sequence(all),
                        all == item_views(items@),
                        i <= n,
                        forall|k: int| 0 <= k < i ==> (#[trigger] all[k]).is_writable(),
                    decreases n - i,
                {
                    proof {
                        vstd::std_specs::vec::axiom_vec_index_decreases(*items, i as int);
                        assert(self is Sequence);
                        assert(self->Sequence_0 == *items);
                        assert(decreases_to!(*self => self->Sequence_0));
                        assert(decreases_to!(*items => items[i as int]));
                    }
                    if !items[i].is_writable() {
                        assert(self@->Sequence_0[i as int] == items@[i as int]@);
                        return false;
                    }
                    i += 1;
                }
                true
            },
            ConfigValue::Mapping(entries) => {
                proof {
                    lemma_mapping_view(*entries);
                }
                let ghost all = entry_views(entries@);
                let n: usize = entries.len();
                let mut i: usize = 0;
                while i < n
                    invariant
                        n == entries.len(),
                        *self == ConfigValue::Mapping(*entries),
                        self@ == ConfigTree::Mapping(all),
                        all == entry_views(entries@),
                        i <= n,
                        forall|k: int|
                            0 <= k < i ==> (#[trigger] all[k]).0 is Text && all[k].1.is_writable(),
                        forall|k: int, j: int|
                            0 <= k < j < i ==> (#[trigger] all[k]).0 != (#[trigger] all[j]).0,
                    decreases n - i,
                {
                    proof {
                        vstd::std_specs::vec::axiom_vec_index_decreases(*entries, i as int);
                        assert(self is Mapping);
                        assert(self->Mapping_0 == *entries);
                        assert(decreases_to!(*self => self->Mapping_0));
                        assert(decreases_to!(*entries => entries[i as int]));
                    }
                    let name = match &entries[i].0 {
                        ConfigValue::Text(name) => name,
                        _ => {
                            assert(!(all[i as int].0 is Text));
                            return false;
                        },
                    };
                    if !entries[i].1.is_writable() {
                        assert(!all[i as int].1.is_writable());
                        return false;
                    }
                    let mut j: usize = 0;
                    while j < i
                        invariant
                            n == entries.len(),
                            all == entry_views(entries@),
                            self@ == ConfigTree::Mapping(all),
                            j <= i < n,
                            all[i as int].0 == ConfigTree::Text(name@),
                            forall|k: int| 0 <= k < j ==> (#[trigger] all[k]).0 != all[i as int].0,
                        decreases i - j,
                    {
                        let twice = match &entries[j].0 {
                            ConfigValue::Text(other) => same_text(other.as_str(), name.as_str()),
                            _ => false,
                        };
                        if twice {
                            assert(all[j as int].0 == all[i as int].0);
                            return false;
                        }
                        j += 1;
                    }
                    i += 1;
                }
                true
            },
            _ => true,
        }
    }

    pub fn contains_key(&self, key: &str) -> (b: bool)
        ensures
            b == self@.get(key@).is_some(),
    {
        self.get(key).is_some()
    }
}

/// What is found among the first entries is found among all of them.
pub proof fn lemma_lookup_extends(entries: Seq<(ConfigTree, ConfigTree)>, n: int, key: Seq<char>)
    requires
        0 <= n <= entries.len(),
        lookup(entries.take(n), key) is Some,
    ensures
        lookup(entries, key) == lookup(entries.take(n), key),
    decreases entries.len() - n,
{
    if n < entries.len() {
        assert(entries.take(n + 1).drop_last() == entries.take(n));
        lemma_lookup_extends(entries, n + 1, key);
    } else {
        assert(entries.take(n) == entries);
    }
}

impl Clone for ConfigValue {
    fn clone(&self) -> (copy: ConfigValue)
        ensures
            copy@ == self@,
        decreases self,
    {
        match self {
            ConfigValue::Null => ConfigValue::Null,
            ConfigValue::Bool(b) => ConfigValue::Bool(*b),
            ConfigValue::Unsigned(n) => ConfigValue::Unsigned(*n),
            ConfigValue::Signed(n) => ConfigValue::Signed(*n),
            ConfigValue::Real(text) => ConfigValue::Real(text.clone()),
            ConfigValue::Text(text) => ConfigValue::Text(text.clone()),
            ConfigValue::Tagged => ConfigValue::Tagged,
            ConfigValue::Sequence(items) => {
                let mut copies: Vec<ConfigValue> = Vec::new();
                let n: usize = items.len();
                let mut i: usize = 0;
                while i < n
                    invariant
                        n == items.len(),
                        *self == ConfigValue::Sequence(*items),
                        i <= n,
                        copies.len() == i,
                        forall|k: int| 0 <= k < i ==> (#[trigger] copies@[k])@ == items@[k]@,
                    decreases n - i,
                {
                    proof {
                        vstd::std_specs::vec::axiom_vec_index_decreases(*items, i as int);
                        assert(self is Sequence);
                        assert(self->Sequence_0 == *items);
                        assert(decreases_to!(*self => self->Sequence_0));
                        assert(decreases_to!(*items => items[i as int]));
                    }
                    let item = items[i].clone();
                    copies.push(item);
                    i += 1;
                }
                proof {
                    lemma_sequence_view(*items);
                    lemma_sequence_view(copies);
                    assert(item_views(copies@) =~= item_views(items@));
                }
                ConfigValue::Sequence(copies)
            },
            ConfigValue::Mapping(entries) => {
                let mut copies: Vec<(ConfigValue, ConfigValue)> = Vec::new();
                let n: usize = entries.len();
                let mut i: usize = 0;
                while i < n
                    invariant
                        n == entries.len(),
                        *self == ConfigValue::Mapping(*entries),
                        i <= n,
                        copies.len() == i,
                        forall|k: int|
                            0 <= k < i ==> (#[trigger] copies@[k]).0@ == entries@[k].0@
                                && copies@[k].1@ == entries@[k].1@,
                    decreases n - i,
                {
                    proof {
                        vstd::std_specs::vec::axiom_vec_index_decreases(*entries, i as int);
                        assert(self is Mapping);
                        assert(self->Mapping_0 == *entries);
                        assert(decreases_to!(*self => self->Mapping_0));
                        assert(decreases_to!(*entries => entries[i as int]));
                    }
                    let key = entries[i].0.clone();
                    let value = entries[i].1.clone();
                    copies.push((key, value));
                    i += 1;
                }
                proof {
                    lemma_mapping_view(*entries);
                    lemma_mapping_view(copies);
                    assert(entry_views(copies@) =~= entry_views(entries@));
                }
                ConfigValue::Mapping(copies)
            },
        }
    }
}

} // verus!
