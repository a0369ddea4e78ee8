//! The configuration document: the `directories` tree and what stands beside it.

use crate::errors::SkeletorError;
use crate::text::{lemma_strings_push, strings};
use crate::utils::{parse_yaml_string, yaml_document};
use crate::value::{item_views, ConfigTree, ConfigValue};
use vstd::prelude::*;
use vstd::string::*;

verus! {

/// The text under `key` in a document, where there is one.
pub open spec fn text_at(doc: ConfigTree, key: Seq<char>) -> Option<Seq<char>> {
    match doc.get(key) {
        Some(value) => value.as_text(),
        None => None,
    }
}

/// The count under `key` in a document: a number without sign that fits the machine
/// word.
pub open spec fn count_at(doc: ConfigTree, key: Seq<char>) -> Option<usize> {
    match doc.get(key) {
        Some(ConfigTree::Unsigned(n)) => if n <= usize::MAX {
            Some(n as usize)
        } else {
            None
        },
        _ => None,
    }
}

/// The numbers of files and of directories that a document states under `stats`.
pub open spec fn stats_in(doc: ConfigTree) -> Option<(usize, usize)> {
    match doc.get("stats"@) {
        Some(stats) => match (count_at(stats, "files"@), count_at(stats, "directories"@)) {
            (Some(files), Some(directories)) => Some((files, directories)),
            _ => None,
        },
        None => None,
    }
}

/// The items as texts, where every one of them is a text.
pub open spec fn all_texts(items: Seq<ConfigTree>) -> Option<Seq<Seq<char>>>
    decreases items.len(),
{
    if items.len() == 0 {
        Some(Seq::empty())
    } else {
        match (all_texts(items.drop_last()), items.last()) {
            (Some(before), ConfigTree::Text(text)) => Some(before.push(text)),
            _ => None,
        }
    }
}

/// The texts among the items, in order.
pub open spec fn texts_among(items: Seq<ConfigTree>) -> Seq<Seq<char>>
    decreases items.len(),
{
    if items.len() == 0 {
        Seq::empty()
    } else {
        match items.last() {
            ConfigTree::Text(text) => texts_among(items.drop_last()).push(text),
            _ => texts_among(items.drop_last()),
        }
    }
}

/// The patterns that a document lists under `blacklist`, where that is a sequence of
/// texts.
pub open spec fn blacklist_in(doc: ConfigTree) -> Option<Seq<Seq<char>>> {
    match doc.get("blacklist"@) {
        Some(ConfigTree::Sequence(items)) => all_texts(items),
        _ => None,
    }
}

/// The texts of the sequence under `key` in a document; none where the key is
/// missing or holds no sequence.
pub open spec fn texts_under(doc: ConfigTree, key: Seq<char>) -> Seq<Seq<char>> {
    match doc.get(key) {
        Some(ConfigTree::Sequence(items)) => texts_among(items),
        _ => Seq::empty(),
    }
}

/// The mathematical value of a [`SkeletorMetadata`].
pub struct MetadataView {
    pub created: Option<Seq<char>>,
    pub updated: Option<Seq<char>>,
    pub generated_comments: Option<Seq<char>>,
    pub stats: Option<(usize, usize)>,
    pub blacklist: Option<Seq<Seq<char>>>,
}

/// The metadata that a document holds.
pub open spec fn metadata_of(doc: ConfigTree) -> MetadataView {
    MetadataView {
        created: text_at(doc, "created"@),
        updated: text_at(doc, "updated"@),
        generated_comments: text_at(doc, "generated_comments"@),
        stats: stats_in(doc),
        blacklist: blacklist_in(doc),
    }
}

/// Metadata associated with a Skeletor configuration
#[derive(Debug, Clone)]
pub struct SkeletorMetadata {
    pub created: Option<String>,
    pub updated: Option<String>,
    pub generated_comments: Option<String>,
    pub stats: Option<(usize, usize)>,  // (files, directories)
    pub blacklist: Option<Vec<String>>,
}

pub open spec fn text_view(text: Option<String>) -> Option<Seq<char>> {
    match text {
        Some(t) => Some(t@),
        None => None,
    }
}

impl View for SkeletorMetadata {
    type V = MetadataView;

    open spec fn view(&self) -> MetadataView {
        MetadataView {
            created: text_view(self.created),
            updated: text_view(self.updated),
            generated_comments: text_view(self.generated_comments),
            stats: self.stats,
            blacklist: match self.blacklist {
                Some(patterns) => Some(strings(patterns@)),
                None => None,
            },
        }
    }
}

/// The text under `key`, copied.
pub fn text_under(doc: &ConfigValue, key: &str) -> (text: Option<String>)
    ensures
        text_view(text) == text_at(doc@, key@),
{
    match doc.get(key) {
        Some(value) => match value.as_str() {
            Some(text) => Some(String::from_str(text)),
            None => None,
        },
        None => None,
    }
}

fn count_under(doc: &ConfigValue, key: &str) -> (count: Option<usize>)
    ensures
        count == count_at(doc@, key@),
{
    match doc.get(key) {
        Some(ConfigValue::Unsigned(n)) => {
            if *n <= usize::MAX as u64 {
                Some(*n as usize)
            } else {
                None
            }
        },
        _ => None,
    }
}

/// The texts of the sequence under `key`; items that are no texts are passed over.
pub fn texts_in(doc: &ConfigValue, key: &str) -> (texts: Vec<String>)
    ensures
        strings(texts@) == texts_under(doc@, key@),
{
    let mut texts: Vec<String> = Vec::new();
    assert(strings(texts@) =~= Seq::empty());
    match doc.get(key) {
        Some(ConfigValue::Sequence(items)) => {
            proof {
                crate::value::lemma_sequence_view(*items);
            }
            let ghost all = item_views(items@);
            let n: usize = items.len();
            let mut i: usize = 0;
            assert(all.take(0).len() == 0);
            while i < n
                invariant
                    n == items.len(),
                    i <= n,
                    all == item_views(items@),
                    strings(texts@) == texts_among(all.take(i as int)),
                decreases n - i,
            {
                proof {
                    assert(all.take(i + 1).drop_last() == all.take(i as int));
                    assert(all.take(i + 1).last() == items@[i as int]@);
                }
                match &items[i] {
                    ConfigValue::Text(text) => {
                        let copy = text.clone();
                        proof {
                            lemma_strings_push(texts@, copy);
                        }
                        texts.push(copy);
                    },
                    _ => {},
                }
                i += 1;
            }
            assert(all.take(n as int) == all);
        },
        _ => {},
    }
    texts
}

fn blacklist_of(doc: &ConfigValue) -> (patterns: Option<Vec<String>>)
    ensures
        match blacklist_in(doc@) {
            Some(texts) => patterns is Some && strings(patterns.unwrap()@) == texts,
            None => patterns is None,
        },
{
    match doc.get("blacklist") {
        Some(ConfigValue::Sequence(items)) => {
            proof {
                crate::value::lemma_sequence_view(*items);
            }
            let ghost all = item_views(items@);
            let mut patterns: Vec<String> = Vec::new();
            let n: usize = items.len();
            let mut i: usize = 0;
            assert(all.take(0).len() == 0);
            assert(strings(patterns@) =~= Seq::empty());
            while i < n
                invariant
                    n == items.len(),
                    i <= n,
                    all == item_views(items@),
                    blacklist_in(doc@) == all_texts(all),
                    all_texts(all.take(i as int)) == Some(strings(patterns@)),
                decreases n - i,
            {
                proof {
                    assert(all.take(i + 1).drop_last() == all.take(i as int));
                    assert(all.take(i + 1).last() == items@[i as int]@);
                }
                match &items[i] {
                    ConfigValue::Text(text) => {
                        let copy = text.clone();
                        proof {
                            lemma_strings_push(patterns@, copy);
                        }
                        patterns.push(copy);
                    },
                    _ => {
                        proof {
                            lemma_all_texts_failure_stays(all, i + 1);
                        }
                        return None;
                    },
                }
                i += 1;
            }
            assert(all.take(n as int) == all);
            Some(patterns)
        },
        _ => None,
    }
}

/// An item that is no text among the first items leaves the whole sequence without
/// a list of texts.
pub proof fn lemma_all_texts_failure_stays(items: Seq<ConfigTree>, n: int)
    requires
        0 <= n <= items.len(),
        all_texts(items.take(n)) is None,
    ensures
        all_texts(items) is None,
    decreases items.len() - n,
{
    if n < items.len() {
        assert(items.take(n + 1).drop_last() == items.take(n));
        lemma_all_texts_failure_stays(items, n + 1);
    } else {
        assert(items.take(n) == items);
    }
}

/// Configuration for Skeletor scaffolding operations
#[derive(Debug, Clone)]
pub struct SkeletorConfig {
    pub directories: ConfigValue,
    pub metadata: Option<SkeletorMetadata>,
}

/// The `directories` tree of a document: the mapping under that key. Where the key
/// is missing or holds no mapping there is none.
pub open spec fn directories_in(doc: ConfigTree) -> Option<ConfigTree> {
    match doc.get("directories"@) {
        Some(ConfigTree::Mapping(entries)) => Some(ConfigTree::Mapping(entries)),
        _ => None,
    }
}

/// The `directories` tree of a document, or `MissingConfigKey` for `directories`.
pub fn directories_of(doc: &ConfigValue) -> (r: Result<ConfigValue, SkeletorError>)
    ensures
        match directories_in(doc@) {
            Some(tree) => r is Ok && r.unwrap()@ == tree,
            None => r matches Err(SkeletorError::MissingConfigKey { key }) && key@
                == "directories"@,
        },
{
    match doc.get("directories") {
        Some(value) => {
            if value.is_mapping() {
                Ok(value.clone())
            } else {
                Err(SkeletorError::missing_config_key("directories"))
            }
        },
        None => Err(SkeletorError::missing_config_key("directories")),
    }
}

impl SkeletorConfig {
    /// Create a new configuration from a tree
    pub fn new(directories: ConfigValue) -> (config: SkeletorConfig)
        ensures
            config.directories == directories,
            config.metadata is None,
    {
        SkeletorConfig { directories, metadata: None }
    }

    /// The configuration that a document holds: its `directories` tree and its
    /// metadata. A document without a `directories` mapping is refused.
    pub fn from_document(doc: &ConfigValue) -> (r: Result<SkeletorConfig, SkeletorError>)
        ensures
            match directories_in(doc@) {
                Some(tree) => r is Ok && r.unwrap().directories@ == tree && r.unwrap().metadata
                    is Some && r.unwrap().metadata.unwrap()@ == metadata_of(doc@),
                None => r matches Err(SkeletorError::MissingConfigKey { key }) && key@
                    == "directories"@,
            },
    {
        match directories_of(doc) {
            Ok(directories) => {
                let metadata = SkeletorConfig::extract_metadata(doc);
                Ok(SkeletorConfig { directories, metadata: Some(metadata) })
            },
            Err(error) => Err(error),
        }
    }

    /// Create a configuration from a YAML string: `InvalidYaml` where the text is no
    /// YAML document, `MissingConfigKey` where the document has no `directories`
    /// mapping.
    pub fn from_yaml_str(yaml: &str) -> (r: Result<SkeletorConfig, SkeletorError>)
        ensures
            match yaml_document(yaml@) {
                Err(refusal) => r matches Err(SkeletorError::InvalidYaml { message }) && message@
                    == refusal,
                Ok(doc) => match directories_in(doc) {
                    Some(tree) => r is Ok && r.unwrap().directories@ == tree
                        && r.unwrap().metadata is Some && r.unwrap().metadata.unwrap()@
                        == metadata_of(doc),
                    None => r matches Err(SkeletorError::MissingConfigKey { key }) && key@
                        == "directories"@,
                },
            },
    {
        match parse_yaml_string(yaml) {
            Ok(doc) => SkeletorConfig::from_document(&doc),
            Err(error) => Err(error),
        }
    }

    /// The metadata that stands beside the tree in a document.
    pub fn extract_metadata(doc: &ConfigValue) -> (metadata: SkeletorMetadata)
        ensures
            metadata@ == metadata_of(doc@),
    {
        let stats = match doc.get("stats") {
            Some(stats) => match (count_under(stats, "files"), count_under(stats, "directories")) {
                (Some(files), Some(directories)) => Some((files, directories)),
                _ => None,
            },
            None => None,
        };
        SkeletorMetadata {
            created: text_under(doc, "created"),
            updated: text_under(doc, "updated"),
            generated_comments: text_under(doc, "generated_comments"),
            stats,
            blacklist: blacklist_of(doc),
        }
    }
}

/// The `directories` tree of the configuration document in `content`.
pub fn read_config(content: &str) -> (r: Result<ConfigValue, SkeletorError>)
    ensures
        match yaml_document(content@) {
            Err(refusal) => r matches Err(SkeletorError::InvalidYaml { message }) && message@
                == refusal,
            Ok(doc) => match directories_in(doc) {
                Some(tree) => r is Ok && r.unwrap()@ == tree,
                None => r matches Err(SkeletorError::MissingConfigKey { key }) && key@
                    == "directories"@,
            },
        },
{
    match parse_yaml_string(content) {
        Ok(doc) => directories_of(&doc),
        Err(error) => Err(error),
    }
}

/// The name of the configuration file where none is given.
pub open spec fn default_name() -> Seq<char> {
    ".skeletorrc"@
}

/// Returns the provided file path or defaults to ".skeletorrc".
pub fn default_file_path(arg: Option<&String>) -> (path: String)
    ensures
        path@ == match arg {
            Some(given) => given@,
            None => default_name(),
        },
{
    match arg {
        Some(given) => given.clone(),
        None => String::from_str(".skeletorrc"),
    }
}

} // verus!
