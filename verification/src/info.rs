//! What the `info` command tells of a configuration document.

use crate::config::{text_at, texts_in, texts_under};
use crate::text::{decimal, decimal_text, quoted, quoted_list, quoted_list_of, quoted_text, strings};
use crate::value::{ConfigTree, ConfigValue};
use vstd::prelude::*;
use vstd::string::*;

verus! {

/// The line for a text of the document: `found` before the text, or `missing`.
pub open spec fn text_line(doc: ConfigTree, key: Seq<char>, found: Seq<char>, missing: Seq<char>) -> Seq<
    char,
> {
    match text_at(doc, key) {
        Some(text) => found + text,
        None => missing,
    }
}

/// The number under `key`, or zero where there is none.
pub open spec fn number_or_zero(stats: ConfigTree, key: Seq<char>) -> u64 {
    match stats.get(key) {
        Some(ConfigTree::Unsigned(n)) => n,
        _ => 0,
    }
}

/// The line for the statistics of the document.
pub open spec fn stats_line(doc: ConfigTree) -> Seq<char> {
    match doc.get("stats"@) {
        Some(ConfigTree::Mapping(entries)) => "  Stats: "@ + decimal(
            number_or_zero(ConfigTree::Mapping(entries), "files"@) as nat,
        ) + " files, "@ + decimal(
            number_or_zero(ConfigTree::Mapping(entries), "directories"@) as nat,
        ) + " directories"@,
        _ => "  No stats available."@,
    }
}

/// The line for the blacklist of the document.
pub open spec fn blacklist_line(doc: ConfigTree) -> Seq<char> {
    match doc.get("blacklist"@) {
        Some(ConfigTree::Sequence(_)) => "  Blacklist patterns: "@ + quoted_list(
            texts_under(doc, "blacklist"@),
        ),
        _ => "  No blacklist information available."@,
    }
}

/// The lines that tell of the document read from `path`.
pub open spec fn info_of(doc: ConfigTree, path: Seq<char>) -> Seq<Seq<char>> {
    seq![
        "Information from "@ + quoted_text(path) + ":"@,
        text_line(doc, "created"@, "  Created: "@, "  No created timestamp available."@),
        text_line(doc, "updated"@, "  Updated: "@, "  No updated timestamp available."@),
        text_line(
            doc,
            "generated_comments"@,
            "  Generated comments: "@,
            "  No generated comments available."@,
        ),
        stats_line(doc),
        blacklist_line(doc),
    ]
}

fn text_line_of(doc: &ConfigValue, key: &str, found: &str, missing: &str) -> (line: String)
    ensures
        line@ == text_line(doc@, key@, found@, missing@),
{
    match doc.get(key) {
        Some(value) => match value.as_str() {
            Some(text) => {
                let mut line = String::from_str(found);
                line.append(text);
                line
            },
            None => String::from_str(missing),
        },
        None => String::from_str(missing),
    }
}

fn number_under(stats: &ConfigValue, key: &str) -> (n: u64)
    ensures
        n == number_or_zero(stats@, key@),
{
    match stats.get(key) {
        Some(ConfigValue::Unsigned(n)) => *n,
        _ => 0,
    }
}

/// The lines that the `info` command prints for the document read from `path`.
pub fn info_lines(doc: &ConfigValue, path: &str) -> (lines: Vec<String>)
    ensures
        strings(lines@) == info_of(doc@, path@),
{
    let mut lines: Vec<String> = Vec::new();
    let mut head = String::from_str("Information from ");
    let shown = quoted(path);
    head.append(shown.as_str());
    head.append(":");
    lines.push(head);
    lines.push(text_line_of(doc, "created", "  Created: ", "  No created timestamp available."));
    lines.push(text_line_of(doc, "updated", "  Updated: ", "  No updated timestamp available."));
    lines.push(
        text_line_of(
            doc,
            "generated_comments",
            "  Generated comments: ",
            "  No generated comments available.",
        ),
    );
    let stats = match doc.get("stats") {
        Some(stats) => {
            if stats.is_mapping() {
                let mut line = String::from_str("  Stats: ");
                let files = decimal_text(number_under(stats, "files"));
                line.append(files.as_str());
                line.append(" files, ");
                let directories = decimal_text(number_under(stats, "directories"));
                line.append(directories.as_str());
                line.append(" directories");
                line
            } else {
                String::from_str("  No stats available.")
            }
        },
        None => String::from_str("  No stats available."),
    };
    lines.push(stats);
    let listed = match doc.get("blacklist") {
        Some(ConfigValue::Sequence(_)) => {
            let patterns = texts_in(doc, "blacklist");
            let mut line = String::from_str("  Blacklist patterns: ");
            let list = quoted_list_of(patterns.as_slice());
            line.append(list.as_str());
            line
        },
        _ => String::from_str("  No blacklist information available."),
    };
    lines.push(listed);
    assert(strings(lines@) =~= info_of(doc@, path@));
    lines
}

} // verus!
