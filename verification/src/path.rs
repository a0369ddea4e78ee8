//! Paths as the engine sees them: a list of name segments below an anchor, free of
//! host syntax. Text that comes from outside is cut at `/` and `\`; empty pieces and
//! `.` are dropped, so `./src`, `src/` and `src` are one path.

use crate::text::{
    join, joined, lemma_pieces_hold_no_delimiter, lemma_strings_push, pieces, same_text, split,
    strings, Delimiter,
};
use vstd::prelude::*;
use vstd::string::*;

verus! {

/// A piece of path text that stands for a step: anything but the empty piece and `.`.
pub open spec fn is_kept(piece: Seq<char>) -> bool {
    piece.len() > 0 && piece != seq!['.']
}

/// A name that can stand as one segment of a path.
pub open spec fn is_segment(s: Seq<char>) -> bool {
    &&& is_kept(s)
    &&& forall|j: int| 0 <= j < s.len() ==> !Delimiter::PathSeparator.cuts(#[trigger] s[j])
}

/// The test that keeps the pieces which stand for a step.
pub open spec fn kept() -> spec_fn(Seq<char>) -> bool {
    |piece: Seq<char>| is_kept(piece)
}

/// The segments that a path text names, in order.
pub open spec fn path_segments(text: Seq<char>) -> Seq<Seq<char>> {
    pieces(text, Delimiter::PathSeparator).filter(kept())
}

/// Whether a path text starts at the root of the file system.
pub open spec fn is_rooted(text: Seq<char>) -> bool {
    text.len() > 0 && Delimiter::PathSeparator.cuts(text[0])
}

/// Every segment that a path text names is a well-formed segment.
pub proof fn lemma_path_segments_are_segments(text: Seq<char>)
    ensures
        forall|i: int|
            0 <= i < path_segments(text).len() ==> is_segment(#[trigger] path_segments(text)[i]),
{
    let all = pieces(text, Delimiter::PathSeparator);
    let pred = kept();
    lemma_pieces_hold_no_delimiter(text, Delimiter::PathSeparator);
    assert forall|i: int| 0 <= i < path_segments(text).len() implies is_segment(
        #[trigger] path_segments(text)[i],
    ) by {
        let seg = all.filter(pred)[i];
        all.lemma_filter_pred(pred, i);
        assert(all.filter(pred).contains(seg));
        all.lemma_filter_contains_rev(pred, seg);
        let k = choose|k: int| 0 <= k < all.len() && all[k] == seg;
        assert forall|j: int| 0 <= j < seg.len() implies !Delimiter::PathSeparator.cuts(
            #[trigger] seg[j],
        ) by {
            assert(seg[j] == all[k][j]);
        }
    }
}

/// A text without a delimiter is its own one piece.
pub proof fn lemma_text_without_delimiter_is_one_piece(s: Seq<char>, d: Delimiter)
    requires
        forall|j: int| 0 <= j < s.len() ==> !d.cuts(#[trigger] s[j]),
    ensures
        pieces(s, d) == seq![s],
    decreases s.len(),
{
    if s.len() == 0 {
        assert(s =~= Seq::<char>::empty());
        assert(pieces(s, d) =~= seq![s]);
    } else {
        let fewer = s.drop_last();
        assert forall|j: int| 0 <= j < fewer.len() implies !d.cuts(#[trigger] fewer[j]) by {
            assert(fewer[j] == s[j]);
        }
        lemma_text_without_delimiter_is_one_piece(fewer, d);
        assert(!d.cuts(s[s.len() - 1]));
        assert(fewer.push(s.last()) =~= s);
        assert(pieces(s, d) =~= seq![s]);
    }
}

/// A name that can stand as a segment names itself, and nothing else.
pub proof fn lemma_segment_names_itself(name: Seq<char>)
    requires
        is_segment(name),
    ensures
        path_segments(name) == seq![name],
{
    lemma_text_without_delimiter_is_one_piece(name, Delimiter::PathSeparator);
    let one = seq![name];
    assert(one == Seq::<Seq<char>>::empty().push(name));
    Seq::<Seq<char>>::empty().lemma_filter_push(name, kept());
    Seq::<Seq<char>>::empty().lemma_filter_len(kept());
    assert(Seq::<Seq<char>>::empty().filter(kept()) =~= Seq::<Seq<char>>::empty());
}

/// Names joined by `/` hold no backslash.
pub proof fn lemma_joined_names_hold_no_backslash(names: Seq<Seq<char>>)
    requires
        forall|i: int| 0 <= i < names.len() ==> is_segment(#[trigger] names[i]),
    ensures
        !joined(names, seq!['/']).contains('\\'),
    decreases names.len(),
{
    let text = joined(names, seq!['/']);
    if names.len() >= 2 {
        lemma_joined_names_hold_no_backslash(names.drop_last());
        let before = joined(names.drop_last(), seq!['/']);
        assert forall|k: int| 0 <= k < text.len() implies text[k] != '\\' by {
            if k < before.len() {
                assert(text[k] == before[k]);
                assert(before.contains(before[k]));
            } else if k > before.len() {
                assert(text[k] == names.last()[k - before.len() - 1]);
            }
        }
    } else if names.len() == 1 {
        assert forall|k: int| 0 <= k < text.len() implies text[k] != '\\' by {
            assert(text[k] == names[0][k]);
        }
    }
}

/// The mathematical value of a path.
pub struct PathView {
    /// Whether the path starts at the root of the file system.
    pub rooted: bool,
    /// The names to follow from the anchor, outermost first.
    pub segments: Seq<Seq<char>>,
}

impl PathView {
    pub open spec fn well_formed(self) -> bool {
        forall|i: int| 0 <= i < self.segments.len() ==> is_segment(#[trigger] self.segments[i])
    }

    /// The path that a text names.
    pub open spec fn of_text(text: Seq<char>) -> PathView {
        PathView { rooted: is_rooted(text), segments: path_segments(text) }
    }

    /// The path in `/`-separated notation; the empty relative path is written `.`.
    pub open spec fn text(self) -> Seq<char> {
        if self.segments.len() == 0 {
            if self.rooted {
                seq!['/']
            } else {
                seq!['.']
            }
        } else if self.rooted {
            seq!['/'] + joined(self.segments, seq!['/'])
        } else {
            joined(self.segments, seq!['/'])
        }
    }

    /// The segments in `/`-separated notation, without a mark for the anchor.
    pub open spec fn relative_text(self) -> Seq<char> {
        joined(self.segments, seq!['/'])
    }

    /// This path extended by the segments that `name` names.
    pub open spec fn child(self, name: Seq<char>) -> PathView {
        PathView { rooted: self.rooted, segments: self.segments + path_segments(name) }
    }

    /// The path made of the first `n` segments; the path itself where it has no more
    /// than `n`.
    pub open spec fn ancestor(self, n: int) -> PathView {
        if 0 <= n < self.segments.len() {
            PathView { rooted: self.rooted, segments: self.segments.take(n) }
        } else {
            self
        }
    }

    /// Whether this path is `base` or lies below it.
    pub open spec fn is_within(self, base: PathView) -> bool {
        self.rooted == base.rooted && base.segments.is_prefix_of(self.segments)
    }
}

/// A path of the engine. Its segments are never empty, never `.`, and hold no separator.
#[derive(Debug, PartialEq, Eq)]
pub struct TreePath {
    rooted: bool,
    segments: Vec<String>,
}

impl View for TreePath {
    type V = PathView;

    closed spec fn view(&self) -> PathView {
        PathView { rooted: self.rooted, segments: strings(self.segments@) }
    }
}

fn copy_strings(v: &Vec<String>) -> (out: Vec<String>)
    ensures
        out@ == v@,
{
    let mut out: Vec<String> = Vec::new();
    let n: usize = v.len();
    let mut i: usize = 0;
    while i < n
        invariant
            n == v.len(),
            i <= n,
            out@ == v@.take(i as int),
        decreases n - i,
    {
        out.push(v[i].clone());
        assert(v@.take(i + 1) == v@.take(i as int).push(v@[i as int]));
        i += 1;
    }
    assert(v@.take(n as int) == v@);
    out
}

/// The segments that `text` names.
fn segments_of(text: &str) -> (out: Vec<String>)
    ensures
        strings(out@) == path_segments(text@),
{
    let parts = split(text, Delimiter::PathSeparator);
    let mut out: Vec<String> = Vec::new();
    let n: usize = parts.len();
    let mut i: usize = 0;
    proof {
        strings(parts@).take(0).lemma_filter_len(kept());
        assert(strings(out@) =~= strings(parts@).take(0).filter(kept()));
    }
    while i < n
        invariant
            n == parts.len(),
            i <= n,
            strings(out@) == strings(parts@).take(i as int).filter(kept()),
        decreases n - i,
    {
        proof {
            let done = strings(parts@).take(i as int);
            assert(strings(parts@).take(i + 1) == done.push(parts@[i as int]@));
            done.lemma_filter_push(parts@[i as int]@, kept());
            reveal_strlit(".");
            assert("."@ =~= seq!['.']);
        }
        let part = &parts[i];
        let empty = part.as_str().unicode_len() == 0;
        if !empty && !same_text(part.as_str(), ".") {
            let owned = part.clone();
            proof {
                lemma_strings_push(out@, owned);
            }
            out.push(owned);
        }
        i += 1;
    }
    assert(strings(parts@).take(n as int) == strings(parts@));
    out
}

impl TreePath {
    #[verifier::type_invariant]
    spec fn segments_are_names(&self) -> bool {
        forall|i: int| 0 <= i < self.segments@.len() ==> is_segment(#[trigger] self.segments@[i]@)
    }

    /// The path that `text` names, whatever separators it is written with.
    pub fn parse(text: &str) -> (path: TreePath)
        ensures
            path@ == PathView::of_text(text@),
            path@.well_formed(),
    {
        let chars_at_front = text.unicode_len() > 0 && Delimiter::PathSeparator.cuts_at(
            text.get_char(0),
        );
        let segments = segments_of(text);
        proof {
            lemma_path_segments_are_segments(text@);
            assert forall|i: int| 0 <= i < segments@.len() implies is_segment(
                #[trigger] segments@[i]@,
            ) by {
                assert(segments@[i]@ == strings(segments@)[i]);
            }
        }
        TreePath { rooted: chars_at_front, segments }
    }

    /// The empty relative path: the directory that relative paths start from.
    pub fn here() -> (path: TreePath)
        ensures
            path@ == (PathView { rooted: false, segments: Seq::empty() }),
    {
        let path = TreePath { rooted: false, segments: Vec::new() };
        assert(strings(path.segments@) =~= Seq::<Seq<char>>::empty());
        path
    }

    /// Every segment of a path value is a name.
    fn names_well_formed(&self)
        ensures
            self@.well_formed(),
    {
        proof {
            use_type_invariant(self);
            assert forall|i: int| 0 <= i < self@.segments.len() implies is_segment(
                #[trigger] self@.segments[i],
            ) by {
                assert(self@.segments[i] == self.segments@[i]@);
            }
        }
    }

    /// This path extended by the segments that `name` names.
    pub fn join(&self, name: &str) -> (path: TreePath)
        ensures
            path@ == self@.child(name@),
            path@.well_formed(),
    {
        let mut segments = copy_strings(&self.segments);
        let mut more = segments_of(name);
        proof {
            use_type_invariant(self);
            lemma_path_segments_are_segments(name@);
            assert(strings(self.segments@ + more@) =~= strings(self.segments@) + strings(more@));
            assert forall|i: int| 0 <= i < (self.segments@ + more@).len() implies is_segment(
                #[trigger] (self.segments@ + more@)[i]@,
            ) by {
                if i >= self.segments@.len() {
                    let k = i - self.segments@.len();
                    assert(more@[k]@ == strings(more@)[k]);
                }
            }
        }
        segments.append(&mut more);
        let path = TreePath { rooted: self.rooted, segments };
        proof {
            assert forall|i: int| 0 <= i < path@.segments.len() implies is_segment(
                #[trigger] path@.segments[i],
            ) by {
                assert(path@.segments[i] == path.segments@[i]@);
            }
        }
        path
    }

    /// The path in `/`-separated notation.
    pub fn to_text(&self) -> (text: String)
        ensures
            text@ == self@.text(),
            self@.well_formed(),
    {
        self.names_well_formed();
        proof {
            reveal_strlit("/");
            reveal_strlit(".");
            assert("/"@ =~= seq!['/']);
            assert("."@ =~= seq!['.']);
        }
        if self.segments.len() == 0 {
            if self.rooted {
                String::from_str("/")
            } else {
                String::from_str(".")
            }
        } else {
            let body = join(&self.segments, "/");
            if self.rooted {
                let mut text = String::from_str("/");
                text.append(body.as_str());
                text
            } else {
                body
            }
        }
    }

    /// The segments in `/`-separated notation, without a mark for the anchor.
    pub fn relative_text(&self) -> (text: String)
        ensures
            text@ == self@.relative_text(),
            !text@.contains('\\'),
            self@.well_formed(),
    {
        self.names_well_formed();
        proof {
            reveal_strlit("/");
            assert("/"@ =~= seq!['/']);
            lemma_joined_names_hold_no_backslash(self@.segments);
        }
        join(&self.segments, "/")
    }

    pub fn is_rooted(&self) -> (rooted: bool)
        ensures
            rooted == self@.rooted,
    {
        self.rooted
    }

    pub fn segment_count(&self) -> (n: usize)
        ensures
            n == self@.segments.len(),
            self@.well_formed(),
    {
        self.names_well_formed();
        self.segments.len()
    }

    /// The segment at index `i`, where there is one.
    pub fn segment(&self, i: usize) -> (name: Option<&str>)
        ensures
            match name {
                Some(text) => i < self@.segments.len() && text@ == self@.segments[i as int],
                None => i >= self@.segments.len(),
            },
    {
        if i < self.segments.len() {
            Some(self.segments[i].as_str())
        } else {
            None
        }
    }

    /// The path made of the first `n` segments of this one; the path itself where
    /// it has no more than `n`.
    pub fn ancestor(&self, n: usize) -> (path: TreePath)
        ensures
            path@ == self@.ancestor(n as int),
            path@.well_formed(),
    {
        let mut segments: Vec<String> = Vec::new();
        let end: usize = if n < self.segments.len() {
            n
        } else {
            self.segments.len()
        };
        let mut i: usize = 0;
        while i < end
            invariant
                end <= self.segments.len(),
                i <= end,
                segments@ == self.segments@.take(i as int),
            decreases end - i,
        {
            segments.push(self.segments[i].clone());
            assert(self.segments@.take(i + 1) == self.segments@.take(i as int).push(
                self.segments@[i as int],
            ));
            i += 1;
        }
        proof {
            use_type_invariant(self);
            assert(strings(self.segments@.take(end as int)) =~= strings(self.segments@).take(
                end as int,
            ));
            assert(self@.ancestor(n as int).segments =~= strings(self.segments@).take(end as int));
        }
        let path = TreePath { rooted: self.rooted, segments };
        proof {
            assert forall|i: int| 0 <= i < path@.segments.len() implies is_segment(
                #[trigger] path@.segments[i],
            ) by {
                assert(path@.segments[i] == self.segments@[i]@);
            }
        }
        path
    }
}

impl Clone for TreePath {
    fn clone(&self) -> (copy: TreePath)
        ensures
            copy@ == self@,
    {
        let segments = copy_strings(&self.segments);
        proof {
            use_type_invariant(self);
        }
        TreePath { rooted: self.rooted, segments }
    }
}

impl<'a> From<&'a str> for TreePath {
    fn from(text: &'a str) -> (path: TreePath)
        ensures
            path@ == PathView::of_text(text@),
    {
        TreePath::parse(text)
    }
}

impl<'a> vstd::std_specs::convert::FromSpecImpl<&'a str> for TreePath {
    open spec fn obeys_from_spec() -> bool {
        false
    }

    open spec fn from_spec(text: &'a str) -> TreePath {
        arbitrary()
    }
}

} // verus!
