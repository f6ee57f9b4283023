//! As much of KDL as it takes to find the `binds` section of Niri's config and read the action out
//! of each bind: nodes, children, strings, comments, and slashdashes.
//!
//! The grammar is given as functions over the characters of a document and positions in it. A
//! position past the end of the document stands for a raw string whose opening hashes run up to
//! the end of the document, which is the one thing that cannot be read at all.

use vstd::prelude::*;

use crate::text::{
    chars_of, first_from, is_white_space, lemma_first_from, string_of, texts, white_space,
};

verus! {

/// A node: a name, its positional arguments, and its children. Properties (`key=value`) aren't
/// needed, so they're dropped.
#[derive(Debug)]
pub struct Node {
    pub name: String,
    pub args: Vec<String>,
    pub children: Vec<Node>,
}

/// What a [`Node`] says.
#[verifier::ext_equal]
pub struct NodeView {
    pub name: Seq<char>,
    pub args: Seq<Seq<char>>,
    pub children: Seq<NodeView>,
}

impl Node {
    /// What this node says.
    pub open spec fn says(self) -> NodeView
        decreases self,
    {
        NodeView {
            name: self.name@,
            args: texts(self.args@),
            children: all_say(self.children@),
        }
    }
}

/// What each node in a sequence says.
pub open spec fn all_say(nodes: Seq<Node>) -> Seq<NodeView>
    decreases nodes,
{
    if nodes.len() == 0 {
        Seq::empty()
    } else {
        all_say(nodes.drop_last()).push(nodes.last().says())
    }
}

/// The character at a position, if there is one.
pub open spec fn at(s: Seq<char>, p: int) -> Option<char> {
    if 0 <= p < s.len() {
        Some(s[p])
    } else {
        None
    }
}

/// The position after the character at `p`, if there is one.
pub open spec fn step(s: Seq<char>, p: int) -> int {
    if p < s.len() {
        p + 1
    } else {
        p
    }
}

/// Where a type annotation at `p`, like `(u8)`, ends, or `p` itself if there isn't one. An
/// annotation that is never closed takes up the rest of the document.
pub open spec fn annotation_end(s: Seq<char>, p: int) -> int {
    if at(s, p) == Some('(') {
        step(s, first_from(s.len() as int, p, |i: int| s[i] == ')'))
    } else {
        p
    }
}

/// Whether a bare value ends before the character at `i`.
pub open spec fn ends_bare(s: Seq<char>, i: int) -> bool {
    let c = s[i];
    ||| is_white_space(c)
    ||| c == '{'
    ||| c == '}'
    ||| c == '('
    ||| c == ')'
    ||| c == ';'
    ||| c == '='
    ||| c == '"'
    ||| c == '/' && (at(s, i + 1) == Some('/') || at(s, i + 1) == Some('*'))
}

/// Where a bare value at `p` ends.
pub open spec fn bare_end(s: Seq<char>, p: int) -> int {
    first_from(s.len() as int, p, |i: int| ends_bare(s, i))
}

/// The character that an escape stands for.
pub open spec fn unescaped(c: char) -> char {
    if c == 'n' {
        '\n'
    } else if c == 't' {
        '\t'
    } else if c == 'r' {
        '\r'
    } else {
        c
    }
}

/// The rest of a quoted string from `p`, and where it ends: after its closing quote, or at the end
/// of the document. A backslash with nothing after it stands for itself.
pub open spec fn quoted_rest(s: Seq<char>, p: int) -> (Seq<char>, int)
    decreases s.len() - p,
{
    if p >= s.len() {
        (Seq::empty(), p)
    } else if s[p] == '"' {
        (Seq::empty(), p + 1)
    } else if s[p] == '\\' {
        if p + 1 < s.len() {
            let rest = quoted_rest(s, p + 2);
            (seq![unescaped(s[p + 1])] + rest.0, rest.1)
        } else {
            (seq!['\\'], p + 1)
        }
    } else {
        let rest = quoted_rest(s, p + 1);
        (seq![s[p]] + rest.0, rest.1)
    }
}

/// Whether a raw string opened with `hashes` hashes closes at `i`: a quote with as many hashes
/// right after it.
pub open spec fn closes_raw(s: Seq<char>, i: int, hashes: int) -> bool {
    &&& s[i] == '"'
    &&& forall|k: int| 1 <= k <= hashes ==> #[trigger] at(s, i + k) == Some('#')
}

/// The raw string at `p`, KDL 1's `r#"..."#` or KDL 2's `#"..."#`, and where it ends. One that is
/// never closed takes up the rest of the document.
pub open spec fn raw_string_at(s: Seq<char>, p: int) -> (Seq<char>, int) {
    let len = s.len() as int;
    let first = if at(s, p) == Some('r') {
        p + 1
    } else {
        p
    };
    let quote = first_from(len, first, |i: int| s[i] != '#');
    let hashes = quote - first;
    if quote >= len {
        (Seq::empty(), len + 1)
    } else {
        let close = first_from(len, quote + 1, |i: int| closes_raw(s, i, hashes));
        if close < len {
            (s.subrange(quote + 1, close), close + 1 + hashes)
        } else {
            (s.subrange(quote + 1, len), len)
        }
    }
}

/// Whether a raw string opens at `p`.
pub open spec fn opens_raw(s: Seq<char>, p: int) -> bool {
    &&& at(s, p) == Some('r') || at(s, p) == Some('#')
    &&& at(s, p + 1) == Some('"') || at(s, p + 1) == Some('#')
}

/// The string, raw string or bare value at `p`, if there is one, and where it ends.
pub open spec fn value_at(s: Seq<char>, p: int) -> (Option<Seq<char>>, int) {
    if at(s, p) == Some('"') {
        let r = quoted_rest(s, p + 1);
        (Some(r.0), r.1)
    } else if opens_raw(s, p) {
        let r = raw_string_at(s, p);
        (Some(r.0), r.1)
    } else {
        let end = bare_end(s, p);
        if end > p {
            (Some(s.subrange(p, end)), end)
        } else {
            (None, p)
        }
    }
}

/// Where the value of a property ends, given the position after its name: past the `=` and what
/// follows it, or `p` itself if it isn't a property.
pub open spec fn property_end(s: Seq<char>, p: int) -> int {
    if at(s, p) == Some('=') {
        value_at(s, annotation_end(s, p + 1)).1
    } else {
        p
    }
}

/// Where a block comment ends, from inside `depth` levels of it. Block comments nest.
pub open spec fn comment_end(s: Seq<char>, p: int, depth: nat) -> int
    decreases s.len() - p,
{
    if depth == 0 || p >= s.len() {
        p
    } else if s[p] == '/' && at(s, p + 1) == Some('*') {
        comment_end(s, p + 2, depth + 1)
    } else if s[p] == '*' && at(s, p + 1) == Some('/') {
        comment_end(s, p + 2, (depth - 1) as nat)
    } else {
        comment_end(s, p + 1, depth)
    }
}

/// Whether the character is part of a line break.
pub open spec fn breaks_line(c: char) -> bool {
    c == '\n' || c == '\r'
}

/// The position after a line break at `p`, a carriage return and line feed being one break.
pub open spec fn past_break(s: Seq<char>, p: int) -> int {
    if s[p] == '\r' && at(s, p + 1) == Some('\n') {
        p + 2
    } else {
        p + 1
    }
}

/// Where the white space and comments from `p` end. Line breaks are white space if `newlines` is
/// set, and otherwise each backslash lets one of them through, continuing a node onto the next
/// line: `held` counts the ones that have yet to.
pub open spec fn space_end(s: Seq<char>, p: int, newlines: bool, held: nat) -> int
    decreases s.len() - p,
{
    if p >= s.len() {
        p
    } else if breaks_line(s[p]) && held > 0 {
        space_end(s, past_break(s, p), newlines, (held - 1) as nat)
    } else if breaks_line(s[p]) && !newlines {
        p
    } else if s[p] == '\\' {
        space_end(s, p + 1, newlines, held + 1)
    } else if s[p] == '/' && at(s, p + 1) == Some('/') {
        proof {
            lemma_first_from(s.len() as int, p + 2, |i: int| s[i] == '\n');
        }
        space_end(s, first_from(s.len() as int, p + 2, |i: int| s[i] == '\n'), newlines, held)
    } else if s[p] == '/' && at(s, p + 1) == Some('*') {
        proof {
            lemma_comment_end(s, p + 2, 1);
        }
        space_end(s, comment_end(s, p + 2, 1), newlines, held)
    } else if is_white_space(s[p]) {
        space_end(s, p + 1, newlines, held)
    } else {
        p
    }
}

/// The larger of two positions.
pub open spec fn later(p: int, q: int) -> int {
    if p < q {
        q
    } else {
        p
    }
}

/// How many characters there are from a position on.
pub open spec fn left(s: Seq<char>, p: int) -> nat {
    if p < s.len() {
        (s.len() - p) as nat
    } else {
        0
    }
}

/// The nodes from `p` until the end of the document, or the closing brace of a children block if
/// `in_block` is set, and where they end.
pub open spec fn nodes_at(s: Seq<char>, p: int, in_block: bool) -> (Seq<NodeView>, int)
    decreases left(s, p), 2int,
{
    let q = space_end(s, p, true, 0);
    proof {
        lemma_space_end(s, p, true, 0);
        lemma_space_end(s, q + 2, true, 0);
    }
    if p >= s.len() || q >= s.len() {
        (Seq::empty(), q)
    } else if s[q] == '}' && in_block {
        (Seq::empty(), q + 1)
    } else if s[q] == ';' || s[q] == '}' {
        nodes_at(s, q + 1, in_block)
    } else if s[q] == '/' && at(s, q + 1) == Some('-') {
        // A slashdash comments out the whole node after it.
        let dropped = node_at(s, space_end(s, q + 2, true, 0));
        nodes_at(s, later(dropped.1, q + 2), in_block)
    } else {
        let node = node_at(s, q);
        let rest = nodes_at(s, later(node.1, q + 1), in_block);
        match node.0 {
            Some(n) => (seq![n] + rest.0, rest.1),
            None => rest,
        }
    }
}

/// The node at `p`, a name followed by arguments and properties and then maybe a children block,
/// and where it ends. There is none without a name.
pub open spec fn node_at(s: Seq<char>, p: int) -> (Option<NodeView>, int)
    decreases left(s, p), 1int,
{
    let name = value_at(s, annotation_end(s, p));
    proof {
        lemma_annotation_end(s, p);
        lemma_value_at(s, annotation_end(s, p));
    }
    match name.0 {
        None => (None, name.1),
        Some(n) => {
            let body = body_at(s, name.1);
            (Some(NodeView { name: n, args: body.0, children: body.1 }), body.2)
        },
    }
}

/// The arguments and children of a node from `p`, the position after its name, and where they end.
pub open spec fn body_at(s: Seq<char>, p: int) -> (Seq<Seq<char>>, Seq<NodeView>, int)
    decreases left(s, p), 0int,
{
    let q = space_end(s, p, false, 0);
    proof {
        lemma_space_end(s, p, false, 0);
        lemma_space_end(s, q + 2, false, 0);
        lemma_annotation_end(s, q);
        lemma_annotation_end(s, space_end(s, q + 2, false, 0));
        lemma_value_at(s, annotation_end(s, q));
        lemma_value_at(s, annotation_end(s, space_end(s, q + 2, false, 0)));
        lemma_property_end(s, value_at(s, annotation_end(s, q)).1);
        lemma_property_end(s, value_at(s, annotation_end(s, space_end(s, q + 2, false, 0))).1);
    }
    if q >= s.len() || breaks_line(s[q]) || s[q] == ';' || s[q] == '}' {
        (Seq::empty(), Seq::empty(), q)
    } else if s[q] == '{' {
        let children = nodes_at(s, q + 1, true);
        (Seq::empty(), children.0, children.1)
    } else if s[q] == '/' && at(s, q + 1) == Some('-') {
        // Slashdash on an argument or a children block drops just that.
        let r = space_end(s, q + 2, false, 0);
        if at(s, r) == Some('{') {
            body_at(s, later(nodes_at(s, r + 1, true).1, q + 2))
        } else {
            body_at(s, property_end(s, value_at(s, annotation_end(s, r)).1))
        }
    } else {
        let value = value_at(s, annotation_end(s, q));
        match value.0 {
            None => body_at(s, step(s, value.1)),
            Some(v) => {
                let end = property_end(s, value.1);
                let rest = body_at(s, end);
                if at(s, value.1) == Some('=') {
                    rest
                } else {
                    (seq![v] + rest.0, rest.1, rest.2)
                }
            },
        }
    }
}

/// The nodes of a whole document.
pub open spec fn document(s: Seq<char>) -> Seq<NodeView> {
    nodes_at(s, 0, false).0
}

/// Whether a document can be read: no raw string in it opens with hashes that run up to the end of
/// the document.
pub open spec fn readable(s: Seq<char>) -> bool {
    nodes_at(s, 0, false).1 <= s.len()
}

pub proof fn lemma_comment_end(s: Seq<char>, p: int, depth: nat)
    ensures
        comment_end(s, p, depth) >= p,
        p <= s.len() ==> comment_end(s, p, depth) <= s.len(),
    decreases s.len() - p,
{
    if depth == 0 || p >= s.len() {
    } else if s[p] == '/' && at(s, p + 1) == Some('*') {
        lemma_comment_end(s, p + 2, depth + 1);
    } else if s[p] == '*' && at(s, p + 1) == Some('/') {
        lemma_comment_end(s, p + 2, (depth - 1) as nat);
    } else {
        lemma_comment_end(s, p + 1, depth);
    }
}

pub proof fn lemma_space_end(s: Seq<char>, p: int, newlines: bool, held: nat)
    ensures
        space_end(s, p, newlines, held) >= p,
        p <= s.len() ==> space_end(s, p, newlines, held) <= s.len(),
    decreases s.len() - p,
{
    if p >= s.len() {
    } else if breaks_line(s[p]) && held > 0 {
        lemma_space_end(s, past_break(s, p), newlines, (held - 1) as nat);
    } else if breaks_line(s[p]) && !newlines {
    } else if s[p] == '\\' {
        lemma_space_end(s, p + 1, newlines, held + 1);
    } else if s[p] == '/' && at(s, p + 1) == Some('/') {
        let stop = |i: int| s[i] == '\n';
        lemma_first_from(s.len() as int, p + 2, stop);
        lemma_space_end(s, first_from(s.len() as int, p + 2, stop), newlines, held);
    } else if s[p] == '/' && at(s, p + 1) == Some('*') {
        lemma_comment_end(s, p + 2, 1);
        lemma_space_end(s, comment_end(s, p + 2, 1), newlines, held);
    } else if is_white_space(s[p]) {
        lemma_space_end(s, p + 1, newlines, held);
    }
}

/// Whether there's nothing to skip at a position: it's the end of the document, or a character that's
/// neither white space, nor a backslash, nor the start of a comment. A line break is nothing to skip
/// unless `newlines` is set.
pub open spec fn nothing_to_skip(s: Seq<char>, p: int, newlines: bool) -> bool {
    p >= s.len() || {
        &&& s[p] != '\\'
        &&& !(s[p] == '/' && (at(s, p + 1) == Some('/') || at(s, p + 1) == Some('*')))
        &&& is_white_space(s[p]) ==> breaks_line(s[p]) && !newlines
    }
}

/// Skipping white space and comments goes no way back, and ends where there's nothing to skip, so
/// doing it again moves nothing.
pub proof fn law_space_is_skipped_whole(s: Seq<char>, p: int, newlines: bool, held: nat)
    ensures
        space_end(s, p, newlines, held) >= p,
        p <= s.len() ==> space_end(s, p, newlines, held) <= s.len(),
        nothing_to_skip(s, space_end(s, p, newlines, held), newlines),
        space_end(s, space_end(s, p, newlines, held), newlines, 0) == space_end(s, p, newlines, held),
    decreases s.len() - p,
{
    lemma_space_end(s, p, newlines, held);
    if p >= s.len() {
    } else if breaks_line(s[p]) && held > 0 {
        law_space_is_skipped_whole(s, past_break(s, p), newlines, (held - 1) as nat);
    } else if breaks_line(s[p]) && !newlines {
    } else if s[p] == '\\' {
        law_space_is_skipped_whole(s, p + 1, newlines, held + 1);
    } else if s[p] == '/' && at(s, p + 1) == Some('/') {
        let stop = |i: int| s[i] == '\n';
        lemma_first_from(s.len() as int, p + 2, stop);
        law_space_is_skipped_whole(s, first_from(s.len() as int, p + 2, stop), newlines, held);
    } else if s[p] == '/' && at(s, p + 1) == Some('*') {
        lemma_comment_end(s, p + 2, 1);
        law_space_is_skipped_whole(s, comment_end(s, p + 2, 1), newlines, held);
    } else if is_white_space(s[p]) {
        law_space_is_skipped_whole(s, p + 1, newlines, held);
    }
}

pub proof fn lemma_annotation_end(s: Seq<char>, p: int)
    ensures
        annotation_end(s, p) >= p,
        p <= s.len() ==> annotation_end(s, p) <= s.len(),
{
    lemma_first_from(s.len() as int, p, |i: int| s[i] == ')');
}

pub proof fn lemma_quoted_rest(s: Seq<char>, p: int)
    ensures
        quoted_rest(s, p).1 >= p,
        p <= s.len() ==> quoted_rest(s, p).1 <= s.len(),
    decreases s.len() - p,
{
    if p >= s.len() || s[p] == '"' {
    } else if s[p] == '\\' {
        if p + 1 < s.len() {
            lemma_quoted_rest(s, p + 2);
        }
    } else {
        lemma_quoted_rest(s, p + 1);
    }
}

pub proof fn lemma_raw_string_at(s: Seq<char>, p: int)
    requires
        0 <= p < s.len(),
    ensures
        p < raw_string_at(s, p).1 <= s.len() + 1,
{
    let len = s.len() as int;
    let first = if s[p] == 'r' {
        p + 1
    } else {
        p
    };
    let not_hash = |i: int| s[i] != '#';
    lemma_first_from(len, first, not_hash);
    let quote = first_from(len, first, not_hash);
    let hashes = quote - first;
    if quote < len {
        let closes = |i: int| closes_raw(s, i, hashes);
        lemma_first_from(len, quote + 1, closes);
        let close = first_from(len, quote + 1, closes);
        if close < len {
            assert(closes_raw(s, close, hashes));
            if hashes > 0 {
                assert(at(s, close + hashes) == Some('#'));
            }
        }
    }
}

pub proof fn lemma_value_at(s: Seq<char>, p: int)
    ensures
        value_at(s, p).1 >= p,
        value_at(s, p).0 is Some ==> p < s.len() && value_at(s, p).1 > p,
        0 <= p <= s.len() ==> value_at(s, p).1 <= s.len() + 1,
{
    if at(s, p) == Some('"') {
        lemma_quoted_rest(s, p + 1);
    } else if opens_raw(s, p) {
        lemma_raw_string_at(s, p);
    } else {
        lemma_first_from(s.len() as int, p, |i: int| ends_bare(s, i));
    }
}

pub proof fn lemma_property_end(s: Seq<char>, p: int)
    ensures
        property_end(s, p) >= p,
        0 <= p <= s.len() ==> property_end(s, p) <= s.len() + 1,
{
    lemma_annotation_end(s, p + 1);
    lemma_value_at(s, annotation_end(s, p + 1));
}


/// Text with a backslash ahead of each quote and backslash.
pub open spec fn escaped(text: Seq<char>) -> Seq<char>
    decreases text.len(),
{
    if text.len() == 0 {
        Seq::empty()
    } else if text[0] == '"' || text[0] == '\\' {
        seq!['\\', text[0]] + escaped(text.skip(1))
    } else {
        seq![text[0]] + escaped(text.skip(1))
    }
}

/// Text as a quoted string.
pub open spec fn quoted(text: Seq<char>) -> Seq<char> {
    seq!['"'] + escaped(text) + seq!['"']
}

proof fn lemma_quoted_reads_back(s: Seq<char>, p: int, text: Seq<char>)
    requires
        0 <= p,
        p + escaped(text).len() + 1 <= s.len(),
        s.subrange(p, p + escaped(text).len() + 1) == escaped(text) + seq!['"'],
    ensures
        quoted_rest(s, p) == (text, p + escaped(text).len() + 1),
    decreases text.len(),
{
    let written = escaped(text) + seq!['"'];
    let there = s.subrange(p, p + written.len());
    assert(forall|i: int| 0 <= i < written.len() ==> s[p + i] == #[trigger] there[i]);
    if text.len() == 0 {
        assert(there[0] == '"');
        assert(text =~= Seq::empty());
    } else {
        let rest = text.skip(1);
        let width: int = if text[0] == '"' || text[0] == '\\' {
            2
        } else {
            1
        };
        assert(there[0] == written[0]);
        assert(s.subrange(p + width, p + width + escaped(rest).len() + 1) =~= escaped(rest) + seq![
            '"',
        ]) by {
            assert forall|i: int| 0 <= i < escaped(rest).len() + 1 implies #[trigger] s.subrange(
                p + width,
                p + width + escaped(rest).len() + 1,
            )[i] == (escaped(rest) + seq!['"'])[i] by {
                assert(there[i + width] == written[i + width]);
            }
        }
        lemma_quoted_reads_back(s, p + width, rest);
        if width == 2 {
            assert(there[1] == written[1]);
        }
        assert(seq![text[0]] + rest =~= text);
    }
}

/// A quoted string reads back as the text it was made from, whatever is in it, and wherever in a
/// document it stands.
pub proof fn law_quoted_text_reads_back(before: Seq<char>, text: Seq<char>, after: Seq<char>)
    ensures
        value_at(before + quoted(text) + after, before.len() as int) == (
            Some(text),
            (before.len() + quoted(text).len()) as int,
        ),
{
    let s = before + quoted(text) + after;
    let p = before.len() as int;
    assert(s[p] == '"');
    assert(s.subrange(p + 1, p + 1 + escaped(text).len() + 1) =~= escaped(text) + seq!['"']);
    lemma_quoted_reads_back(s, p + 1, text);
}

/// So many hashes.
pub open spec fn hashes(n: nat) -> Seq<char> {
    Seq::new(n, |i: int| '#')
}

/// The end of a raw string.
pub open spec fn raw_close(n: nat) -> Seq<char> {
    seq!['"'] + hashes(n)
}

/// The start of a raw string, KDL 1's if `r` is set and KDL 2's otherwise.
pub open spec fn raw_open(n: nat, r: bool) -> Seq<char> {
    if r {
        seq!['r'] + hashes(n) + seq!['"']
    } else {
        hashes(n) + seq!['"']
    }
}

/// Text as a raw string.
pub open spec fn raw(text: Seq<char>, n: nat, r: bool) -> Seq<char> {
    raw_open(n, r) + (text + raw_close(n))
}

proof fn lemma_first_is(len: int, p: int, stop: spec_fn(int) -> bool, q: int)
    requires
        p <= q < len,
        stop(q),
        forall|i: int| p <= i < q ==> !#[trigger] stop(i),
    ensures
        first_from(len, p, stop) == q,
{
    lemma_first_from(len, p, stop);
    let f = first_from(len, p, stop);
    if f < q {
        assert(!stop(f));
    } else if f > q {
        assert(!stop(q));
    }
}

/// A raw string reads back as the text it was made from, wherever in a document it stands, as long as
/// it's opened with enough hashes that nothing in the text closes it.
pub proof fn law_raw_text_reads_back(
    before: Seq<char>,
    text: Seq<char>,
    n: nat,
    r: bool,
    after: Seq<char>,
)
    requires
        r || n > 0,
        forall|i: int|
            0 <= i < text.len() ==> !#[trigger] closes_raw(text + raw_close(n), i, n as int),
    ensures
        value_at(before + raw(text, n, r) + after, before.len() as int) == (
            Some(text),
            (before.len() + raw(text, n, r).len()) as int,
        ),
{
    let s = before + raw(text, n, r) + after;
    let len = s.len() as int;
    let p = before.len() as int;
    let open = raw_open(n, r);
    let rest = text + raw_close(n);
    let first = if r {
        p + 1
    } else {
        p
    };
    let quote = first + n;
    let close = quote + 1 + text.len();
    assert forall|i: int| 0 <= i < open.len() implies #[trigger] open[i] == s[p + i] by {
        assert(raw(text, n, r)[i] == open[i]);
    }
    assert forall|i: int| 0 <= i < rest.len() implies #[trigger] rest[i] == s[quote + 1 + i] by {
        assert(raw(text, n, r)[open.len() + i] == rest[i]);
    }
    assert forall|i: int| first <= i < quote implies #[trigger] s[i] == '#' by {
        assert(open[i - p] == s[p + (i - p)]);
    }
    assert(open[quote - p] == s[quote]);
    assert(open[0] == s[p]);
    let not_hash = |i: int| s[i] != '#';
    lemma_first_is(len, first, not_hash, quote);
    let closes = |i: int| closes_raw(s, i, n as int);
    assert forall|i: int| quote + 1 <= i < close implies !#[trigger] closes(i) by {
        let j = i - quote - 1;
        assert(rest[j] == s[i]);
        assert(!closes_raw(rest, j, n as int));
        if s[i] == '"' {
            let k = choose|k: int| 1 <= k <= n && #[trigger] at(rest, j + k) != Some('#');
            assert(rest[j + k] == s[quote + 1 + (j + k)]);
            assert(at(s, i + k) != Some('#'));
        }
    }
    assert(rest[text.len() as int] == s[close]);
    assert forall|k: int| 1 <= k <= n implies #[trigger] at(s, close + k) == Some('#') by {
        assert(rest[text.len() + k] == s[quote + 1 + (text.len() + k)]);
    }
    assert(closes(close));
    lemma_first_is(len, quote + 1, closes, close);
    assert(s.subrange(quote + 1, close) =~= text) by {
        assert forall|i: int| 0 <= i < text.len() implies s[quote + 1 + i] == #[trigger] text[i] by {
            assert(rest[i] == s[quote + 1 + i]);
        }
    }
    if n > 0 {
        assert(s[first] == '#');
        if n > 1 {
            assert(s[first + 1] == '#');
        }
    }
    assert(opens_raw(s, p));
}

/// Reads a document into its nodes, or returns `None` if it can't be read.
pub fn try_parse(source: &str) -> (r: Option<Vec<Node>>)
    ensures
        r is Some <==> readable(source@),
        r is Some ==> all_say(r->0@) == document(source@),
{
    let mut parser = Parser { chars: chars_of(source), pos: 0, broken: false };
    let nodes = parser.nodes(false);
    if parser.broken {
        None
    } else {
        Some(nodes)
    }
}

/// Reads a document into its nodes.
pub fn parse(source: &str) -> (nodes: Vec<Node>)
    requires
        readable(source@),
    ensures
        all_say(nodes@) == document(source@),
{
    let mut parser = Parser { chars: chars_of(source), pos: 0, broken: false };
    parser.nodes(false)
}

/// A document being read.
struct Parser {
    chars: Vec<char>,
    pos: usize,
    /// Whether a raw string's opening hashes ran up to the end of the document.
    broken: bool,
}

impl Parser {
    spec fn wf(self) -> bool {
        &&& self.pos <= self.chars.len()
        &&& self.broken ==> self.pos == self.chars@.len()
    }

    /// Where the parser has got to, as the grammar counts it.
    spec fn reached(self) -> int {
        if self.broken {
            self.chars@.len() as int + 1
        } else {
            self.pos as int
        }
    }

    fn peek(&self) -> (c: Option<char>)
        requires
            self.wf(),
        ensures
            c == at(self.chars@, self.reached()),
            c is Some ==> !self.broken && self.pos < self.chars.len(),
    {
        if self.pos < self.chars.len() {
            Some(self.chars[self.pos])
        } else {
            None
        }
    }

    fn peek_at(&self, offset: usize) -> (c: Option<char>)
        requires
            self.wf(),
        ensures
            !self.broken ==> c == at(self.chars@, self.pos + offset),
            c is Some ==> self.pos + offset < self.chars.len(),
    {
        if offset < self.chars.len() - self.pos {
            Some(self.chars[self.pos + offset])
        } else {
            None
        }
    }

    /// Reads nodes until the end of the input, or the closing brace of a children block.
    fn nodes(&mut self, in_block: bool) -> (nodes: Vec<Node>)
        requires
            old(self).wf(),
        ensures
            final(self).wf(),
            final(self).chars@ == old(self).chars@,
            all_say(nodes@) == nodes_at(old(self).chars@, old(self).reached(), in_block).0,
            final(self).reached() == nodes_at(old(self).chars@, old(self).reached(), in_block).1,
            final(self).reached() >= old(self).reached(),
        decreases left(old(self).chars@, old(self).reached()), 2int,
    {
        let ghost s = self.chars@;
        let ghost start = self.reached();
        let mut nodes: Vec<Node> = Vec::new();
        loop
            invariant_except_break
                self.wf(),
                self.chars@ == s,
                old(self).chars@ == s,
                old(self).reached() == start,
                self.reached() >= start,
                nodes_at(s, start, in_block).0 == all_say(nodes@) + nodes_at(s, self.reached(), in_block).0,
                nodes_at(s, start, in_block).1 == nodes_at(s, self.reached(), in_block).1,
            ensures
                self.wf(),
                self.chars@ == s,
                self.reached() >= start,
                all_say(nodes@) == nodes_at(s, start, in_block).0,
                self.reached() == nodes_at(s, start, in_block).1,
            decreases left(s, self.reached()),
        {
            let ghost p = self.reached();
            let ghost q = space_end(s, p, true, 0);
            self.skip_space(true);
            proof {
                lemma_space_end(s, p, true, 0);
            }
            match self.peek() {
                None => {
                    break;
                },
                Some(c) => {
                    if c == '}' && in_block {
                        self.pos += 1;
                        break;
                    } else if c == ';' || c == '}' {
                        self.pos += 1;
                    } else if c == '/' && self.peek_at(1) == Some('-') {
                        // A slashdash comments out the whole node after it.
                        self.pos += 2;
                        proof {
                            lemma_space_end(s, q + 2, true, 0);
                        }
                        self.skip_space(true);
                        let _ = self.node();
                    } else {
                        let from: usize = self.pos;
                        let ghost before = nodes@;
                        match self.node() {
                            Some(node) => {
                                proof {
                                    assert(nodes@.push(node).drop_last() =~= nodes@);
                                }
                                nodes.push(node);
                            },
                            None => {
                                // Something we don't understand; skip it rather than looping
                                // forever.
                                if self.pos == from {
                                    self.pos += 1;
                                }
                            },
                        }
                    }
                },
            }
        }
        nodes
    }

    /// Reads one node: a name, then arguments and properties, then maybe a children block.
    fn node(&mut self) -> (node: Option<Node>)
        requires
            old(self).wf(),
        ensures
            final(self).wf(),
            final(self).chars@ == old(self).chars@,
            match node_at(old(self).chars@, old(self).reached()).0 {
                Some(n) => node is Some && node->0.says() == n,
                None => node is None,
            },
            final(self).reached() == node_at(old(self).chars@, old(self).reached()).1,
            final(self).reached() >= old(self).reached(),
            node is Some ==> final(self).reached() > old(self).reached(),
        decreases left(old(self).chars@, old(self).reached()), 1int,
    {
        let ghost s = self.chars@;
        let ghost p = self.reached();
        proof {
            lemma_annotation_end(s, p);
            lemma_value_at(s, annotation_end(s, p));
        }
        self.skip_annotation();
        let name = match self.value() {
            Some(name) => name,
            None => return None,
        };
        let (args, children) = self.body();
        Some(Node { name, args, children })
    }

    /// Reads what follows a node's name.
    fn body(&mut self) -> (r: (Vec<String>, Vec<Node>))
        requires
            old(self).wf(),
        ensures
            final(self).wf(),
            final(self).chars@ == old(self).chars@,
            texts(r.0@) == body_at(old(self).chars@, old(self).reached()).0,
            all_say(r.1@) == body_at(old(self).chars@, old(self).reached()).1,
            final(self).reached() == body_at(old(self).chars@, old(self).reached()).2,
            final(self).reached() >= old(self).reached(),
        decreases left(old(self).chars@, old(self).reached()), 0int,
    {
        let ghost s = self.chars@;
        let ghost start = self.reached();
        let mut args: Vec<String> = Vec::new();
        let mut children: Vec<Node> = Vec::new();
        loop
            invariant_except_break
                self.wf(),
                self.chars@ == s,
                old(self).chars@ == s,
                old(self).reached() == start,
                self.reached() >= start,
                children@.len() == 0,
                body_at(s, start).0 == texts(args@) + body_at(s, self.reached()).0,
                body_at(s, start).1 == body_at(s, self.reached()).1,
                body_at(s, start).2 == body_at(s, self.reached()).2,
            ensures
                self.wf(),
                self.chars@ == s,
                self.reached() >= start,
                texts(args@) == body_at(s, start).0,
                all_say(children@) == body_at(s, start).1,
                self.reached() == body_at(s, start).2,
            decreases left(s, self.reached()),
        {
            let ghost p = self.reached();
            let ghost q = space_end(s, p, false, 0);
            self.skip_space(false);
            proof {
                lemma_space_end(s, p, false, 0);
            }
            match self.peek() {
                None => {
                    break;
                },
                Some(c) => {
                    if c == '\n' || c == '\r' || c == ';' || c == '}' {
                        break;
                    } else if c == '{' {
                        self.pos += 1;
                        children = self.nodes(true);
                        break;
                    } else if c == '/' && self.peek_at(1) == Some('-') {
                        // Slashdash on an argument or a children block drops just that.
                        self.pos += 2;
                        let ghost r = space_end(s, q + 2, false, 0);
                        proof {
                            lemma_space_end(s, q + 2, false, 0);
                        }
                        self.skip_space(false);
                        if self.peek() == Some('{') {
                            self.pos += 1;
                            let _ = self.nodes(true);
                        } else {
                            proof {
                                lemma_annotation_end(s, r);
                                lemma_value_at(s, annotation_end(s, r));
                                lemma_property_end(s, value_at(s, annotation_end(s, r)).1);
                            }
                            self.skip_annotation();
                            let _ = self.value();
                            let _ = self.property_value();
                        }
                    } else {
                        proof {
                            lemma_annotation_end(s, q);
                            lemma_value_at(s, annotation_end(s, q));
                            lemma_property_end(s, value_at(s, annotation_end(s, q)).1);
                        }
                        self.skip_annotation();
                        match self.value() {
                            None => {
                                // Something we don't understand; skip it rather than looping
                                // forever.
                                if self.pos < self.chars.len() {
                                    self.pos += 1;
                                }
                            },
                            Some(value) => {
                                if !self.property_value() {
                                    proof {
                                        assert(texts(args@.push(value)) =~= texts(args@).push(value@));
                                    }
                                    args.push(value);
                                }
                            },
                        }
                    }
                },
            }
        }
        (args, children)
    }

    /// If a property's `=` follows, reads and discards its value, returning true.
    fn property_value(&mut self) -> (r: bool)
        requires
            old(self).wf(),
        ensures
            final(self).wf(),
            final(self).chars@ == old(self).chars@,
            r == (at(old(self).chars@, old(self).reached()) == Some('=')),
            final(self).reached() == property_end(old(self).chars@, old(self).reached()),
    {
        if self.peek() != Some('=') {
            return false;
        }
        self.pos += 1;
        self.skip_annotation();
        let _ = self.value();
        true
    }

    /// Skips a type annotation, like `(u8)`.
    fn skip_annotation(&mut self)
        requires
            old(self).wf(),
        ensures
            final(self).wf(),
            final(self).chars@ == old(self).chars@,
            final(self).reached() == annotation_end(old(self).chars@, old(self).reached()),
    {
        if self.peek() == Some('(') {
            let ghost s = self.chars@;
            let ghost stop = |i: int| s[i] == ')';
            let ghost end = first_from(s.len() as int, self.pos as int, stop);
            while self.pos < self.chars.len() && self.chars[self.pos] != ')'
                invariant
                    self.wf(),
                    !self.broken,
                    self.chars@ == s,
                    stop == (|i: int| s[i] == ')'),
                    end == first_from(s.len() as int, self.pos as int, stop),
                decreases s.len() - self.pos,
            {
                self.pos += 1;
            }
            if self.pos < self.chars.len() {
                self.pos += 1;
            }
        }
    }

    /// Reads a string, raw string or bare value.
    fn value(&mut self) -> (r: Option<String>)
        requires
            old(self).wf(),
        ensures
            final(self).wf(),
            final(self).chars@ == old(self).chars@,
            match value_at(old(self).chars@, old(self).reached()).0 {
                Some(v) => r is Some && r->0@ == v,
                None => r is None,
            },
            final(self).reached() == value_at(old(self).chars@, old(self).reached()).1,
    {
        let c = match self.peek() {
            Some(c) => c,
            None => return None,
        };
        if c == '"' {
            return Some(self.string());
        }
        if c == 'r' || c == '#' {
            let next = self.peek_at(1);
            if next == Some('"') || next == Some('#') {
                return Some(self.raw_string());
            }
        }
        let start: usize = self.pos;
        let ghost s = self.chars@;
        let ghost stop = |i: int| ends_bare(s, i);
        let ghost end = bare_end(s, start as int);
        while self.pos < self.chars.len() && !self.at_bare_end()
            invariant
                self.wf(),
                !self.broken,
                self.chars@ == s,
                start <= self.pos,
                stop == (|i: int| ends_bare(s, i)),
                end == first_from(s.len() as int, self.pos as int, stop),
            decreases s.len() - self.pos,
        {
            self.pos += 1;
        }
        if self.pos > start {
            Some(string_of(&self.chars, start, self.pos))
        } else {
            None
        }
    }

    /// Returns true if a bare value ends before the next character.
    fn at_bare_end(&self) -> (r: bool)
        requires
            self.wf(),
            self.pos < self.chars@.len(),
        ensures
            r == ends_bare(self.chars@, self.pos as int),
    {
        let c: char = self.chars[self.pos];
        if white_space(c) || c == '{' || c == '}' || c == '(' || c == ')' || c == ';' || c == '='
            || c == '"' {
            return true;
        }
        if c == '/' {
            let next = self.peek_at(1);
            next == Some('/') || next == Some('*')
        } else {
            false
        }
    }

    /// Reads a quoted string.
    fn string(&mut self) -> (value: String)
        requires
            old(self).wf(),
            at(old(self).chars@, old(self).reached()) == Some('"'),
        ensures
            final(self).wf(),
            final(self).chars@ == old(self).chars@,
            value@ == quoted_rest(old(self).chars@, old(self).pos + 1).0,
            final(self).reached() == quoted_rest(old(self).chars@, old(self).pos + 1).1,
    {
        let ghost s = self.chars@;
        self.pos += 1;
        let ghost whole = quoted_rest(s, self.pos as int);
        let mut value: String = String::new();
        let mut open: bool = true;
        while open && self.pos < self.chars.len()
            invariant
                self.wf(),
                !self.broken,
                self.chars@ == s,
                open ==> whole.0 == value@ + quoted_rest(s, self.pos as int).0,
                open ==> whole.1 == quoted_rest(s, self.pos as int).1,
                !open ==> whole.0 == value@ && whole.1 == self.pos,
            decreases (if open { 1int } else { 0int }), s.len() - self.pos,
        {
            let c: char = self.chars[self.pos];
            let ghost p = self.pos as int;
            self.pos += 1;
            if c == '"' {
                open = false;
            } else if c == '\\' {
                if self.pos < self.chars.len() {
                    let escaped: char = self.chars[self.pos];
                    self.pos += 1;
                    let meant: char = if escaped == 'n' {
                        '\n'
                    } else if escaped == 't' {
                        '\t'
                    } else if escaped == 'r' {
                        '\r'
                    } else {
                        escaped
                    };
                    value.push(meant);
                } else {
                    value.push('\\');
                }
            } else {
                value.push(c);
            }
        }
        value
    }

    /// Reads a raw string, KDL 1's `r#"..."#` or KDL 2's `#"..."#`.
    fn raw_string(&mut self) -> (value: String)
        requires
            old(self).wf(),
            opens_raw(old(self).chars@, old(self).reached()),
        ensures
            final(self).wf(),
            final(self).chars@ == old(self).chars@,
            value@ == raw_string_at(old(self).chars@, old(self).reached()).0,
            final(self).reached() == raw_string_at(old(self).chars@, old(self).reached()).1,
    {
        let ghost s = self.chars@;
        let ghost len = s.len() as int;
        let ghost p = self.pos as int;
        if self.peek() == Some('r') {
            self.pos += 1;
        }
        let first: usize = self.pos;
        let ghost not_hash = |i: int| s[i] != '#';
        let ghost quote = first_from(len, first as int, not_hash);
        while self.pos < self.chars.len() && self.chars[self.pos] == '#'
            invariant
                self.wf(),
                !self.broken,
                self.chars@ == s,
                len == s.len(),
                first <= self.pos,
                not_hash == (|i: int| s[i] != '#'),
                quote == first_from(len, self.pos as int, not_hash),
            decreases s.len() - self.pos,
        {
            self.pos += 1;
        }
        let hashes: usize = self.pos - first;
        if self.pos == self.chars.len() {
            self.broken = true;
            return String::new();
        }
        self.pos += 1;
        let start: usize = self.pos;
        let ghost closes = |i: int| closes_raw(s, i, hashes as int);
        let ghost close = first_from(len, start as int, closes);
        while self.pos < self.chars.len()
            invariant
                self.wf(),
                !self.broken,
                self.chars@ == s,
                len == s.len(),
                start <= self.pos,
                closes == (|i: int| closes_raw(s, i, hashes as int)),
                close == first_from(len, self.pos as int, closes),
                p < len,
                raw_string_at(s, p) == if close < len {
                    (s.subrange(start as int, close), close + 1 + hashes)
                } else {
                    (s.subrange(start as int, len), len)
                },
                old(self).chars@ == s,
                old(self).reached() == p,
            decreases s.len() - self.pos,
        {
            if self.closes_here(hashes) {
                let value = string_of(&self.chars, start, self.pos);
                proof {
                    if hashes > 0 {
                        assert(at(s, self.pos + hashes) == Some('#'));
                    }
                }
                self.pos += 1 + hashes;
                return value;
            }
            self.pos += 1;
        }
        let len: usize = self.chars.len();
        string_of(&self.chars, start, len)
    }

    /// Returns true if a raw string opened with the given number of hashes closes here.
    fn closes_here(&self, hashes: usize) -> (r: bool)
        requires
            self.wf(),
            self.pos < self.chars@.len(),
        ensures
            r == closes_raw(self.chars@, self.pos as int, hashes as int),
    {
        if self.chars[self.pos] != '"' {
            return false;
        }
        let mut k: usize = 0;
        while k < hashes
            invariant
                self.wf(),
                self.pos < self.chars@.len(),
                k <= hashes,
                forall|j: int| 1 <= j <= k ==> #[trigger] at(self.chars@, self.pos + j) == Some('#'),
            decreases hashes - k,
        {
            k += 1;
            if k >= self.chars.len() - self.pos || self.chars[self.pos + k] != '#' {
                assert(at(self.chars@, self.pos + k) != Some('#'));
                return false;
            }
        }
        true
    }

    /// Skips whitespace and comments, and newlines too if `newlines` is set. A backslash
    /// continues a node onto the next line.
    fn skip_space(&mut self, newlines: bool)
        requires
            old(self).wf(),
        ensures
            final(self).wf(),
            final(self).chars@ == old(self).chars@,
            final(self).reached() == space_end(old(self).chars@, old(self).reached(), newlines, 0),
            final(self).reached() >= old(self).reached(),
            nothing_to_skip(final(self).chars@, final(self).reached(), newlines),
    {
        proof {
            law_space_is_skipped_whole(self.chars@, self.reached(), newlines, 0);
        }
        let ghost s = self.chars@;
        let ghost end = space_end(s, self.reached(), newlines, 0);
        let mut held: usize = 0;
        let mut done: bool = self.broken;
        while !done && self.pos < self.chars.len()
            invariant
                self.wf(),
                self.chars@ == s,
                held <= self.pos,
                self.broken ==> done,
                !done ==> end == space_end(s, self.reached(), newlines, held as nat),
                done ==> end == self.reached(),
            decreases (if done { 0int } else { 1int }), s.len() - self.pos,
        {
            let c: char = self.chars[self.pos];
            let next = self.peek_at(1);
            if (c == '\n' || c == '\r') && held > 0 {
                held -= 1;
                if c == '\r' && next == Some('\n') {
                    self.pos += 1;
                }
                self.pos += 1;
            } else if (c == '\n' || c == '\r') && !newlines {
                done = true;
            } else if c == '\\' {
                self.pos += 1;
                held += 1;
            } else if c == '/' && next == Some('/') {
                self.pos += 2;
                self.skip_line();
            } else if c == '/' && next == Some('*') {
                self.pos += 2;
                self.skip_comment();
            } else if white_space(c) {
                self.pos += 1;
            } else {
                done = true;
            }
        }
    }

    /// Skips to the end of the line.
    fn skip_line(&mut self)
        requires
            old(self).wf(),
            !old(self).broken,
        ensures
            final(self).wf(),
            !final(self).broken,
            final(self).chars@ == old(self).chars@,
            final(self).pos >= old(self).pos,
            final(self).pos == first_from(
                old(self).chars@.len() as int,
                old(self).pos as int,
                |i: int| old(self).chars@[i] == '\n',
            ),
    {
        let ghost s = self.chars@;
        let ghost stop = |i: int| s[i] == '\n';
        let ghost end = first_from(s.len() as int, self.pos as int, stop);
        while self.pos < self.chars.len() && self.chars[self.pos] != '\n'
            invariant
                self.wf(),
                !self.broken,
                self.chars@ == s,
                self.pos >= old(self).pos,
                stop == (|i: int| s[i] == '\n'),
                end == first_from(s.len() as int, self.pos as int, stop),
            decreases s.len() - self.pos,
        {
            self.pos += 1;
        }
    }

    /// Skips the rest of a block comment. Block comments nest.
    fn skip_comment(&mut self)
        requires
            old(self).wf(),
            !old(self).broken,
        ensures
            final(self).wf(),
            !final(self).broken,
            final(self).chars@ == old(self).chars@,
            final(self).pos >= old(self).pos,
            final(self).pos == comment_end(old(self).chars@, old(self).pos as int, 1),
    {
        let ghost s = self.chars@;
        let ghost end = comment_end(s, self.pos as int, 1);
        let mut depth: usize = 1;
        while depth > 0 && self.pos < self.chars.len()
            invariant
                self.wf(),
                !self.broken,
                self.chars@ == s,
                self.pos >= old(self).pos,
                depth <= self.pos + 1,
                end == comment_end(s, self.pos as int, depth as nat),
            decreases s.len() - self.pos,
        {
            let c: char = self.chars[self.pos];
            let next = self.peek_at(1);
            if c == '/' && next == Some('*') {
                depth += 1;
                self.pos += 2;
            } else if c == '*' && next == Some('/') {
                depth -= 1;
                self.pos += 2;
            } else {
                self.pos += 1;
            }
        }
    }
}

/// Nodes written out, each on a line of its own: its name and its arguments, all as quoted strings,
/// and then its children in a block.
pub open spec fn written(nodes: Seq<NodeView>) -> Seq<char>
    decreases nodes, 0nat,
{
    if nodes.len() == 0 {
        Seq::empty()
    } else {
        seq!['\n'] + written_node(nodes[0]) + written(nodes.skip(1))
    }
}

/// A node written out.
pub open spec fn written_node(node: NodeView) -> Seq<char>
    decreases node, 1nat,
{
    quoted(node.name) + written_body(node.args, node.children)
}

/// The arguments and the children of a node written out.
pub open spec fn written_body(args: Seq<Seq<char>>, children: Seq<NodeView>) -> Seq<char>
    decreases children, args.len() + 1,
{
    if args.len() == 0 {
        seq![' ', '{'] + (written(children) + seq!['}'])
    } else {
        seq![' '] + (quoted(args[0]) + written_body(args.skip(1), children))
    }
}

/// Where there's nothing to skip, nothing is skipped.
proof fn lemma_no_space(s: Seq<char>, p: int, newlines: bool)
    requires
        nothing_to_skip(s, p, newlines),
    ensures
        space_end(s, p, newlines, 0) == p,
{
}

/// Space or a line break that isn't followed by more to skip is skipped alone.
proof fn lemma_one_space(s: Seq<char>, p: int, newlines: bool)
    requires
        0 <= p < s.len(),
        s[p] == ' ' || (s[p] == '\n' && newlines),
        nothing_to_skip(s, p + 1, newlines),
    ensures
        space_end(s, p, newlines, 0) == p + 1,
{
    lemma_no_space(s, p + 1, newlines);
}

/// Whether a text is the value at a position, up to another.
#[verifier::opaque]
spec fn reads_value(s: Seq<char>, p: int, text: Seq<char>, end: int) -> bool {
    value_at(s, p) == (Some(text), end)
}

/// Whether arguments and children are the body of a node at a position, up to another.
#[verifier::opaque]
spec fn reads_body(
    s: Seq<char>,
    p: int,
    args: Seq<Seq<char>>,
    children: Seq<NodeView>,
    end: int,
) -> bool {
    body_at(s, p) == (args, children, end)
}

/// Whether nodes are the ones at a position, up to another.
#[verifier::opaque]
spec fn reads_nodes(s: Seq<char>, p: int, in_block: bool, nodes: Seq<NodeView>, end: int) -> bool {
    nodes_at(s, p, in_block) == (nodes, end)
}

/// A quoted string is the value it was made from.
proof fn lemma_reads_quoted(before: Seq<char>, text: Seq<char>, after: Seq<char>)
    ensures
        reads_value(
            before + (quoted(text) + after),
            before.len() as int,
            text,
            (before.len() + quoted(text).len()) as int,
        ),
{
    reveal(reads_value);
    law_quoted_text_reads_back(before, text, after);
    lemma_regroup(before, quoted(text), after);
}

/// A block after a node's name or arguments holds its children.
proof fn lemma_block(s: Seq<char>, p: int, children: Seq<NodeView>, end: int)
    requires
        0 <= p,
        p + 1 < s.len(),
        s[p] == ' ',
        s[p + 1] == '{',
        reads_nodes(s, p + 2, true, children, end),
    ensures
        reads_body(s, p, Seq::empty(), children, end),
{
    reveal(reads_body);
    reveal(reads_nodes);
    lemma_one_space(s, p, false);
}

/// A quoted string after a node's name or arguments is another argument.
proof fn lemma_argument(
    s: Seq<char>,
    p: int,
    arg: Seq<char>,
    next: int,
    args: Seq<Seq<char>>,
    children: Seq<NodeView>,
    end: int,
)
    requires
        0 <= p,
        p + 1 < s.len(),
        s[p] == ' ',
        s[p + 1] == '"',
        reads_value(s, p + 1, arg, next),
        0 <= next < s.len(),
        s[next] == ' ',
        reads_body(s, next, args, children, end),
    ensures
        reads_body(s, p, seq![arg] + args, children, end),
{
    reveal(reads_value);
    reveal(reads_body);
    lemma_one_space(s, p, false);
    assert(annotation_end(s, p + 1) == p + 1);
    assert(at(s, next) == Some(' '));
    assert(property_end(s, next) == next);
}

/// A quoted string at the start of a line is the name of a node, which the nodes after it follow.
proof fn lemma_name(
    s: Seq<char>,
    p: int,
    in_block: bool,
    node: NodeView,
    named: int,
    next: int,
    rest: Seq<NodeView>,
    end: int,
)
    requires
        0 <= p,
        p + 1 < s.len(),
        s[p] == '\n',
        s[p + 1] == '"',
        reads_value(s, p + 1, node.name, named),
        reads_body(s, named, node.args, node.children, next),
        next >= p + 2,
        reads_nodes(s, next, in_block, rest, end),
    ensures
        reads_nodes(s, p, in_block, seq![node] + rest, end),
{
    reveal(reads_value);
    reveal(reads_body);
    reveal(reads_nodes);
    lemma_one_space(s, p, true);
    assert(annotation_end(s, p + 1) == p + 1);
    assert(node_at(s, p + 1) == (Some(node), next));
    assert(later(next, p + 2) == next);
}

/// There are no nodes ahead of the closing brace of a block, or of the end of the document.
proof fn lemma_no_nodes(s: Seq<char>, p: int, in_block: bool)
    requires
        0 <= p <= s.len(),
        in_block ==> p < s.len() && s[p] == '}',
        !in_block ==> p == s.len(),
    ensures
        reads_nodes(
            s,
            p,
            in_block,
            Seq::empty(),
            if in_block {
                p + 1
            } else {
                p
            },
        ),
{
    reveal(reads_nodes);
    lemma_no_space(s, p, true);
}

proof fn lemma_regroup(a: Seq<char>, b: Seq<char>, c: Seq<char>)
    ensures
        (a + b) + c == a + (b + c),
{
    assert((a + b) + c =~= a + (b + c));
}

proof fn lemma_first_of(a: Seq<char>, b: Seq<char>)
    requires
        b.len() > 0,
    ensures
        (a + b)[a.len() as int] == b[0],
        (a + b).len() == a.len() + b.len(),
        b.len() > 1 ==> (a + b)[a.len() as int + 1] == b[1],
{
}

proof fn lemma_written_body_first(args: Seq<Seq<char>>, children: Seq<NodeView>)
    ensures
        written_body(args, children).len() > 0,
        written_body(args, children)[0] == ' ',
        args.len() == 0 ==> written_body(args, children).len() > 1 && written_body(args, children)[1]
            == '{',
        args.len() > 0 ==> written_body(args, children).len() > 1 && written_body(args, children)[1]
            == '"',
{
}

/// The arguments and the children of a node that's been written out read back.
proof fn lemma_body_reads_back(
    before: Seq<char>,
    args: Seq<Seq<char>>,
    children: Seq<NodeView>,
    after: Seq<char>,
)
    ensures
        reads_body(
            before + (written_body(args, children) + after),
            before.len() as int,
            args,
            children,
            (before.len() + written_body(args, children).len()) as int,
        ),
    decreases children, args.len() + 1,
{
    let text = written_body(args, children);
    let s = before + (text + after);
    let p = before.len() as int;
    let end = (before.len() + text.len()) as int;
    lemma_written_body_first(args, children);
    lemma_first_of(before, text + after);
    if args.len() == 0 {
        let open = seq![' ', '{'];
        let close = seq!['}'];
        let inner = before + open;
        lemma_regroup(open, written(children) + close, after);
        lemma_regroup(written(children), close, after);
        lemma_regroup(before, open, written(children) + (close + after));
        assert(s == inner + (written(children) + (close + after)));
        lemma_nodes_read_back(inner, children, close + after, true);
        lemma_block(s, p, children, end);
        assert(args =~= Seq::empty());
    } else {
        let arg = args[0];
        let space = seq![' '];
        let rest = written_body(args.skip(1), children);
        let inner = before + space;
        let next = inner + quoted(arg);
        lemma_regroup(space, quoted(arg) + rest, after);
        lemma_regroup(quoted(arg), rest, after);
        lemma_regroup(before, space, quoted(arg) + (rest + after));
        lemma_regroup(inner, quoted(arg), rest + after);
        assert(s == next + (rest + after));
        lemma_reads_quoted(inner, arg, rest + after);
        lemma_written_body_first(args.skip(1), children);
        lemma_first_of(next, rest + after);
        lemma_body_reads_back(next, args.skip(1), children, after);
        lemma_argument(s, p, arg, next.len() as int, args.skip(1), children, end);
        assert(seq![arg] + args.skip(1) =~= args);
    }
}

/// Nodes that have been written out read back, up to the closing brace of the block they're in, or
/// the end of the document.
proof fn lemma_nodes_read_back(
    before: Seq<char>,
    nodes: Seq<NodeView>,
    after: Seq<char>,
    in_block: bool,
)
    requires
        in_block ==> after.len() > 0 && after[0] == '}',
        !in_block ==> after.len() == 0,
    ensures
        reads_nodes(
            before + (written(nodes) + after),
            before.len() as int,
            in_block,
            nodes,
            before.len() + written(nodes).len() + if in_block {
                1int
            } else {
                0
            },
        ),
    decreases nodes, 0nat,
{
    let s = before + (written(nodes) + after);
    let p = before.len() as int;
    if nodes.len() == 0 {
        assert(s =~= before + after);
        assert(nodes =~= Seq::empty());
        lemma_no_nodes(s, p, in_block);
    } else {
        let node = nodes[0];
        let line = seq!['\n'];
        let name = quoted(node.name);
        let body = written_body(node.args, node.children);
        let rest = written(nodes.skip(1));
        let tail = rest + after;
        let inner = before + line;
        let named = inner + name;
        let end = before.len() + written(nodes).len() + if in_block {
            1int
        } else {
            0
        };
        assert(written_node(node) == name + body);
        assert(written(nodes) == line + written_node(node) + rest);
        lemma_regroup(line, name + body, rest);
        lemma_regroup(name, body, rest);
        lemma_regroup(line, name + (body + rest), after);
        lemma_regroup(name, body + rest, after);
        lemma_regroup(body, rest, after);
        lemma_regroup(before, line, name + (body + tail));
        lemma_regroup(inner, name, body + tail);
        lemma_regroup(named, body, tail);
        assert(s == named + (body + tail));
        lemma_first_of(before, line + (name + (body + tail)));
        lemma_reads_quoted(inner, node.name, body + tail);
        lemma_body_reads_back(named, node.args, node.children, tail);
        lemma_nodes_read_back(named + body, nodes.skip(1), after, in_block);
        lemma_name(
            s,
            p,
            in_block,
            node,
            named.len() as int,
            (named.len() + body.len()) as int,
            nodes.skip(1),
            end,
        );
        assert(seq![node] + nodes.skip(1) =~= nodes);
    }
}

/// Whatever nodes there are, a document that has them written out, with their names, their arguments
/// and their children, reads back as those nodes.
pub proof fn law_nodes_read_back(nodes: Seq<NodeView>)
    ensures
        document(written(nodes)) == nodes,
        readable(written(nodes)),
{
    lemma_nodes_read_back(Seq::empty(), nodes, Seq::empty(), false);
    reveal(reads_nodes);
    assert(Seq::empty() + (written(nodes) + Seq::empty()) =~= written(nodes));
}

/// In a quoted string, a backslash and an `n`, `t` or `r` stand for a line feed, a tab or a carriage
/// return, and a backslash and any other character for that character.
pub proof fn law_escapes_stand_for_characters(s: Seq<char>, p: int)
    requires
        0 <= p,
        p + 1 < s.len(),
        s[p] == '\\',
    ensures
        ({
            let (text, end) = quoted_rest(s, p);
            let (rest, rest_end) = quoted_rest(s, p + 2);
            &&& end == rest_end
            &&& text.len() == rest.len() + 1
            &&& text.skip(1) == rest
            &&& s[p + 1] == 'n' ==> text[0] == '\n'
            &&& s[p + 1] == 't' ==> text[0] == '\t'
            &&& s[p + 1] == 'r' ==> text[0] == '\r'
            &&& s[p + 1] != 'n' && s[p + 1] != 't' && s[p + 1] != 'r' ==> text[0] == s[p + 1]
        }),
{
    let rest = quoted_rest(s, p + 2).0;
    assert((seq![unescaped(s[p + 1])] + rest).skip(1) =~= rest);
}

/// Two slashes comment out the rest of the line, whatever is on it.
pub proof fn law_line_comments_are_skipped(
    before: Seq<char>,
    text: Seq<char>,
    after: Seq<char>,
    newlines: bool,
)
    requires
        !text.contains('\n'),
        after.len() > 0 ==> after[0] == '\n',
    ensures
        ({
            let s = before + seq!['/', '/'] + text + after;
            space_end(s, before.len() as int, newlines, 0) == space_end(
                s,
                (before.len() + 2 + text.len()) as int,
                newlines,
                0,
            )
        }),
{
    let s = before + seq!['/', '/'] + text + after;
    let p = before.len() as int;
    let end = (p + 2 + text.len()) as int;
    let stop = |i: int| s[i] == '\n';
    assert(s[p] == '/' && s[p + 1] == '/');
    assert forall|i: int| p + 2 <= i < end implies !#[trigger] stop(i) by {
        assert(s[i] == text[i - p - 2]);
    }
    if end < s.len() {
        assert(s[end] == after[0]);
        lemma_first_is(s.len() as int, p + 2, stop, end);
    } else {
        lemma_first_from(s.len() as int, p + 2, stop);
        let f = first_from(s.len() as int, p + 2, stop);
        if f < s.len() {
            assert(stop(f));
        }
    }
}

/// A comment's text, made of plain text and comments in turn, each of which may hold others.
pub open spec fn comment_text(parts: Seq<(Seq<char>, nat)>) -> Seq<char>
    decreases parts.len(),
{
    if parts.len() == 0 {
        Seq::empty()
    } else {
        parts[0].0 + nested(parts[0].1) + comment_text(parts.skip(1))
    }
}

/// So many comments inside each other, with nothing else in them.
pub open spec fn nested(depth: nat) -> Seq<char>
    decreases depth,
{
    if depth == 0 {
        Seq::empty()
    } else {
        seq!['/', '*'] + nested((depth - 1) as nat) + seq!['*', '/']
    }
}

/// Whether text has neither slashes nor stars in it.
pub open spec fn is_plain(text: Seq<char>) -> bool {
    forall|i: int| 0 <= i < text.len() ==> #[trigger] text[i] != '/' && text[i] != '*'
}

proof fn lemma_comment_plain(before: Seq<char>, text: Seq<char>, after: Seq<char>, depth: nat)
    requires
        is_plain(text),
        depth > 0,
    ensures
        comment_end(before + text + after, before.len() as int, depth) == comment_end(
            before + text + after,
            (before.len() + text.len()) as int,
            depth,
        ),
    decreases text.len(),
{
    let s = before + text + after;
    if text.len() > 0 {
        let next = before.push(text[0]);
        assert(s =~= next + text.skip(1) + after);
        assert(s[before.len() as int] == text[0]);
        assert(is_plain(text.skip(1)));
        lemma_comment_plain(next, text.skip(1), after, depth);
    }
}

proof fn lemma_comment_nested(before: Seq<char>, levels: nat, after: Seq<char>, depth: nat)
    requires
        depth > 0,
    ensures
        comment_end(before + nested(levels) + after, before.len() as int, depth) == comment_end(
            before + nested(levels) + after,
            (before.len() + nested(levels).len()) as int,
            depth,
        ),
    decreases levels,
{
    let s = before + nested(levels) + after;
    let p = before.len() as int;
    if levels > 0 {
        let (open, close) = (seq!['/', '*'], seq!['*', '/']);
        let inner = nested((levels - 1) as nat);
        assert(s =~= (before + open) + inner + (close + after));
        assert(s[p] == '/' && s[p + 1] == '*');
        lemma_comment_nested(before + open, (levels - 1) as nat, close + after, depth + 1);
        let q = (p + 2 + inner.len()) as int;
        assert(s[q] == '*' && s[q + 1] == '/');
        assert(comment_end(s, q, depth + 1) == comment_end(s, q + 2, depth));
    }
}

proof fn lemma_comment_text(
    before: Seq<char>,
    parts: Seq<(Seq<char>, nat)>,
    after: Seq<char>,
    depth: nat,
)
    requires
        depth > 0,
        forall|i: int| 0 <= i < parts.len() ==> is_plain((#[trigger] parts[i]).0),
    ensures
        comment_end(before + comment_text(parts) + after, before.len() as int, depth) == comment_end(
            before + comment_text(parts) + after,
            (before.len() + comment_text(parts).len()) as int,
            depth,
        ),
    decreases parts.len(),
{
    if parts.len() > 0 {
        let (text, levels) = parts[0];
        let rest = comment_text(parts.skip(1));
        let s = before + comment_text(parts) + after;
        assert(is_plain(parts[0].0));
        assert(s =~= before + text + (nested(levels) + rest + after));
        lemma_comment_plain(before, text, nested(levels) + rest + after, depth);
        assert(s =~= (before + text) + nested(levels) + (rest + after));
        lemma_comment_nested(before + text, levels, rest + after, depth);
        assert(s =~= (before + text + nested(levels)) + rest + after);
        assert forall|i: int| 0 <= i < parts.skip(1).len() implies is_plain(
            (#[trigger] parts.skip(1)[i]).0,
        ) by {
            assert(parts.skip(1)[i] == parts[i + 1]);
        }
        lemma_comment_text(before + text + nested(levels), parts.skip(1), after, depth);
    }
}

/// A slash and a star comment out everything up to the star and slash that go with them, past any
/// comments inside and across lines.
pub proof fn law_block_comments_are_skipped(
    before: Seq<char>,
    parts: Seq<(Seq<char>, nat)>,
    after: Seq<char>,
    newlines: bool,
)
    requires
        forall|i: int| 0 <= i < parts.len() ==> is_plain((#[trigger] parts[i]).0),
    ensures
        ({
            let s = before + (seq!['/', '*'] + comment_text(parts) + seq!['*', '/']) + after;
            space_end(s, before.len() as int, newlines, 0) == space_end(
                s,
                (before.len() + comment_text(parts).len() + 4) as int,
                newlines,
                0,
            )
        }),
{
    let (open, close) = (seq!['/', '*'], seq!['*', '/']);
    let text = comment_text(parts);
    let s = before + (open + text + close) + after;
    let p = before.len() as int;
    let q = (p + 2 + text.len()) as int;
    assert(s =~= (before + open) + text + (close + after));
    assert(s[p] == '/' && s[p + 1] == '*');
    lemma_comment_text(before + open, parts, close + after, 1);
    assert(s[q] == '*' && s[q + 1] == '/');
    assert(comment_end(s, q, 1) == comment_end(s, q + 2, 0));
    assert(comment_end(s, p + 2, 1) == q + 2);
}

/// Whether text can stand for itself, without quotes: it has no white space in it, and none of the
/// characters that mean something else.
pub open spec fn is_bare(text: Seq<char>) -> bool {
    forall|i: int|
        0 <= i < text.len() ==> {
            let c = #[trigger] text[i];
            &&& !is_white_space(c)
            &&& c != '{' && c != '}' && c != '(' && c != ')' && c != ';' && c != '=' && c != '"' && c
                != '/' && c != '#'
        }
}

/// Text that can stand for itself reads back as it is, up to white space, an equals sign, a semicolon
/// or a brace, or the end of the document.
pub proof fn law_bare_text_reads_back(before: Seq<char>, text: Seq<char>, after: Seq<char>)
    requires
        text.len() > 0,
        is_bare(text),
        after.len() > 0 ==> is_white_space(after[0]) || after[0] == '=' || after[0] == ';' || after[0]
            == '{' || after[0] == '}',
    ensures
        value_at(before + text + after, before.len() as int) == (
            Some(text),
            (before.len() + text.len()) as int,
        ),
{
    let s = before + text + after;
    let p = before.len() as int;
    let end = (before.len() + text.len()) as int;
    let stop = |i: int| ends_bare(s, i);
    assert(s[p] == text[0]);
    if text.len() > 1 {
        assert(s[p + 1] == text[1]);
    } else if after.len() > 0 {
        assert(s[p + 1] == after[0]);
    }
    assert forall|i: int| p <= i < end implies !#[trigger] stop(i) by {
        assert(s[i] == text[i - p]);
    }
    if end < s.len() {
        assert(s[end] == after[0]);
        assert(stop(end));
        lemma_first_is(s.len() as int, p, stop, end);
    } else {
        lemma_first_from(s.len() as int, p, stop);
        let f = first_from(s.len() as int, p, stop);
        if f < s.len() {
            assert(!stop(f));
        }
    }
    assert(s.subrange(p, end) =~= text);
}

/// A node's body ends at the end of the line, at a semicolon, and at a closing brace.
pub proof fn law_lines_end_nodes(s: Seq<char>, p: int)
    requires
        0 <= p < s.len(),
        s[p] == '\n' || s[p] == ';' || s[p] == '}',
    ensures
        body_at(s, p) == (Seq::<Seq<char>>::empty(), Seq::<NodeView>::empty(), p),
{
    lemma_no_space(s, p, false);
}

/// A property, which is a name, an equals sign and a value, is no argument: what follows it is all
/// there is.
pub proof fn law_properties_are_dropped(
    before: Seq<char>,
    name: Seq<char>,
    value: Seq<char>,
    after: Seq<char>,
)
    requires
        name.len() > 0,
        is_bare(name),
        name[0] != '\\',
    ensures
        ({
            let s = before + (seq![' '] + name + seq!['='] + quoted(value)) + after;
            body_at(s, before.len() as int) == body_at(
                s,
                (before.len() + name.len() + quoted(value).len() + 2) as int,
            )
        }),
{
    let (space, equals) = (seq![' '], seq!['=']);
    let s = before + (space + name + equals + quoted(value)) + after;
    let p = before.len() as int;
    let q = (p + 1 + name.len()) as int;
    assert(s =~= (before + space) + name + (equals + quoted(value) + after));
    law_bare_text_reads_back(before + space, name, equals + quoted(value) + after);
    assert(s =~= (before + space + name + equals) + quoted(value) + after);
    law_quoted_text_reads_back(before + space + name + equals, value, after);
    assert(s[p] == ' ' && s[p + 1] == name[0]);
    assert(s[q] == '=' && s[q + 1] == '"');
    lemma_one_space(s, p, false);
    assert(annotation_end(s, p + 1) == p + 1);
    assert(annotation_end(s, q + 1) == q + 1);
    assert(value_at(s, p + 1) == (Some(name), q));
    assert(at(s, q) == Some('='));
}

/// A slash and a dash ahead of an argument drop just that.
pub proof fn law_slashdash_drops_an_argument(before: Seq<char>, value: Seq<char>, after: Seq<char>)
    requires
        after.len() > 0,
        after[0] != '=',
    ensures
        ({
            let s = before + (seq![' ', '/', '-'] + quoted(value)) + after;
            body_at(s, before.len() as int) == body_at(
                s,
                (before.len() + quoted(value).len() + 3) as int,
            )
        }),
{
    let dash = seq![' ', '/', '-'];
    let s = before + (dash + quoted(value)) + after;
    let p = before.len() as int;
    let end = (p + 3 + quoted(value).len()) as int;
    assert(s =~= (before + dash) + quoted(value) + after);
    law_quoted_text_reads_back(before + dash, value, after);
    assert(s[p] == ' ' && s[p + 1] == '/' && s[p + 2] == '-' && s[p + 3] == '"');
    lemma_one_space(s, p, false);
    lemma_no_space(s, p + 3, false);
    assert(annotation_end(s, p + 3) == p + 3);
    assert(s[end] == after[0]);
    assert(property_end(s, end) == end);
}

/// A slash and a dash ahead of a node drop all of it, with its arguments and its children.
pub proof fn law_slashdash_drops_a_node(
    before: Seq<char>,
    node: NodeView,
    after: Seq<char>,
    in_block: bool,
)
    ensures
        ({
            let s = before + (seq!['\n', '/', '-'] + written_node(node)) + after;
            nodes_at(s, before.len() as int, in_block) == nodes_at(
                s,
                (before.len() + written_node(node).len() + 3) as int,
                in_block,
            )
        }),
{
    let dash = seq!['\n', '/', '-'];
    let name = quoted(node.name);
    let body = written_body(node.args, node.children);
    let s = before + (dash + written_node(node)) + after;
    let p = before.len() as int;
    let inner = before + dash;
    let named = inner + name;
    assert(written_node(node) == name + body);
    assert(s =~= inner + (name + (body + after)));
    assert(s =~= named + (body + after));
    lemma_reads_quoted(inner, node.name, body + after);
    lemma_body_reads_back(named, node.args, node.children, after);
    assert(s[p] == '\n' && s[p + 1] == '/' && s[p + 2] == '-' && s[p + 3] == '"');
    lemma_dropped(s, p, node, named.len() as int, (named.len() + body.len()) as int, in_block);
}

proof fn lemma_dropped(s: Seq<char>, p: int, node: NodeView, named: int, next: int, in_block: bool)
    requires
        0 <= p,
        p + 3 < s.len(),
        s[p] == '\n',
        s[p + 1] == '/',
        s[p + 2] == '-',
        s[p + 3] == '"',
        reads_value(s, p + 3, node.name, named),
        reads_body(s, named, node.args, node.children, next),
        next >= p + 3,
    ensures
        nodes_at(s, p, in_block) == nodes_at(s, next, in_block),
{
    reveal(reads_value);
    reveal(reads_body);
    lemma_one_space(s, p, true);
    lemma_no_space(s, p + 3, true);
    assert(annotation_end(s, p + 3) == p + 3);
    assert(node_at(s, p + 3) == (Some(node), next));
    assert(later(next, p + 3) == next);
}

/// A type annotation is skipped up to its closing bracket, and there's nothing to skip where there's
/// none.
pub proof fn law_annotations_are_skipped(before: Seq<char>, text: Seq<char>, after: Seq<char>)
    requires
        !text.contains(')'),
    ensures
        annotation_end(before + (seq!['('] + text + seq![')']) + after, before.len() as int) == (
        before.len() + text.len() + 2) as int,
        after.len() > 0 && after[0] != '(' ==> annotation_end(before + after, before.len() as int)
            == before.len(),
{
    let s = before + (seq!['('] + text + seq![')']) + after;
    let p = before.len() as int;
    let end = (p + 1 + text.len()) as int;
    let stop = |i: int| s[i] == ')';
    assert(s[p] == '(');
    assert forall|i: int| p <= i < end implies !#[trigger] stop(i) by {
        if i > p {
            assert(s[i] == text[i - p - 1]);
        }
    }
    assert(s[end] == ')');
    lemma_first_is(s.len() as int, p, stop, end);
    if after.len() > 0 && after[0] != '(' {
        assert((before + after)[p] == after[0]);
    }
}

/// A line break ends a node unless there's a backslash ahead of it, in which case the node goes on
/// with the next line, whether that's after a line feed, a carriage return, or both.
pub proof fn law_backslashes_continue_lines(s: Seq<char>, p: int)
    requires
        0 <= p,
        p + 1 < s.len(),
    ensures
        s[p] == '\n' || s[p] == '\r' ==> space_end(s, p, false, 0) == p,
        s[p] == '\\' && s[p + 1] == '\n' ==> space_end(s, p, false, 0) == space_end(s, p + 2, false, 0),
        s[p] == '\\' && s[p + 1] == '\r' && p + 2 < s.len() && s[p + 2] == '\n' ==> space_end(
            s,
            p,
            false,
            0,
        ) == space_end(s, p + 3, false, 0),
        s[p] == '\\' && s[p + 1] == '\r' && !(p + 2 < s.len() && s[p + 2] == '\n') ==> space_end(
            s,
            p,
            false,
            0,
        ) == space_end(s, p + 2, false, 0),
{
    reveal_with_fuel(space_end, 3);
}

/// What a node says is its own name, arguments and children.
pub proof fn law_nodes_say_what_they_hold(node: Node, i: int)
    ensures
        node.says().name == node.name@,
        node.says().args.len() == node.args@.len(),
        0 <= i < node.args@.len() ==> node.says().args[i] == node.args@[i]@,
        node.says().children.len() == node.children@.len(),
        0 <= i < node.children@.len() ==> node.says().children[i] == node.children@[i].says(),
{
    lemma_each_says(node.children@, i);
}

proof fn lemma_each_says(nodes: Seq<Node>, i: int)
    ensures
        all_say(nodes).len() == nodes.len(),
        0 <= i < nodes.len() ==> all_say(nodes)[i] == nodes[i].says(),
    decreases nodes.len(),
{
    if nodes.len() > 0 {
        lemma_each_says(nodes.drop_last(), i);
    }
}

/// Between nodes, semicolons and closing braces that close nothing are passed over.
pub proof fn law_stray_separators_are_passed_over(s: Seq<char>, p: int, in_block: bool)
    requires
        0 <= p < s.len(),
        s[p] == ';' || (s[p] == '}' && !in_block),
    ensures
        nodes_at(s, p, in_block) == nodes_at(s, p + 1, in_block),
{
    lemma_no_space(s, p, true);
}

/// A slash and a dash ahead of a block of children drop just that, with everything in it.
pub proof fn law_slashdash_drops_children(
    before: Seq<char>,
    children: Seq<NodeView>,
    after: Seq<char>,
)
    ensures
        ({
            let s = before + (seq![' ', '/', '-', '{'] + (written(children) + (seq!['}'] + after)));
            body_at(s, before.len() as int) == body_at(
                s,
                (before.len() + written(children).len() + 5) as int,
            )
        }),
{
    let dash = seq![' ', '/', '-', '{'];
    let rest = seq!['}'] + after;
    let inner = before + dash;
    let s = before + (dash + (written(children) + rest));
    let p = before.len() as int;
    lemma_regroup(before, dash, written(children) + rest);
    lemma_nodes_read_back(inner, children, rest, true);
    assert(s[p] == ' ' && s[p + 1] == '/' && s[p + 2] == '-' && s[p + 3] == '{');
    lemma_block_dropped(s, p, children, (p + written(children).len() + 5) as int);
}

proof fn lemma_block_dropped(s: Seq<char>, p: int, children: Seq<NodeView>, end: int)
    requires
        0 <= p,
        p + 3 < s.len(),
        s[p] == ' ',
        s[p + 1] == '/',
        s[p + 2] == '-',
        s[p + 3] == '{',
        reads_nodes(s, p + 4, true, children, end),
        end >= p + 3,
    ensures
        body_at(s, p) == body_at(s, end),
{
    reveal(reads_nodes);
    lemma_one_space(s, p, false);
    lemma_no_space(s, p + 3, false);
    assert(later(end, p + 3) == end);
}

/// An argument with a type annotation is an argument all the same.
pub proof fn law_annotated_arguments_count(
    before: Seq<char>,
    annotation: Seq<char>,
    value: Seq<char>,
    after: Seq<char>,
)
    requires
        !annotation.contains(')'),
        after.len() > 0,
        after[0] == ' ',
    ensures
        ({
            let s = before + (seq![' '] + (seq!['('] + annotation + seq![')']) + quoted(value)) + after;
            let end = (before.len() + annotation.len() + quoted(value).len() + 3) as int;
            body_at(s, before.len() as int) == (
                seq![value] + body_at(s, end).0,
                body_at(s, end).1,
                body_at(s, end).2,
            )
        }),
{
    let space = seq![' '];
    let brackets = seq!['('] + annotation + seq![')'];
    let s = before + (space + brackets + quoted(value)) + after;
    let p = before.len() as int;
    let q = (p + annotation.len() + 3) as int;
    let end = (q + quoted(value).len()) as int;
    assert(s =~= (before + space) + brackets + (quoted(value) + after));
    law_annotations_are_skipped(before + space, annotation, quoted(value) + after);
    assert(s =~= (before + space + brackets) + quoted(value) + after);
    law_quoted_text_reads_back(before + space + brackets, value, after);
    assert(s[p] == ' ' && s[p + 1] == '(');
    assert(s[end] == ' ');
    lemma_one_space(s, p, false);
    assert(annotation_end(s, p + 1) == q);
    assert(value_at(s, q) == (Some(value), end));
    assert(at(s, end) == Some(' '));
    assert(property_end(s, end) == end);
}

} // verus!
