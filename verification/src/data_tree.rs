//! A tokenizer and recursive-descent parser for the data tree text format:
//! nodes are `Type $name { children }` or `Type [leaf contents]`, with
//! whitespace and `#` line comments between tokens.
use vstd::prelude::*;
use crate::text::chars_of;

verus! {

// ----------------------------------------------------------------------
// Character classes

/// Whitespace: newline, carriage return, tab or space.
pub open spec fn ws(c: char) -> bool {
    c == '\n' || c == '\r' || c == '\t' || c == ' '
}

/// Characters with a structural meaning.
pub open spec fn reserved(c: char) -> bool {
    c == '{' || c == '}' || c == '[' || c == ']' || c == '$' || c == '\\'
}

/// Line breaks, which end a comment.
pub open spec fn newline(c: char) -> bool {
    c == '\n' || c == '\r'
}

/// A character that ends a type name.
pub open spec fn ends_type(c: char) -> bool {
    (reserved(c) || ws(c)) && c != '\\'
}

// ----------------------------------------------------------------------
// Positions in a text (all indices count characters)

/// The first index at or after `i` that is not whitespace.
pub open spec fn ws_end(s: Seq<char>, i: int) -> int
    decreases s.len() - i,
{
    if 0 <= i < s.len() && ws(s[i]) {
        ws_end(s, i + 1)
    } else {
        i
    }
}

/// The first index at or after `i` holding a line break, or the end.
pub open spec fn line_end(s: Seq<char>, i: int) -> int
    decreases s.len() - i,
{
    if 0 <= i < s.len() && !newline(s[i]) {
        line_end(s, i + 1)
    } else {
        i
    }
}

/// The first index at or after `i` that is neither whitespace nor inside a
/// comment.
pub open spec fn layout_end(s: Seq<char>, i: int) -> int
    decreases s.len() - i,
{
    if 0 <= i < s.len() && ws(s[i]) {
        layout_end(s, i + 1)
    } else if 0 <= i < s.len() && s[i] == '#' {
        proof {
            lemma_line_end(s, i + 1);
        }
        layout_end(s, line_end(s, i + 1))
    } else {
        i
    }
}

/// The end of a type name starting at `i`.
pub open spec fn type_end(s: Seq<char>, i: int) -> int
    decreases s.len() - i,
{
    if 0 <= i < s.len() && !ends_type(s[i]) {
        type_end(s, i + 1)
    } else {
        i
    }
}

/// The end of a name whose characters after the `$` start at `i`; a
/// backslash escapes the character after it.
pub open spec fn name_end(s: Seq<char>, i: int, escape: bool) -> int
    decreases s.len() - i,
{
    if 0 <= i < s.len() {
        if s[i] == '\\' {
            name_end(s, i + 1, true)
        } else if (reserved(s[i]) || ws(s[i])) && !escape {
            i
        } else {
            name_end(s, i + 1, false)
        }
    } else {
        i
    }
}

/// The index of the `]` that closes leaf contents starting at `i`, if any;
/// a backslash escapes the character after it.
pub open spec fn leaf_end(s: Seq<char>, i: int, escape: bool) -> Option<int>
    decreases s.len() - i,
{
    if 0 <= i < s.len() {
        if escape {
            leaf_end(s, i + 1, false)
        } else if s[i] == ']' {
            Some(i)
        } else if s[i] == '\\' {
            leaf_end(s, i + 1, true)
        } else {
            leaf_end(s, i + 1, false)
        }
    } else {
        None
    }
}

pub proof fn lemma_line_end(s: Seq<char>, i: int)
    requires
        0 <= i,
    ensures
        i <= line_end(s, i),
        i <= s.len() ==> line_end(s, i) <= s.len(),
    decreases s.len() - i,
{
    if 0 <= i < s.len() && !newline(s[i]) {
        lemma_line_end(s, i + 1);
    }
}

pub proof fn lemma_layout_end(s: Seq<char>, i: int)
    requires
        0 <= i <= s.len(),
    ensures
        i <= layout_end(s, i) <= s.len(),
        layout_end(s, i) < s.len() ==> !ws(s[layout_end(s, i)]) && s[layout_end(s, i)] != '#',
    decreases s.len() - i,
{
    if 0 <= i < s.len() && ws(s[i]) {
        lemma_layout_end(s, i + 1);
    } else if 0 <= i < s.len() && s[i] == '#' {
        lemma_line_end(s, i + 1);
        lemma_layout_end(s, line_end(s, i + 1));
    }
}

pub proof fn lemma_scan_bounds(s: Seq<char>, i: int, escape: bool)
    requires
        0 <= i <= s.len(),
    ensures
        i <= type_end(s, i) <= s.len(),
        i <= name_end(s, i, escape) <= s.len(),
        i <= ws_end(s, i) <= s.len(),
        leaf_end(s, i, escape) matches Some(j) ==> i <= j < s.len() && s[j] == ']',
    decreases s.len() - i,
{
    if i < s.len() {
        lemma_scan_bounds(s, i + 1, true);
        lemma_scan_bounds(s, i + 1, false);
    }
}

// ----------------------------------------------------------------------
// Characters

/// Returns whether `c` is whitespace.
pub fn is_ws(c: char) -> (r: bool)
    ensures
        r == ws(c),
{
    c == '\n' || c == '\r' || c == '\t' || c == ' '
}

/// Returns whether `c` is one of the structural characters `{ } [ ] $ \`.
pub fn is_reserved_char(c: char) -> (r: bool)
    ensures
        r == reserved(c),
{
    c == '{' || c == '}' || c == '[' || c == ']' || c == '$' || c == '\\'
}

fn ws_end_at(cs: &Vec<char>, i: usize) -> (r: usize)
    requires
        i <= cs@.len(),
    ensures
        r == ws_end(cs@, i as int),
{
    let mut j = i;
    while j < cs.len() && is_ws(cs[j])
        invariant
            i <= j <= cs@.len(),
            ws_end(cs@, i as int) == ws_end(cs@, j as int),
        decreases cs@.len() - j,
    {
        j += 1;
    }
    j
}

fn line_end_at(cs: &Vec<char>, i: usize) -> (r: usize)
    requires
        i <= cs@.len(),
    ensures
        r == line_end(cs@, i as int),
{
    let mut j = i;
    while j < cs.len() && !(cs[j] == '\n' || cs[j] == '\r')
        invariant
            i <= j <= cs@.len(),
            line_end(cs@, i as int) == line_end(cs@, j as int),
        decreases cs@.len() - j,
    {
        j += 1;
    }
    j
}

fn layout_end_at(cs: &Vec<char>, i: usize) -> (r: usize)
    requires
        i <= cs@.len(),
    ensures
        r == layout_end(cs@, i as int),
{
    let mut j = i;
    loop
        invariant
            i <= j <= cs@.len(),
            layout_end(cs@, i as int) == layout_end(cs@, j as int),
        decreases cs@.len() - j,
    {
        if j < cs.len() && is_ws(cs[j]) {
            j += 1;
        } else if j < cs.len() && cs[j] == '#' {
            proof {
                lemma_line_end(cs@, j + 1);
            }
            j = line_end_at(cs, j + 1);
        } else {
            return j;
        }
    }
}

fn type_end_at(cs: &Vec<char>, i: usize) -> (r: usize)
    requires
        i <= cs@.len(),
    ensures
        r == type_end(cs@, i as int),
{
    let mut j = i;
    while j < cs.len() && !((is_reserved_char(cs[j]) || is_ws(cs[j])) && cs[j] != '\\')
        invariant
            i <= j <= cs@.len(),
            type_end(cs@, i as int) == type_end(cs@, j as int),
        decreases cs@.len() - j,
    {
        j += 1;
    }
    j
}

fn name_end_at(cs: &Vec<char>, i: usize) -> (r: usize)
    requires
        i <= cs@.len(),
    ensures
        r == name_end(cs@, i as int, false),
{
    let mut j = i;
    let mut escape = false;
    while j < cs.len()
        invariant
            i <= j <= cs@.len(),
            name_end(cs@, i as int, false) == name_end(cs@, j as int, escape),
        decreases cs@.len() - j,
    {
        let c = cs[j];
        if c == '\\' {
            escape = true;
        } else if (is_reserved_char(c) || is_ws(c)) && !escape {
            return j;
        } else {
            escape = false;
        }
        j += 1;
    }
    j
}

fn leaf_end_at(cs: &Vec<char>, i: usize) -> (r: Option<usize>)
    requires
        i <= cs@.len(),
    ensures
        r matches Some(j) ==> leaf_end(cs@, i as int, false) == Some(j as int),
        r is None ==> leaf_end(cs@, i as int, false) is None,
{
    let mut j = i;
    let mut escape = false;
    while j < cs.len()
        invariant
            i <= j <= cs@.len(),
            leaf_end(cs@, i as int, false) == leaf_end(cs@, j as int, escape),
        decreases cs@.len() - j,
    {
        if escape {
            escape = false;
        } else if cs[j] == ']' {
            return Some(j);
        } else if cs[j] == '\\' {
            escape = true;
        }
        j += 1;
    }
    None
}

// ----------------------------------------------------------------------
// Skipping whitespace and comments

/// Skips the whitespace at the start of `text`.  Returns the rest of the
/// text, or `None` when `text` does not start with whitespace.
pub fn skip_ws<'a>(text: &'a str) -> (r: Option<&'a str>)
    ensures
        r is Some <==> ws_end(text@, 0) > 0,
        r matches Some(t) ==> t@ == text@.skip(ws_end(text@, 0)),
{
    let cs = chars_of(text);
    let j = ws_end_at(&cs, 0);
    if j > 0 {
        proof {
            lemma_scan_bounds(text@, 0, false);
        }
        Some(text.substring_char(j, cs.len()))
    } else {
        None
    }
}

/// Skips a comment at the start of `text`, up to (not including) the line
/// break that ends it.  Returns `None` when `text` does not start with `#`.
pub fn skip_comment<'a>(text: &'a str) -> (r: Option<&'a str>)
    ensures
        r is Some <==> (text@.len() > 0 && text@[0] == '#'),
        r matches Some(t) ==> t@ == text@.skip(line_end(text@, 1)),
{
    let cs = chars_of(text);
    if cs.len() > 0 && cs[0] == '#' {
        let j = line_end_at(&cs, 1);
        proof {
            lemma_line_end(text@, 1);
        }
        Some(text.substring_char(j, cs.len()))
    } else {
        None
    }
}

/// Skips all whitespace and comments at the start of `text`.
pub fn skip_ws_and_comments<'a>(text: &'a str) -> (r: &'a str)
    ensures
        r@ == text@.skip(layout_end(text@, 0)),
{
    let cs = chars_of(text);
    let j = layout_end_at(&cs, 0);
    proof {
        lemma_layout_end(text@, 0);
    }
    text.substring_char(j, cs.len())
}

// ----------------------------------------------------------------------
// Tokens

/// A token of the data tree format.
#[derive(Debug, PartialEq, Eq)]
pub enum Token<'a> {
    OpenInner,
    CloseInner,
    OpenLeaf,
    CloseLeaf,
    Type(&'a str),
    Name(&'a str),
    End,
    Unknown,
}

/// A token, with the text of type and name tokens as characters.
pub enum TokenView {
    OpenInner,
    CloseInner,
    OpenLeaf,
    CloseLeaf,
    Type(Seq<char>),
    Name(Seq<char>),
    End,
    Unknown,
}

impl<'a> View for Token<'a> {
    type V = TokenView;

    open spec fn view(&self) -> TokenView {
        match self {
            Token::OpenInner => TokenView::OpenInner,
            Token::CloseInner => TokenView::CloseInner,
            Token::OpenLeaf => TokenView::OpenLeaf,
            Token::CloseLeaf => TokenView::CloseLeaf,
            Token::Type(t) => TokenView::Type(t@),
            Token::Name(n) => TokenView::Name(n@),
            Token::End => TokenView::End,
            Token::Unknown => TokenView::Unknown,
        }
    }
}

/// The token that starts at or after index `p` of `s`, once whitespace and
/// comments are skipped, with the index just after it.
pub open spec fn next_token_spec(s: Seq<char>, p: int) -> (TokenView, int) {
    let t = layout_end(s, p);
    if t >= s.len() {
        (TokenView::End, t)
    } else if s[t] == '{' {
        (TokenView::OpenInner, t + 1)
    } else if s[t] == '}' {
        (TokenView::CloseInner, t + 1)
    } else if s[t] == '[' {
        (TokenView::OpenLeaf, t + 1)
    } else if s[t] == ']' {
        (TokenView::CloseLeaf, t + 1)
    } else if s[t] == '$' {
        let j = name_end(s, t + 1, false);
        (TokenView::Name(s.subrange(t, j)), j)
    } else {
        let j = type_end(s, t);
        (TokenView::Type(s.subrange(t, j)), j)
    }
}

/// Every token but the end of the text consumes at least one character.
pub proof fn lemma_next_token(s: Seq<char>, p: int)
    requires
        0 <= p <= s.len(),
    ensures
        p <= next_token_spec(s, p).1 <= s.len(),
        !(next_token_spec(s, p).0 is End) ==> p < next_token_spec(s, p).1,
{
    lemma_layout_end(s, p);
    let t = layout_end(s, p);
    if t < s.len() {
        lemma_scan_bounds(s, t, false);
        lemma_scan_bounds(s, t + 1, false);
    }
}

/// A token found in a character vector, by position.
enum Lexeme {
    OpenInner,
    CloseInner,
    OpenLeaf,
    CloseLeaf,
    Type(usize, usize),
    Name(usize, usize),
    End,
}

/// The token of `s` at position `p` as described by a lexeme.
spec fn lexeme_view(s: Seq<char>, l: Lexeme) -> TokenView {
    match l {
        Lexeme::OpenInner => TokenView::OpenInner,
        Lexeme::CloseInner => TokenView::CloseInner,
        Lexeme::OpenLeaf => TokenView::OpenLeaf,
        Lexeme::CloseLeaf => TokenView::CloseLeaf,
        Lexeme::Type(a, b) => TokenView::Type(s.subrange(a as int, b as int)),
        Lexeme::Name(a, b) => TokenView::Name(s.subrange(a as int, b as int)),
        Lexeme::End => TokenView::End,
    }
}

spec fn lexeme_in_bounds(s: Seq<char>, l: Lexeme) -> bool {
    match l {
        Lexeme::Type(a, b) => a <= b <= s.len(),
        Lexeme::Name(a, b) => a <= b <= s.len(),
        _ => true,
    }
}

fn next_lexeme(cs: &Vec<char>, p: usize) -> (r: (Lexeme, usize))
    requires
        p <= cs@.len(),
    ensures
        lexeme_in_bounds(cs@, r.0),
        (lexeme_view(cs@, r.0), r.1 as int) == next_token_spec(cs@, p as int),
        p <= r.1 <= cs@.len(),
{
    proof {
        lemma_next_token(cs@, p as int);
        lemma_layout_end(cs@, p as int);
    }
    let t = layout_end_at(cs, p);
    if t >= cs.len() {
        return (Lexeme::End, t);
    }
    proof {
        lemma_scan_bounds(cs@, t as int, false);
        lemma_scan_bounds(cs@, t + 1, false);
    }
    let c = cs[t];
    if c == '{' {
        (Lexeme::OpenInner, t + 1)
    } else if c == '}' {
        (Lexeme::CloseInner, t + 1)
    } else if c == '[' {
        (Lexeme::OpenLeaf, t + 1)
    } else if c == ']' {
        (Lexeme::CloseLeaf, t + 1)
    } else if c == '$' {
        let j = name_end_at(cs, t + 1);
        (Lexeme::Name(t, j), j)
    } else {
        let j = type_end_at(cs, t);
        (Lexeme::Type(t, j), j)
    }
}

fn lexeme_token<'a>(text: &'a str, l: &Lexeme) -> (tok: Token<'a>)
    requires
        lexeme_in_bounds(text@, *l),
        !(*l is End),
    ensures
        tok@ == lexeme_view(text@, *l),
{
    match l {
        Lexeme::OpenInner => Token::OpenInner,
        Lexeme::CloseInner => Token::CloseInner,
        Lexeme::OpenLeaf => Token::OpenLeaf,
        Lexeme::CloseLeaf => Token::CloseLeaf,
        Lexeme::Type(a, b) => Token::Type(text.substring_char(*a, *b)),
        Lexeme::Name(a, b) => Token::Name(text.substring_char(*a, *b)),
        Lexeme::End => Token::Unknown,
    }
}

/// Reads the next token of `source_text`, skipping whitespace and comments
/// before it, and returns it with the text that follows it.  At the end of
/// the text the token is `End` and the rest is empty.
pub fn next_token<'a>(source_text: &'a str) -> (r: (Token<'a>, &'a str))
    ensures
        (r.0@, source_text@.len() - r.1@.len()) == next_token_spec(source_text@, 0),
        r.1@ == source_text@.skip(next_token_spec(source_text@, 0).1),
{
    let cs = chars_of(source_text);
    let (l, next) = next_lexeme(&cs, 0);
    let rest = source_text.substring_char(next, cs.len());
    match l {
        Lexeme::End => (Token::End, rest),
        _ => (lexeme_token(source_text, &l), rest),
    }
}

// ----------------------------------------------------------------------
// Trees

/// A parsed node of the data tree format.
#[derive(Debug)]
pub enum DataTree<'a> {
    Internal { type_: &'a str, name: Option<&'a str>, children: Vec<DataTree<'a>> },
    Leaf { type_: &'a str, contents: &'a str },
}

/// A parsed node, with its texts as characters.
pub enum TreeView {
    Internal { type_: Seq<char>, name: Option<Seq<char>>, children: Seq<TreeView> },
    Leaf { type_: Seq<char>, contents: Seq<char> },
}

impl<'a> DataTree<'a> {
    /// The node as plain values.
    pub open spec fn tree_view(&self) -> TreeView
        decreases self,
    {
        match self {
            DataTree::Internal { type_, name, children } => TreeView::Internal {
                type_: type_@,
                name: name_view(*name),
                children: Seq::new(
                    children@.len(),
                    |i: int|
                        if 0 <= i < children@.len() {
                            children@[i].tree_view()
                        } else {
                            TreeView::Leaf { type_: Seq::empty(), contents: Seq::empty() }
                        },
                ),
            },
            DataTree::Leaf { type_, contents } => TreeView::Leaf {
                type_: type_@,
                contents: contents@,
            },
        }
    }
}

/// An optional name as characters.
pub open spec fn name_view<'a>(name: Option<&'a str>) -> Option<Seq<char>> {
    match name {
        Some(n) => Some(n@),
        None => None,
    }
}

/// The nodes of a list, as plain values.
pub open spec fn trees_view<'a>(v: Seq<DataTree<'a>>) -> Seq<TreeView> {
    Seq::new(v.len(), |i: int| v[i].tree_view())
}

/// The node that starts at index `p` of `s`, and the index after it, if a
/// node starts there.
pub open spec fn parse_spec(s: Seq<char>, p: int) -> Option<(TreeView, int)>
    decreases s.len() - p, 0int,
{
    if !(0 <= p <= s.len()) {
        None
    } else {
        let (t1, q1) = next_token_spec(s, p);
        match t1 {
            TokenView::Type(ty) => {
                proof {
                    lemma_next_token(s, p);
                    lemma_next_token(s, q1);
                }
                let (t2, q2) = next_token_spec(s, q1);
                match t2 {
                    TokenView::Name(n) => {
                        proof {
                            lemma_next_token(s, q2);
                        }
                        let (t3, q3) = next_token_spec(s, q2);
                        if t3 is OpenInner {
                            let (kids, q4) = children_spec(s, q3);
                            let (t5, q5) = next_token_spec(s, q4);
                            if t5 is CloseInner {
                                Some(
                                    (
                                        TreeView::Internal {
                                            type_: ty,
                                            name: Some(n),
                                            children: kids,
                                        },
                                        q5,
                                    ),
                                )
                            } else {
                                None
                            }
                        } else {
                            None
                        }
                    },
                    TokenView::OpenInner => {
                        let (kids, q3) = children_spec(s, q2);
                        // The closing brace is looked for right after the
                        // opening one, so only a childless node closes.
                        let (t4, q4) = next_token_spec(s, q2);
                        if t4 is CloseInner {
                            Some((TreeView::Internal { type_: ty, name: None, children: kids }, q4))
                        } else {
                            None
                        }
                    },
                    TokenView::OpenLeaf => {
                        match leaf_end(s, q2, false) {
                            Some(q3) => {
                                let (t4, q4) = next_token_spec(s, q3);
                                if t4 is CloseLeaf {
                                    Some(
                                        (
                                            TreeView::Leaf {
                                                type_: ty,
                                                contents: s.subrange(q2, q3),
                                            },
                                            q4,
                                        ),
                                    )
                                } else {
                                    None
                                }
                            },
                            None => None,
                        }
                    },
                    _ => None,
                }
            },
            _ => None,
        }
    }
}

/// The nodes that follow one another from index `p` of `s`, as many as
/// parse, and the index after the last of them.
pub open spec fn children_spec(s: Seq<char>, p: int) -> (Seq<TreeView>, int)
    decreases s.len() - p, 1int,
{
    if !(0 <= p <= s.len()) {
        (Seq::empty(), p)
    } else {
        match parse_spec(s, p) {
            Some((node, q)) => {
                if p < q <= s.len() {
                    let (rest, r) = children_spec(s, q);
                    (seq![node] + rest, r)
                } else {
                    (seq![node], q)
                }
            },
            None => (Seq::empty(), p),
        }
    }
}

/// The nodes of a whole text, if nothing but whitespace and comments
/// follows them.
pub open spec fn from_str_spec(s: Seq<char>) -> Option<Seq<TreeView>> {
    let (items, q) = children_spec(s, 0);
    if layout_end(s, q) < s.len() {
        None
    } else {
        Some(items)
    }
}

proof fn lemma_trees_view_push<'a>(v: Seq<DataTree<'a>>, t: DataTree<'a>)
    ensures
        trees_view(v.push(t)) == trees_view(v) + seq![t.tree_view()],
{
    assert(trees_view(v.push(t)) =~= trees_view(v) + seq![t.tree_view()]);
}

proof fn lemma_internal_view<'a>(
    type_: &'a str,
    name: Option<&'a str>,
    children: Vec<DataTree<'a>>,
)
    ensures
        (DataTree::Internal { type_, name, children }).tree_view() == (TreeView::Internal {
            type_: type_@,
            name: name_view(name),
            children: trees_view(children@),
        }),
{
    let t = DataTree::Internal { type_, name, children };
    match t.tree_view() {
        TreeView::Internal { children: c, .. } => {
            assert(c =~= trees_view(children@));
        },
        _ => {},
    }
}

fn parse_at<'a>(src: &'a str, cs: &Vec<char>, p: usize) -> (r: Result<(DataTree<'a>, usize), ()>)
    requires
        cs@ == src@,
        p <= cs@.len(),
    ensures
        r matches Ok((t, q)) ==> parse_spec(cs@, p as int) == Some((t.tree_view(), q as int))
            && p < q <= cs@.len(),
        r is Err ==> parse_spec(cs@, p as int) is None,
    decreases cs@.len() - p, 0int,
{
    let ghost s = cs@;
    proof {
        lemma_next_token(s, p as int);
    }
    let (l1, q1) = next_lexeme(cs, p);
    let (a1, b1) = match l1 {
        Lexeme::Type(a, b) => (a, b),
        _ => {
            return Err(());
        },
    };
    let ty = src.substring_char(a1, b1);
    proof {
        lemma_next_token(s, q1 as int);
    }
    let (l2, q2) = next_lexeme(cs, q1);
    match l2 {
        Lexeme::Name(a2, b2) => {
            let name = src.substring_char(a2, b2);
            proof {
                lemma_next_token(s, q2 as int);
            }
            let (l3, q3) = next_lexeme(cs, q2);
            match l3 {
                Lexeme::OpenInner => {},
                _ => {
                    return Err(());
                },
            }
            let (children, q4) = parse_children_at(src, cs, q3);
            let (l5, q5) = next_lexeme(cs, q4);
            match l5 {
                Lexeme::CloseInner => {},
                _ => {
                    return Err(());
                },
            }
            proof {
                lemma_internal_view(ty, Some(name), children);
            }
            Ok((DataTree::Internal { type_: ty, name: Some(name), children }, q5))
        },
        Lexeme::OpenInner => {
            let (children, _q3) = parse_children_at(src, cs, q2);
            let (l4, q4) = next_lexeme(cs, q2);
            match l4 {
                Lexeme::CloseInner => {},
                _ => {
                    return Err(());
                },
            }
            proof {
                lemma_internal_view(ty, None, children);
            }
            Ok((DataTree::Internal { type_: ty, name: None, children }, q4))
        },
        Lexeme::OpenLeaf => {
            proof {
                lemma_scan_bounds(s, q2 as int, false);
            }
            let q3 = match leaf_end_at(cs, q2) {
                Some(q3) => q3,
                None => {
                    return Err(());
                },
            };
            let contents = src.substring_char(q2, q3);
            proof {
                lemma_next_token(s, q3 as int);
            }
            let (l4, q4) = next_lexeme(cs, q3);
            match l4 {
                Lexeme::CloseLeaf => {},
                _ => {
                    return Err(());
                },
            }
            Ok((DataTree::Leaf { type_: ty, contents }, q4))
        },
        _ => Err(()),
    }
}

fn parse_children_at<'a>(src: &'a str, cs: &Vec<char>, p: usize) -> (r: (
    Vec<DataTree<'a>>,
    usize,
))
    requires
        cs@ == src@,
        p <= cs@.len(),
    ensures
        (trees_view(r.0@), r.1 as int) == children_spec(cs@, p as int),
        p <= r.1 <= cs@.len(),
    decreases cs@.len() - p, 1int,
{
    let ghost s = cs@;
    let mut children: Vec<DataTree<'a>> = Vec::new();
    let mut pos = p;
    loop
        invariant
            cs@ == src@,
            s == cs@,
            p <= pos <= cs@.len(),
            children_spec(s, p as int) == (
                trees_view(children@) + children_spec(s, pos as int).0,
                children_spec(s, pos as int).1,
            ),
        decreases cs@.len() - pos,
    {
        let ghost before = children@;
        match parse_at(src, cs, pos) {
            Ok((node, q)) => {
                proof {
                    lemma_trees_view_push(before, node);
                    assert(children_spec(s, pos as int) == (
                        seq![node.tree_view()] + children_spec(s, q as int).0,
                        children_spec(s, q as int).1,
                    ));
                    assert(trees_view(before) + (seq![node.tree_view()] + children_spec(
                        s,
                        q as int,
                    ).0) =~= trees_view(before.push(node)) + children_spec(s, q as int).0);
                }
                children.push(node);
                pos = q;
            },
            Err(_) => {
                proof {
                    assert(children_spec(s, pos as int) == (Seq::<TreeView>::empty(), pos as int));
                    assert(trees_view(children@) + Seq::<TreeView>::empty() =~= trees_view(
                        children@,
                    ));
                }
                return (children, pos);
            },
        }
    }
}

/// Parses one node at the start of `source_text` (after whitespace and
/// comments), returning it with the text that follows it.
pub fn parse<'a>(source_text: &'a str) -> (r: Result<(DataTree<'a>, &'a str), ()>)
    ensures
        r matches Ok((t, rest)) ==> parse_spec(source_text@, 0) == Some(
            (t.tree_view(), source_text@.len() - rest@.len()),
        ) && rest@ == source_text@.skip(source_text@.len() - rest@.len()),
        r is Err <==> parse_spec(source_text@, 0) is None,
{
    let cs = chars_of(source_text);
    match parse_at(source_text, &cs, 0) {
        Ok((t, q)) => Ok((t, source_text.substring_char(q, cs.len()))),
        Err(()) => Err(()),
    }
}

/// Reads leaf contents up to the first unescaped `]`, returning the
/// contents and the text from the `]` on.  Fails when there is no such `]`.
pub fn parse_leaf_content<'a>(source_text: &'a str) -> (r: Result<(&'a str, &'a str), ()>)
    ensures
        r is Err <==> leaf_end(source_text@, 0, false) is None,
        r matches Ok((c, rest)) ==> leaf_end(source_text@, 0, false) == Some(c@.len() as int)
            && c@ == source_text@.take(c@.len() as int) && rest@ == source_text@.skip(
            c@.len() as int,
        ),
{
    let cs = chars_of(source_text);
    proof {
        lemma_scan_bounds(source_text@, 0, false);
    }
    match leaf_end_at(&cs, 0) {
        Some(i) => Ok((source_text.substring_char(0, i), source_text.substring_char(i, cs.len()))),
        None => Err(()),
    }
}

impl<'a> DataTree<'a> {
    /// Parses a whole text into its top-level nodes.  Returns `None` when
    /// anything but whitespace and comments follows the last node that
    /// parses.
    pub fn from_str(source_text: &'a str) -> (r: Option<Vec<DataTree<'a>>>)
        ensures
            r is None <==> from_str_spec(source_text@) is None,
            r matches Some(items) ==> from_str_spec(source_text@) == Some(trees_view(items@)),
    {
        let cs = chars_of(source_text);
        let (items, q) = parse_children_at(source_text, &cs, 0);
        let rest = layout_end_at(&cs, q);
        if rest < cs.len() {
            None
        } else {
            Some(items)
        }
    }
}

} // verus!
