//! A streaming tokenizer for the data tree text format, which hands out
//! type names, `$` identifiers, structural characters and leaf contents one
//! at a time.
use vstd::prelude::*;
use crate::text::chars_of;
use crate::data_tree::{ws, newline, reserved, line_end, lemma_line_end};

verus! {

/// A token of the data tree format.
#[derive(Debug, PartialEq, Eq)]
pub enum Token<'a> {
    TypeName(&'a str),
    Ident(&'a str),
    OpenInner,
    CloseInner,
    OpenLeaf,
    CloseLeaf,
    LeafContents(&'a str),
    Unknown,
}

/// A token with its text as characters.
pub enum TokenView {
    TypeName(Seq<char>),
    Ident(Seq<char>),
    OpenInner,
    CloseInner,
    OpenLeaf,
    CloseLeaf,
    LeafContents(Seq<char>),
    Unknown,
}

impl<'a> View for Token<'a> {
    type V = TokenView;

    open spec fn view(&self) -> TokenView {
        match self {
            Token::TypeName(t) => TokenView::TypeName(t@),
            Token::Ident(t) => TokenView::Ident(t@),
            Token::OpenInner => TokenView::OpenInner,
            Token::CloseInner => TokenView::CloseInner,
            Token::OpenLeaf => TokenView::OpenLeaf,
            Token::CloseLeaf => TokenView::CloseLeaf,
            Token::LeafContents(t) => TokenView::LeafContents(t@),
            Token::Unknown => TokenView::Unknown,
        }
    }
}

/// A character that may appear in a type name or identifier.
pub open spec fn ident(c: char) -> bool {
    !ws(c) && !reserved(c) && c != '#'
}

/// The first index at or after `i` that is neither whitespace nor part of
/// a comment; a comment runs to its line break, which it includes.
pub open spec fn skip_spec(s: Seq<char>, i: int) -> int
    decreases s.len() - i,
{
    if 0 <= i < s.len() && ws(s[i]) {
        skip_spec(s, i + 1)
    } else if 0 <= i < s.len() && s[i] == '#' {
        proof {
            lemma_line_end(s, i + 1);
        }
        let j = line_end(s, i + 1);
        if j < s.len() {
            skip_spec(s, j + 1)
        } else {
            skip_spec(s, j)
        }
    } else {
        i
    }
}

/// The first index at or after `i` that does not hold an identifier
/// character.
pub open spec fn ident_end(s: Seq<char>, i: int) -> int
    decreases s.len() - i,
{
    if 0 <= i < s.len() && ident(s[i]) {
        ident_end(s, i + 1)
    } else {
        i
    }
}

/// The first index at or after `i` holding a `]`, or the end.
pub open spec fn bracket_end(s: Seq<char>, i: int) -> int
    decreases s.len() - i,
{
    if 0 <= i < s.len() && s[i] != ']' {
        bracket_end(s, i + 1)
    } else {
        i
    }
}

proof fn lemma_scans(s: Seq<char>, i: int)
    requires
        0 <= i <= s.len(),
    ensures
        i <= skip_spec(s, i) <= s.len(),
        skip_spec(s, i) < s.len() ==> !ws(s[skip_spec(s, i)]) && s[skip_spec(s, i)] != '#',
        i <= ident_end(s, i) <= s.len(),
        i <= bracket_end(s, i) <= s.len(),
    decreases s.len() - i,
{
    if i < s.len() {
        lemma_scans(s, i + 1);
        if s[i] == '#' {
            lemma_line_end(s, i + 1);
            let j = line_end(s, i + 1);
            if j < s.len() {
                lemma_scans(s, j + 1);
            } else {
                lemma_scans(s, j);
            }
        }
    }
}

/// Reading the next token from text `s` panics: an identifier runs to the
/// end of the text after a non-empty stretch of whitespace and comments
/// (the end of such a name is not known).
pub open spec fn next_fails(s: Seq<char>, in_leaf: bool) -> bool {
    let t = skip_spec(s, 0);
    &&& !in_leaf
    &&& 0 < t < s.len()
    &&& (ident(s[t]) || s[t] == '$')
    &&& ident_end(s, t + 1) >= s.len()
}

/// The next token of text `s`, the index at which the remaining text
/// starts, and whether leaf contents come next.  `in_leaf` says whether the
/// previous token opened a leaf.
pub open spec fn next_spec(s: Seq<char>, in_leaf: bool) -> (Option<TokenView>, int, bool) {
    if !in_leaf {
        let t = skip_spec(s, 0);
        if t >= s.len() {
            (None, s.len() as int, false)
        } else {
            let c = s[t];
            if ident(c) || c == '$' {
                let j = ident_end(s, t + 1);
                let name = if j < s.len() {
                    s.subrange(t, j)
                } else {
                    Seq::empty()
                };
                let tok = if c == '$' {
                    TokenView::Ident(name)
                } else {
                    TokenView::TypeName(name)
                };
                (Some(tok), j, false)
            } else if c == '{' {
                (Some(TokenView::OpenInner), t + 1, false)
            } else if c == '}' {
                (Some(TokenView::CloseInner), t + 1, false)
            } else if c == '[' {
                (Some(TokenView::OpenLeaf), t + 1, true)
            } else if c == ']' {
                (Some(TokenView::CloseLeaf), t + 1, false)
            } else {
                (Some(TokenView::Unknown), t + 1, false)
            }
        }
    } else if s.len() == 0 {
        (None, 0, true)
    } else {
        let j = bracket_end(s, 0);
        let contents = if j < s.len() {
            s.take(j)
        } else {
            Seq::empty()
        };
        (Some(TokenView::LeafContents(contents)), j, false)
    }
}

/// An iterator over the tokens of a text.
pub struct TokenIter<'a> {
    text: &'a str,
    after_open_leaf: bool,
}

impl<'a> TokenIter<'a> {
    /// The text that remains to be read.
    pub closed spec fn remaining(&self) -> Seq<char> {
        self.text@
    }

    /// Whether the previous token opened a leaf, so leaf contents come next.
    pub closed spec fn in_leaf(&self) -> bool {
        self.after_open_leaf
    }

    /// Reads the next token, or `None` at the end of the text.
    ///
    /// Outside a leaf, whitespace and `#` comments are skipped first; a type
    /// name or `$` identifier runs up to the first character that cannot be
    /// part of it.  A name that runs to the end of the text, with nothing
    /// after it, reads as an empty name (and one preceded by whitespace or a
    /// comment cannot be read at all).  Right after an opening `[`,
    /// everything up to the next `]` is leaf contents.
    pub fn next(&mut self) -> (tok: Option<Token<'a>>)
        requires
            !next_fails(old(self).remaining(), old(self).in_leaf()),
        ensures
            ({
                let (t, rest, in_leaf) = next_spec(old(self).remaining(), old(self).in_leaf());
                &&& tok matches Some(x) ==> t == Some(x@)
                &&& tok is None ==> t is None
                &&& final(self).remaining() == old(self).remaining().skip(rest)
                &&& final(self).in_leaf() == in_leaf
            }),
    {
        let cs = chars_of(self.text);
        let ghost s = cs@;
        let n = cs.len();
        if !self.after_open_leaf {
            let t = skip_at(&cs, 0);
            proof {
                lemma_scans(s, 0);
            }
            if t >= n {
                self.text = self.text.substring_char(n, n);
                return None;
            }
            let c = cs[t];
            if is_ident_char(c) || c == '$' {
                proof {
                    lemma_scans(s, t + 1);
                }
                let j = ident_end_at(&cs, t + 1);
                let name = if j < n {
                    self.text.substring_char(t, j)
                } else {
                    let e = self.text.substring_char(0, 0);
                    proof {
                        assert(e@ =~= Seq::<char>::empty());
                    }
                    e
                };
                self.text = self.text.substring_char(j, n);
                self.after_open_leaf = false;
                if c == '$' {
                    Some(Token::Ident(name))
                } else {
                    Some(Token::TypeName(name))
                }
            } else {
                let tok = if c == '{' {
                    Token::OpenInner
                } else if c == '}' {
                    Token::CloseInner
                } else if c == '[' {
                    self.after_open_leaf = true;
                    Token::OpenLeaf
                } else if c == ']' {
                    Token::CloseLeaf
                } else {
                    Token::Unknown
                };
                self.text = self.text.substring_char(t + 1, n);
                Some(tok)
            }
        } else if n == 0 {
            proof {
                assert(s.skip(0) =~= s);
            }
            None
        } else {
            proof {
                lemma_scans(s, 0);
            }
            let j = bracket_end_at(&cs, 0);
            let contents = if j < n {
                self.text.substring_char(0, j)
            } else {
                let e = self.text.substring_char(0, 0);
                proof {
                    assert(e@ =~= Seq::<char>::empty());
                }
                e
            };
            self.text = self.text.substring_char(j, n);
            self.after_open_leaf = false;
            Some(Token::LeafContents(contents))
        }
    }
}

/// An iterator over the tokens of `text`, starting outside any leaf.
pub fn token_iter<'a>(text: &'a str) -> (it: TokenIter<'a>)
    ensures
        it.remaining() == text@,
        !it.in_leaf(),
{
    TokenIter { text, after_open_leaf: false }
}

fn skip_at(cs: &Vec<char>, i: usize) -> (r: usize)
    requires
        i <= cs@.len(),
    ensures
        r == skip_spec(cs@, i as int),
{
    let mut j = i;
    loop
        invariant
            i <= j <= cs@.len(),
            skip_spec(cs@, i as int) == skip_spec(cs@, j as int),
        decreases cs@.len() - j,
    {
        if j < cs.len() && (is_ws_char(cs[j]) || is_nl_char(cs[j])) {
            j += 1;
        } else if j < cs.len() && is_comment_char(cs[j]) {
            let mut k = j + 1;
            while k < cs.len() && !is_nl_char(cs[k])
                invariant
                    j < k <= cs@.len(),
                    line_end(cs@, j + 1) == line_end(cs@, k as int),
                decreases cs@.len() - k,
            {
                k += 1;
            }
            if k < cs.len() {
                k += 1;
            }
            j = k;
        } else {
            return j;
        }
    }
}

fn ident_end_at(cs: &Vec<char>, i: usize) -> (r: usize)
    requires
        i <= cs@.len(),
    ensures
        r == ident_end(cs@, i as int),
{
    let mut j = i;
    while j < cs.len() && is_ident_char(cs[j])
        invariant
            i <= j <= cs@.len(),
            ident_end(cs@, i as int) == ident_end(cs@, j as int),
        decreases cs@.len() - j,
    {
        j += 1;
    }
    j
}

fn bracket_end_at(cs: &Vec<char>, i: usize) -> (r: usize)
    requires
        i <= cs@.len(),
    ensures
        r == bracket_end(cs@, i as int),
{
    let mut j = i;
    while j < cs.len() && cs[j] != ']'
        invariant
            i <= j <= cs@.len(),
            bracket_end(cs@, i as int) == bracket_end(cs@, j as int),
        decreases cs@.len() - j,
    {
        j += 1;
    }
    j
}

/// Returns whether `c` is a space or a tab.
pub fn is_ws_char(c: char) -> (r: bool)
    ensures
        r == (c == ' ' || c == '\t'),
{
    c == ' ' || c == '\t'
}

/// Returns whether `c` is a line break.
pub fn is_nl_char(c: char) -> (r: bool)
    ensures
        r == newline(c),
{
    c == '\n' || c == '\r'
}

/// Returns whether `c` starts a comment.
pub fn is_comment_char(c: char) -> (r: bool)
    ensures
        r == (c == '#'),
{
    c == '#'
}

/// Returns whether `c` is one of the structural characters `{ } [ ] \ $`.
pub fn is_reserved_char(c: char) -> (r: bool)
    ensures
        r == reserved(c),
{
    c == '{' || c == '}' || c == '[' || c == ']' || c == '\\' || c == '$'
}

/// Returns whether `c` may appear in a type name or identifier: anything
/// but whitespace, line breaks, structural characters and `#`.
pub fn is_ident_char(c: char) -> (r: bool)
    ensures
        r == ident(c),
{
    !is_ws_char(c) && !is_nl_char(c) && !is_reserved_char(c) && !is_comment_char(c)
}

} // verus!
