//! The lexer: segments the log text into tokens, telling the structural
//! parentheses of TeX's file scopes apart from ordinary prose and
//! recognising path-shaped runs (which may span wrapped lines).

use vstd::prelude::*;
use vstd::string::StrSliceExecFns;
use vstd::string::StringExecFns;

verus! {

/// Whether the Unicode `Alphabetic` property holds of `c`; the property is
/// far too large to write out, so it is left as a name for what
/// `char::is_alphabetic` returns.
pub uninterp spec fn char_alphabetic(c: char) -> bool;

/// Whether the Unicode `White_Space` property holds of `c`: a name for what
/// `char::is_whitespace` returns.
pub uninterp spec fn char_whitespace(c: char) -> bool;

/// Relies on char::is_alphabetic: true exactly of characters with the
/// Unicode `Alphabetic` property, a function of the character alone.
pub assume_specification[ char::is_alphabetic ](c: char) -> (r: bool)
    ensures
        r == char_alphabetic(c),
;

/// Relies on char::is_whitespace: true exactly of characters with the
/// Unicode `White_Space` property, a function of the character alone.
pub assume_specification[ char::is_whitespace ](c: char) -> (r: bool)
    ensures
        r == char_whitespace(c),
;

/// Relies on String::push: appends exactly the one character `c`.
#[verifier::external_body]
pub(crate) fn push_char(s: &mut String, c: char)
    ensures
        final(s)@ == old(s)@.push(c),
{
    s.push(c);
}

/// What a token is, with the text it covers where that is not fixed.
#[allow(clippy::upper_case_acronyms)]
#[derive(Debug)]
pub enum TokenKind {
    LeftParen,
    RightParen,
    ExclamationMark,
    Path(String),
    Word(String),
    Punctuation(char),
    Newline,
    Whitespace(String),
    EOF,  // End of log
}

/// Mathematical image of a `TokenKind`: texts as character sequences.
pub enum TokenKindV {
    LeftParen,
    RightParen,
    ExclamationMark,
    Path(Seq<char>),
    Word(Seq<char>),
    Punctuation(char),
    Newline,
    Whitespace(Seq<char>),
    EOF,
}

impl View for TokenKind {
    type V = TokenKindV;

    open spec fn view(&self) -> TokenKindV {
        match self {
            TokenKind::LeftParen => TokenKindV::LeftParen,
            TokenKind::RightParen => TokenKindV::RightParen,
            TokenKind::ExclamationMark => TokenKindV::ExclamationMark,
            TokenKind::Path(p) => TokenKindV::Path(p@),
            TokenKind::Word(w) => TokenKindV::Word(w@),
            TokenKind::Punctuation(c) => TokenKindV::Punctuation(*c),
            TokenKind::Newline => TokenKindV::Newline,
            TokenKind::Whitespace(w) => TokenKindV::Whitespace(w@),
            TokenKind::EOF => TokenKindV::EOF,
        }
    }
}

/// The textual rendering of a token kind: the text it stands for in the
/// log. The end-of-log sentinel covers no text and renders empty.
pub open spec fn spec_render(k: TokenKindV) -> Seq<char> {
    match k {
        TokenKindV::LeftParen => seq!['('],
        TokenKindV::RightParen => seq![')'],
        TokenKindV::ExclamationMark => seq!['!'],
        TokenKindV::Path(p) => p,
        TokenKindV::Word(w) => w,
        TokenKindV::Punctuation(c) => seq![c],
        TokenKindV::Newline => seq!['\n'],
        TokenKindV::Whitespace(w) => w,
        TokenKindV::EOF => Seq::empty(),
    }
}

impl TokenKind {
    /// The text this token stands for; the end-of-log sentinel renders as
    /// the empty string.
    pub fn to_string(&self) -> (r: String)
        ensures
            r@ == spec_render(self@),
    {
        proof {
            reveal_strlit("(");
            reveal_strlit(")");
            reveal_strlit("!");
            reveal_strlit("\n");
            reveal_strlit("");
        }
        let r = match self {
            TokenKind::LeftParen => String::from_str("("),
            TokenKind::RightParen => String::from_str(")"),
            TokenKind::ExclamationMark => String::from_str("!"),
            TokenKind::Path(p) => p.clone(),
            TokenKind::Word(w) => w.clone(),
            TokenKind::Punctuation(c) => {
                let mut s = String::new();
                push_char(&mut s, *c);
                s
            },
            TokenKind::Newline => String::from_str("\n"),
            TokenKind::Whitespace(w) => w.clone(),
            TokenKind::EOF => String::from_str(""),
        };
        proof {
            assert(r@ =~= spec_render(self@));
        }
        r
    }
}

impl PartialEq for TokenKind {
    fn eq(&self, other: &Self) -> (r: bool) {
        match (self, other) {
            (TokenKind::LeftParen, TokenKind::LeftParen) => true,
            (TokenKind::RightParen, TokenKind::RightParen) => true,
            (TokenKind::ExclamationMark, TokenKind::ExclamationMark) => true,
            (TokenKind::Path(a), TokenKind::Path(b)) => *a == *b,
            (TokenKind::Word(a), TokenKind::Word(b)) => *a == *b,
            (TokenKind::Punctuation(a), TokenKind::Punctuation(b)) => *a == *b,
            (TokenKind::Newline, TokenKind::Newline) => true,
            (TokenKind::Whitespace(a), TokenKind::Whitespace(b)) => *a == *b,
            (TokenKind::EOF, TokenKind::EOF) => true,
            _ => false,
        }
    }
}

impl vstd::std_specs::cmp::PartialEqSpecImpl for TokenKind {
    open spec fn obeys_eq_spec() -> bool {
        true
    }

    open spec fn eq_spec(&self, other: &Self) -> bool {
        self@ == other@
    }
}

/// A token: its kind and the offset of its first character in the source.
#[derive(Debug)]
pub struct Token {
    pub kind: TokenKind,
    pub pos: usize,
}

/// Mathematical image of a `Token`.
pub struct TokenV {
    pub kind: TokenKindV,
    pub pos: int,
}

impl View for Token {
    type V = TokenV;

    open spec fn view(&self) -> TokenV {
        TokenV { kind: self.kind@, pos: self.pos as int }
    }
}

impl PartialEq for Token {
    fn eq(&self, other: &Self) -> (r: bool) {
        self.kind == other.kind && self.pos == other.pos
    }
}

impl vstd::std_specs::cmp::PartialEqSpecImpl for Token {
    open spec fn obeys_eq_spec() -> bool {
        true
    }

    open spec fn eq_spec(&self, other: &Self) -> bool {
        self@ == other@
    }
}

impl Token {
    pub fn new(kind: TokenKind, pos: usize) -> (t: Self)
        ensures
            t@.kind == kind@,
            t@.pos == pos as int,
    {
        Self { kind, pos }
    }

    pub fn has_kind(&self, kind: &TokenKind) -> (r: bool)
        ensures
            r == (self.kind@ == kind@),
    {
        &self.kind == kind
    }

    /// The text this token stands for.
    pub fn to_string(&self) -> (r: String)
        ensures
            r@ == spec_render(self@.kind),
    {
        self.kind.to_string()
    }
}

/// Whitespace in the lexer's narrow sense: any whitespace but a newline,
/// which is a token of its own.
pub open spec fn lexer_whitespace(c: char) -> bool {
    char_whitespace(c) && c != '\n'
}

/// End of the maximal alphabetic run starting at `i`.
pub open spec fn word_end(s: Seq<char>, i: int) -> int
    decreases s.len() - i,
{
    if i < s.len() && char_alphabetic(s[i]) {
        word_end(s, i + 1)
    } else {
        i
    }
}

/// End of the maximal non-newline whitespace run starting at `i`.
pub open spec fn whitespace_end(s: Seq<char>, i: int) -> int
    decreases s.len() - i,
{
    if i < s.len() && lexer_whitespace(s[i]) {
        whitespace_end(s, i + 1)
    } else {
        i
    }
}

/// A path starts at `i` when the character there is `/`, or is `.` with `/`
/// right after it.
pub open spec fn path_start_at(s: Seq<char>, i: int) -> bool {
    (0 <= i < s.len() && s[i] == '/') || (0 <= i && i + 1 < s.len() && s[i] == '.' && s[i + 1]
        == '/')
}

/// End of the run of path-start characters (`./` and `/` prefixes) at `i`.
pub open spec fn path_prefix_end(s: Seq<char>, i: int) -> int
    decreases s.len() - i,
{
    if path_start_at(s, i) {
        path_prefix_end(s, i + 1)
    } else {
        i
    }
}

/// A line-initial marker that denotes the start of an unrelated record and
/// so terminates a path without being consumed: one of `"\n! "`,
/// `"\nDictionary:"`, `"\nPackage:"`, `"\nFile:"`, `"\nLaTeX"`,
/// `"\nDocument Class:"`.
pub open spec fn stop_marker_at(s: Seq<char>, i: int) -> bool {
    0 <= i && s[i] == '\n' && (
    // "\n! "
    (i + 3 <= s.len() && s[i + 1] == '!' && s[i + 2] == ' ')
    // "\nDictionary:"
    || (i + 12 <= s.len() && s[i + 1] == 'D' && s[i + 2] == 'i' && s[i + 3] == 'c' && s[i + 4]
        == 't' && s[i + 5] == 'i' && s[i + 6] == 'o' && s[i + 7] == 'n' && s[i + 8] == 'a' && s[i
        + 9] == 'r' && s[i + 10] == 'y' && s[i + 11] == ':')
    // "\nPackage:"
    || (i + 9 <= s.len() && s[i + 1] == 'P' && s[i + 2] == 'a' && s[i + 3] == 'c' && s[i + 4]
        == 'k' && s[i + 5] == 'a' && s[i + 6] == 'g' && s[i + 7] == 'e' && s[i + 8] == ':')
    // "\nFile:"
    || (i + 6 <= s.len() && s[i + 1] == 'F' && s[i + 2] == 'i' && s[i + 3] == 'l' && s[i + 4]
        == 'e' && s[i + 5] == ':')
    // "\nLaTeX"
    || (i + 6 <= s.len() && s[i + 1] == 'L' && s[i + 2] == 'a' && s[i + 3] == 'T' && s[i + 4]
        == 'e' && s[i + 5] == 'X')
    // "\nDocument Class:"
    || (i + 16 <= s.len() && s[i + 1] == 'D' && s[i + 2] == 'o' && s[i + 3] == 'c' && s[i + 4]
        == 'u' && s[i + 5] == 'm' && s[i + 6] == 'e' && s[i + 7] == 'n' && s[i + 8] == 't' && s[i
        + 9] == ' ' && s[i + 10] == 'C' && s[i + 11] == 'l' && s[i + 12] == 'a' && s[i + 13] == 's'
        && s[i + 14] == 's' && s[i + 15] == ':'))
}

/// Whether the path body scan stops at `i` without consuming the character
/// there: at a terminator character, at a stop marker, at a blank line
/// (`\n` followed by `\n`), or at other whitespace.
pub open spec fn path_stop_at(s: Seq<char>, i: int) -> bool {
    if !(0 <= i < s.len()) {
        true
    } else {
        let c = s[i];
        if c == '(' || c == ')' || c == '<' || c == '>' || c == '[' || c == ']' || c == '!' || c
            == '\\' {
            true
        } else if stop_marker_at(s, i) {
            true
        } else if c == '\n' {
            // a blank line terminates; a single wrapped newline does not
            i + 1 < s.len() && s[i + 1] == '\n'
        } else {
            char_whitespace(c)
        }
    }
}

/// End of the path body starting at `i`: the first stop position; single
/// newlines inside the body are passed over (TeX wraps long paths).
pub open spec fn path_body_end(s: Seq<char>, i: int) -> int
    decreases s.len() - i,
{
    if path_stop_at(s, i) {
        i
    } else {
        path_body_end(s, i + 1)
    }
}

/// The characters the path body starting at `i` contributes: everything up
/// to the stop position except the silently consumed single newlines.
pub open spec fn path_body_str(s: Seq<char>, i: int) -> Seq<char>
    decreases s.len() - i,
{
    if path_stop_at(s, i) {
        Seq::empty()
    } else if s[i] == '\n' {
        path_body_str(s, i + 1)
    } else {
        seq![s[i]] + path_body_str(s, i + 1)
    }
}

/// The string of the path token starting at `i`: the `./` / `/` prefix run
/// followed by the body's characters.
pub open spec fn spec_path_str(s: Seq<char>, i: int) -> Seq<char> {
    s.subrange(i, path_prefix_end(s, i)) + path_body_str(s, path_prefix_end(s, i))
}

/// The offset just past the path token starting at `i`.
pub open spec fn spec_path_end(s: Seq<char>, i: int) -> int {
    path_body_end(s, path_prefix_end(s, i))
}

/// The kind of the token starting at offset `i` of `s`. The rules fire in
/// order: the four single-character tokens, alphabetic runs, non-newline
/// whitespace runs, path starts, and lastly single punctuation characters.
pub open spec fn lex_kind(s: Seq<char>, i: int) -> TokenKindV {
    let c = s[i];
    if c == '(' {
        TokenKindV::LeftParen
    } else if c == ')' {
        TokenKindV::RightParen
    } else if c == '!' {
        TokenKindV::ExclamationMark
    } else if c == '\n' {
        TokenKindV::Newline
    } else if char_alphabetic(c) {
        TokenKindV::Word(s.subrange(i, word_end(s, i)))
    } else if lexer_whitespace(c) {
        TokenKindV::Whitespace(s.subrange(i, whitespace_end(s, i)))
    } else if path_start_at(s, i) {
        TokenKindV::Path(spec_path_str(s, i))
    } else {
        TokenKindV::Punctuation(c)
    }
}

/// The offset just past the token starting at offset `i` of `s`.
pub open spec fn lex_next(s: Seq<char>, i: int) -> int {
    let c = s[i];
    if c == '(' || c == ')' || c == '!' || c == '\n' {
        i + 1
    } else if char_alphabetic(c) {
        word_end(s, i)
    } else if lexer_whitespace(c) {
        whitespace_end(s, i)
    } else if path_start_at(s, i) {
        spec_path_end(s, i)
    } else {
        i + 1
    }
}

/// The token stream of `s` from offset `i` on: the tokens in order,
/// terminated by the end-of-log sentinel at offset `s.len()`.
pub open spec fn spec_tokenize_from(s: Seq<char>, i: int) -> Seq<TokenV>
    decreases s.len() - i,
{
    if !(0 <= i < s.len()) {
        seq![TokenV { kind: TokenKindV::EOF, pos: s.len() as int }]
    } else {
        let t = TokenV { kind: lex_kind(s, i), pos: i };
        let j = lex_next(s, i);
        if i < j <= s.len() {
            seq![t] + spec_tokenize_from(s, j)
        } else {
            // lex_next always advances (lemma_lex_next_bounds); this branch
            // only guides the termination check
            seq![t]
        }
    }
}

/// The full token stream of `s`.
pub open spec fn spec_tokenize(s: Seq<char>) -> Seq<TokenV> {
    spec_tokenize_from(s, 0)
}

pub open spec fn token_views(ts: Seq<Token>) -> Seq<TokenV> {
    ts.map_values(|t: Token| t@)
}

proof fn lemma_word_end_bounds(s: Seq<char>, i: int)
    requires
        0 <= i <= s.len(),
    ensures
        i <= word_end(s, i) <= s.len(),
    decreases s.len() - i,
{
    if i < s.len() && char_alphabetic(s[i]) {
        lemma_word_end_bounds(s, i + 1);
    }
}

proof fn lemma_whitespace_end_bounds(s: Seq<char>, i: int)
    requires
        0 <= i <= s.len(),
    ensures
        i <= whitespace_end(s, i) <= s.len(),
    decreases s.len() - i,
{
    if i < s.len() && lexer_whitespace(s[i]) {
        lemma_whitespace_end_bounds(s, i + 1);
    }
}

proof fn lemma_path_prefix_end_bounds(s: Seq<char>, i: int)
    requires
        0 <= i <= s.len(),
    ensures
        i <= path_prefix_end(s, i) <= s.len(),
        path_start_at(s, i) ==> i + 1 <= path_prefix_end(s, i),
    decreases s.len() - i,
{
    if path_start_at(s, i) {
        lemma_path_prefix_end_bounds(s, i + 1);
    }
}

proof fn lemma_path_body_end_bounds(s: Seq<char>, i: int)
    requires
        0 <= i <= s.len(),
    ensures
        i <= path_body_end(s, i) <= s.len(),
    decreases s.len() - i,
{
    if !path_stop_at(s, i) {
        lemma_path_body_end_bounds(s, i + 1);
    }
}

proof fn lemma_word_run(s: Seq<char>, i: int, j: int)
    requires
        0 <= i <= j <= s.len(),
        forall|k: int| i <= k < j ==> char_alphabetic(s[k]),
        j == s.len() || !char_alphabetic(s[j]),
    ensures
        word_end(s, i) == j,
    decreases j - i,
{
    if i < j {
        lemma_word_run(s, i + 1, j);
    }
}

proof fn lemma_whitespace_run(s: Seq<char>, i: int, j: int)
    requires
        0 <= i <= j <= s.len(),
        forall|k: int| i <= k < j ==> lexer_whitespace(s[k]),
        j == s.len() || !lexer_whitespace(s[j]),
    ensures
        whitespace_end(s, i) == j,
    decreases j - i,
{
    if i < j {
        lemma_whitespace_run(s, i + 1, j);
    }
}

proof fn lemma_path_prefix_run(s: Seq<char>, i: int, j: int)
    requires
        0 <= i <= j <= s.len(),
        forall|k: int| i <= k < j ==> path_start_at(s, k),
        !path_start_at(s, j),
    ensures
        path_prefix_end(s, i) == j,
    decreases j - i,
{
    if i < j {
        lemma_path_prefix_run(s, i + 1, j);
    }
}

/// Every token occupies at least one character: the scan advances.
pub proof fn lemma_lex_next_bounds(s: Seq<char>, i: int)
    requires
        0 <= i < s.len(),
    ensures
        i < lex_next(s, i) <= s.len(),
{
    let c = s[i];
    if c == '(' || c == ')' || c == '!' || c == '\n' {
    } else if char_alphabetic(c) {
        lemma_word_end_bounds(s, i + 1);
    } else if lexer_whitespace(c) {
        lemma_whitespace_end_bounds(s, i + 1);
    } else if path_start_at(s, i) {
        lemma_path_prefix_end_bounds(s, i);
        lemma_path_body_end_bounds(s, path_prefix_end(s, i));
    }
}

/// The lexer's state: the characters of the log, the cursor, and whether
/// the end-of-log sentinel has been handed out yet.
struct Lexer {
    chars: Vec<char>,
    cursor: usize,
    placed_eof: bool,
}

impl Lexer {
    /// Create a lexer from a source string.
    fn new(source: &str) -> (l: Self)
        ensures
            l.chars@ == source@,
            l.cursor == 0,
            !l.placed_eof,
    {
        Self { chars: crate::text::chars_of(source), cursor: 0, placed_eof: false }
    }

    /// The character `offset` places away from the cursor, if in range.
    fn peak(&self, offset: isize) -> (r: Option<char>)
        ensures
            r == if 0 <= self.cursor + offset < self.chars@.len() {
                Some(self.chars@[self.cursor + offset])
            } else {
                None::<char>
            },
    {
        let n = self.chars.len();
        if offset >= 0 {
            let off = offset as usize;
            if self.cursor <= usize::MAX - off && self.cursor + off < n {
                Some(self.chars[self.cursor + off])
            } else {
                None
            }
        } else {
            let back: usize = if offset == isize::MIN {
                (isize::MAX as usize) + 1
            } else {
                (-offset) as usize
            };
            if self.cursor >= back && self.cursor - back < n {
                Some(self.chars[self.cursor - back])
            } else {
                None
            }
        }
    }

    /// The character at the cursor.
    fn current(&self) -> (r: Option<char>)
        ensures
            r == if self.cursor < self.chars@.len() {
                Some(self.chars@[self.cursor as int])
            } else {
                None::<char>
            },
    {
        if self.cursor < self.chars.len() {
            Some(self.chars[self.cursor])
        } else {
            None
        }
    }

    /// The character at the cursor; advances the cursor past it.
    fn consume(&mut self) -> (r: Option<char>)
        ensures
            final(self).chars@ == old(self).chars@,
            final(self).placed_eof == old(self).placed_eof,
            old(self).cursor < old(self).chars@.len() ==> final(self).cursor == old(self).cursor
                + 1 && r == Some(old(self).chars@[old(self).cursor as int]),
            old(self).cursor >= old(self).chars@.len() ==> final(self).cursor == old(self).cursor
                && r is None,
    {
        if self.cursor < self.chars.len() {
            let c = self.chars[self.cursor];
            self.cursor = self.cursor + 1;
            Some(c)
        } else {
            None
        }
    }

    fn is_whitespace(c: &char) -> (r: bool)
        ensures
            r == lexer_whitespace(*c),
    {
        c.is_whitespace() && *c != '\n'
    }


    /// Whether the character at the cursor continues a whitespace run.
    fn whitespace_at_cursor(&self) -> (r: bool)
        ensures
            r == (self.cursor < self.chars@.len() && lexer_whitespace(
                self.chars@[self.cursor as int],
            )),
    {
        match self.current() {
            Some(c) => Self::is_whitespace(&c),
            None => false,
        }
    }

    /// Whether the character at the cursor continues an alphabetic run.
    fn word_at_cursor(&self) -> (r: bool)
        ensures
            r == (self.cursor < self.chars@.len() && char_alphabetic(
                self.chars@[self.cursor as int],
            )),
    {
        match self.current() {
            Some(c) => Self::is_word_char(&c),
            None => false,
        }
    }

    fn consume_whitespace(&mut self) -> (w: String)
        requires
            old(self).cursor <= old(self).chars@.len(),
        ensures
            final(self).chars@ == old(self).chars@,
            final(self).placed_eof == old(self).placed_eof,
            final(self).cursor as int == whitespace_end(old(self).chars@, old(self).cursor as int),
            final(self).cursor <= final(self).chars@.len(),
            w@ == old(self).chars@.subrange(old(self).cursor as int, final(self).cursor as int),
    {
        let ghost s = self.chars@;
        let ghost c0 = self.cursor as int;
        let ghost pe = self.placed_eof;
        let mut whitespace = String::new();
        while self.whitespace_at_cursor()
            invariant
                self.chars@ == s,
                self.placed_eof == pe,
                0 <= c0 <= self.cursor as int <= s.len(),
                forall|k: int| c0 <= k < self.cursor as int ==> lexer_whitespace(s[k]),
                whitespace@ == s.subrange(c0, self.cursor as int),
            decreases s.len() - self.cursor,
        {
            let c = self.chars[self.cursor];
            push_char(&mut whitespace, c);
            let _ = self.consume();
            proof {
                assert(whitespace@ =~= s.subrange(c0, self.cursor as int));
            }
        }
        proof {
            lemma_whitespace_run(s, c0, self.cursor as int);
        }
        whitespace
    }

    fn is_word_char(c: &char) -> (r: bool)
        ensures
            r == char_alphabetic(*c),
    {
        c.is_alphabetic()
    }

    fn consume_word(&mut self) -> (w: String)
        requires
            old(self).cursor <= old(self).chars@.len(),
        ensures
            final(self).chars@ == old(self).chars@,
            final(self).placed_eof == old(self).placed_eof,
            final(self).cursor as int == word_end(old(self).chars@, old(self).cursor as int),
            final(self).cursor <= final(self).chars@.len(),
            w@ == old(self).chars@.subrange(old(self).cursor as int, final(self).cursor as int),
    {
        let ghost s = self.chars@;
        let ghost c0 = self.cursor as int;
        let ghost pe = self.placed_eof;
        let mut word = String::new();
        while self.word_at_cursor()
            invariant
                self.chars@ == s,
                self.placed_eof == pe,
                0 <= c0 <= self.cursor as int <= s.len(),
                forall|k: int| c0 <= k < self.cursor as int ==> char_alphabetic(s[k]),
                word@ == s.subrange(c0, self.cursor as int),
            decreases s.len() - self.cursor,
        {
            let c = self.chars[self.cursor];
            push_char(&mut word, c);
            let _ = self.consume();
            proof {
                assert(word@ =~= s.subrange(c0, self.cursor as int));
            }
        }
        proof {
            lemma_word_run(s, c0, self.cursor as int);
        }
        word
    }

    /// Returns `true` when the cursor is at the start of a path.
    fn at_path_start(&self) -> (r: bool)
        ensures
            r == path_start_at(self.chars@, self.cursor as int),
    {
        match self.current() {
            Some(c) => {
                if c == '/' {
                    true
                } else if c == '.' {
                    match self.peak(1) {
                        Some(d) => d == '/',
                        None => false,
                    }
                } else {
                    false
                }
            },
            None => false,
        }
    }

    /// Whether a line-initial record marker (see `stop_marker_at`) begins at
    /// the cursor.
    fn at_stop_marker(&self) -> (r: bool)
        requires
            self.cursor <= self.chars@.len(),
        ensures
            r == stop_marker_at(self.chars@, self.cursor as int),
    {
        let n = self.chars.len();
        let i = self.cursor;
        if i >= n || self.chars[i] != '\n' {
            return false;
        }
        let s = &self.chars;
        let excl = n - i >= 3 && s[i + 1] == '!' && s[i + 2] == ' ';
        let dict = n - i >= 12 && s[i + 1] == 'D' && s[i + 2] == 'i' && s[i + 3] == 'c' && s[i + 4]
            == 't' && s[i + 5] == 'i' && s[i + 6] == 'o' && s[i + 7] == 'n' && s[i + 8] == 'a' && s[i
            + 9] == 'r' && s[i + 10] == 'y' && s[i + 11] == ':';
        let pack = n - i >= 9 && s[i + 1] == 'P' && s[i + 2] == 'a' && s[i + 3] == 'c' && s[i + 4]
            == 'k' && s[i + 5] == 'a' && s[i + 6] == 'g' && s[i + 7] == 'e' && s[i + 8] == ':';
        let file = n - i >= 6 && s[i + 1] == 'F' && s[i + 2] == 'i' && s[i + 3] == 'l' && s[i + 4]
            == 'e' && s[i + 5] == ':';
        let latex = n - i >= 6 && s[i + 1] == 'L' && s[i + 2] == 'a' && s[i + 3] == 'T' && s[i + 4]
            == 'e' && s[i + 5] == 'X';
        let doc = n - i >= 16 && s[i + 1] == 'D' && s[i + 2] == 'o' && s[i + 3] == 'c' && s[i + 4]
            == 'u' && s[i + 5] == 'm' && s[i + 6] == 'e' && s[i + 7] == 'n' && s[i + 8] == 't' && s[i
            + 9] == ' ' && s[i + 10] == 'C' && s[i + 11] == 'l' && s[i + 12] == 'a' && s[i + 13]
            == 's' && s[i + 14] == 's' && s[i + 15] == ':';
        excl || dict || pack || file || latex || doc
    }

    /// Whether the path body scan stops at the cursor.
    fn at_path_stop(&self) -> (r: bool)
        requires
            self.cursor <= self.chars@.len(),
        ensures
            r == path_stop_at(self.chars@, self.cursor as int),
    {
        if self.cursor >= self.chars.len() {
            return true;
        }
        let c = self.chars[self.cursor];
        if c == '(' || c == ')' || c == '<' || c == '>' || c == '[' || c == ']' || c == '!' || c
            == '\\' {
            true
        } else if self.at_stop_marker() {
            true
        } else if c == '\n' {
            self.cursor + 1 < self.chars.len() && self.chars[self.cursor + 1] == '\n'
        } else {
            c.is_whitespace()
        }
    }

    /// Consume a path: its `./` or `/` prefix, then characters up to the
    /// first stop, passing silently over single newlines (TeX wraps long
    /// paths across lines; a blank line or a line-initial record marker
    /// terminates instead).
    fn consume_path(&mut self) -> (p: String)
        requires
            old(self).cursor <= old(self).chars@.len(),
        ensures
            final(self).chars@ == old(self).chars@,
            final(self).placed_eof == old(self).placed_eof,
            final(self).cursor as int == spec_path_end(old(self).chars@, old(self).cursor as int),
            final(self).cursor <= final(self).chars@.len(),
            p@ == spec_path_str(old(self).chars@, old(self).cursor as int),
    {
        let ghost s = self.chars@;
        let ghost c0 = self.cursor as int;
        let ghost pef = self.placed_eof;
        let mut p = String::new();
        while self.at_path_start()
            invariant
                self.chars@ == s,
                self.placed_eof == pef,
                0 <= c0 <= self.cursor as int <= s.len(),
                forall|k: int| c0 <= k < self.cursor as int ==> path_start_at(s, k),
                p@ == s.subrange(c0, self.cursor as int),
            decreases s.len() - self.cursor,
        {
            let c = self.chars[self.cursor];
            push_char(&mut p, c);
            let _ = self.consume();
            proof {
                assert(p@ =~= s.subrange(c0, self.cursor as int));
            }
        }
        proof {
            lemma_path_prefix_run(s, c0, self.cursor as int);
        }
        let ghost pe = self.cursor as int;
        let mut body = String::new();
        while !self.at_path_stop()
            invariant
                self.chars@ == s,
                self.placed_eof == pef,
                pe <= self.cursor as int <= s.len(),
                0 <= pe,
                path_body_end(s, pe) == path_body_end(s, self.cursor as int),
                path_body_str(s, pe) == body@ + path_body_str(s, self.cursor as int),
            decreases s.len() - self.cursor,
        {
            let c = self.chars[self.cursor];
            if c == '\n' {
                // a wrapped line: stitch the path together silently
                let _ = self.consume();
            } else {
                push_char(&mut body, c);
                let _ = self.consume();
                proof {
                    assert(path_body_str(s, pe) =~= body@ + path_body_str(
                        s,
                        self.cursor as int,
                    ));
                }
            }
        }
        proof {
            assert(path_body_str(s, self.cursor as int) =~= Seq::<char>::empty());
            assert(body@ =~= path_body_str(s, pe));
        }
        p.append(body.as_str());
        p
    }

    /// Lex the next token, or nothing at the end of the text.
    fn next_token(&mut self) -> (r: Option<Token>)
        requires
            old(self).cursor <= old(self).chars@.len(),
        ensures
            final(self).chars@ == old(self).chars@,
            final(self).placed_eof == old(self).placed_eof,
            final(self).cursor <= final(self).chars@.len(),
            old(self).cursor < old(self).chars@.len() ==> (match r {
                Some(t) => {
                    &&& t@.kind == lex_kind(old(self).chars@, old(self).cursor as int)
                    &&& t@.pos == old(self).cursor as int
                    &&& final(self).cursor as int == lex_next(old(self).chars@, old(self).cursor as int)
                },
                None => false,
            }),
            old(self).cursor >= old(self).chars@.len() ==> r is None && final(self).cursor == old(self).cursor,
    {
        let pos = self.cursor;
        let c = match self.current() {
            Some(c) => c,
            None => {
                return None;
            },
        };
        if c == '(' {
            let _ = self.consume();
            Some(Token::new(TokenKind::LeftParen, pos))
        } else if c == ')' {
            let _ = self.consume();
            Some(Token::new(TokenKind::RightParen, pos))
        } else if c == '!' {
            let _ = self.consume();
            Some(Token::new(TokenKind::ExclamationMark, pos))
        } else if c == '\n' {
            let _ = self.consume();
            Some(Token::new(TokenKind::Newline, pos))
        } else if Self::is_word_char(&c) {
            let word = self.consume_word();
            Some(Token::new(TokenKind::Word(word), pos))
        } else if Self::is_whitespace(&c) {
            let whitespace = self.consume_whitespace();
            Some(Token::new(TokenKind::Whitespace(whitespace), pos))
        } else if self.at_path_start() {
            let path = self.consume_path();
            proof {
                lemma_path_prefix_end_bounds(self.chars@, pos as int);
                lemma_path_body_end_bounds(self.chars@, path_prefix_end(self.chars@, pos as int));
            }
            Some(Token::new(TokenKind::Path(path), pos))
        } else {
            let _ = self.consume();
            Some(Token::new(TokenKind::Punctuation(c), pos))
        }
    }

    /// The next token of the stream; after the text is exhausted, the
    /// end-of-log sentinel exactly once, and nothing on any later pull.
    fn next(&mut self) -> (r: Option<Token>)
        requires
            old(self).cursor <= old(self).chars@.len(),
        ensures
            final(self).chars@ == old(self).chars@,
            final(self).cursor <= final(self).chars@.len(),
            old(self).cursor < old(self).chars@.len() ==> (match r {
                Some(t) => {
                    &&& t@.kind == lex_kind(old(self).chars@, old(self).cursor as int)
                    &&& t@.pos == old(self).cursor as int
                    &&& final(self).cursor as int == lex_next(old(self).chars@, old(self).cursor as int)
                    &&& final(self).placed_eof == old(self).placed_eof
                },
                None => false,
            }),
            old(self).cursor >= old(self).chars@.len() && !old(self).placed_eof ==> (match r {
                Some(t) => {
                    &&& t@.kind == TokenKindV::EOF
                    &&& t@.pos == old(self).cursor as int
                    &&& final(self).placed_eof
                    &&& final(self).cursor == old(self).cursor
                },
                None => false,
            }),
            old(self).cursor >= old(self).chars@.len() && old(self).placed_eof ==> r is None
                && final(self).cursor == old(self).cursor && final(self).placed_eof,
    {
        match self.next_token() {
            Some(t) => Some(t),
            None => {
                if !self.placed_eof {
                    self.placed_eof = true;
                    Some(Token::new(TokenKind::EOF, self.cursor))
                } else {
                    None
                }
            },
        }
    }
}

/// Tokenize the whole log: the token stream in order, terminated by exactly
/// one end-of-log sentinel.
pub fn tokenize(log: &str) -> (r: Vec<Token>)
    ensures
        token_views(r@) == spec_tokenize(log@),
{
    let mut lexer = Lexer::new(log);
    let mut tokens: Vec<Token> = Vec::new();
    loop
        invariant
            lexer.chars@ == log@,
            lexer.cursor <= log@.len(),
            !lexer.placed_eof ==> token_views(tokens@) + spec_tokenize_from(
                log@,
                lexer.cursor as int,
            ) == spec_tokenize(log@),
            lexer.placed_eof ==> lexer.cursor == log@.len() && token_views(tokens@)
                == spec_tokenize(log@),
        decreases log@.len() - lexer.cursor + (if lexer.placed_eof {
            0int
        } else {
            1int
        }),
    {
        let ghost cur = lexer.cursor as int;
        let ghost old_tokens = tokens@;
        let ghost was_eof = lexer.placed_eof;
        match lexer.next() {
            Some(t) => {
                tokens.push(t);
                proof {
                    assert(token_views(tokens@) =~= token_views(old_tokens).push(t@));
                    if cur < log@.len() {
                        lemma_lex_next_bounds(log@, cur);
                        assert(spec_tokenize_from(log@, cur) == seq![t@] + spec_tokenize_from(
                            log@,
                            lexer.cursor as int,
                        ));
                        assert(token_views(tokens@) + spec_tokenize_from(
                            log@,
                            lexer.cursor as int,
                        ) =~= token_views(old_tokens) + spec_tokenize_from(log@, cur));
                    } else {
                        assert(spec_tokenize_from(log@, cur) =~= seq![t@]);
                        assert(token_views(tokens@) =~= token_views(old_tokens) + spec_tokenize_from(
                            log@,
                            cur,
                        ));
                    }
                }
            },
            None => {
                return tokens;
            },
        }
    }
}

/// The concatenation of the textual renderings of a token stream.
pub open spec fn renders(ts: Seq<TokenV>) -> Seq<char>
    decreases ts.len(),
{
    if ts.len() == 0 {
        Seq::empty()
    } else {
        spec_render(ts[0].kind) + renders(ts.drop_first())
    }
}

/// Whether, from offset `i` on, every token renders exactly the text it was
/// lexed from. Only a path token can render less: it drops the single
/// newlines it stitches over.
pub open spec fn lex_exact_from(s: Seq<char>, i: int) -> bool
    decreases s.len() - i,
{
    if !(0 <= i < s.len()) {
        true
    } else {
        let j = lex_next(s, i);
        spec_render(lex_kind(s, i)) == s.subrange(i, j) && (if i < j <= s.len() {
            lex_exact_from(s, j)
        } else {
            true
        })
    }
}

/// Every token but a path renders exactly the text it covers.
pub proof fn lemma_nonpath_step_exact(s: Seq<char>, i: int)
    requires
        0 <= i < s.len(),
        !(lex_kind(s, i) is Path),
    ensures
        spec_render(lex_kind(s, i)) == s.subrange(i, lex_next(s, i)),
{
    lemma_lex_next_bounds(s, i);
    assert(spec_render(lex_kind(s, i)) =~= s.subrange(i, lex_next(s, i)));
}

/// Token completeness: where every token of the stream renders exactly the
/// text it was lexed from, the concatenated renderings (the end-of-log
/// sentinel renders empty) restore the input from `i` on.
pub proof fn lemma_token_completeness_from(s: Seq<char>, i: int)
    requires
        0 <= i <= s.len(),
        lex_exact_from(s, i),
    ensures
        renders(spec_tokenize_from(s, i)) == s.subrange(i, s.len() as int),
    decreases s.len() - i,
{
    if i == s.len() {
        let ts = spec_tokenize_from(s, i);
        assert(ts.drop_first() =~= Seq::<TokenV>::empty());
        assert(renders(ts.drop_first()) == Seq::<char>::empty());
        assert(renders(ts) =~= s.subrange(i, s.len() as int));
    } else {
        let j = lex_next(s, i);
        lemma_lex_next_bounds(s, i);
        lemma_token_completeness_from(s, j);
        let t = TokenV { kind: lex_kind(s, i), pos: i };
        let ts = spec_tokenize_from(s, i);
        assert(ts == seq![t] + spec_tokenize_from(s, j));
        assert(ts.drop_first() =~= spec_tokenize_from(s, j));
        assert(renders(ts) =~= s.subrange(i, s.len() as int));
    }
}

/// Without a `/` no path token can start, so every token renders exactly.
proof fn lemma_no_slash_exact(s: Seq<char>, i: int)
    requires
        0 <= i,
        forall|k: int| 0 <= k < s.len() ==> s[k] != '/',
    ensures
        lex_exact_from(s, i),
    decreases s.len() - i,
{
    if 0 <= i < s.len() {
        lemma_lex_next_bounds(s, i);
        assert(!path_start_at(s, i));
        lemma_nonpath_step_exact(s, i);
        lemma_no_slash_exact(s, lex_next(s, i));
    }
}

/// Token completeness for texts without paths: the concatenation of the
/// textual renderings of the token stream equals the input text. (A path
/// wrapped across a newline renders without that newline, so the law is
/// stated for inputs in which no path token can arise.)
pub proof fn lemma_token_completeness(s: Seq<char>)
    requires
        forall|k: int| 0 <= k < s.len() ==> s[k] != '/',
    ensures
        renders(spec_tokenize(s)) == s,
{
    lemma_no_slash_exact(s, 0);
    lemma_token_completeness_from(s, 0);
    assert(s.subrange(0, s.len() as int) =~= s);
}

/// Exactly one end-of-log sentinel terminates the stream: the last token is
/// one, it sits at the text's end, and no earlier token is one.
pub proof fn lemma_eof_unique(s: Seq<char>, i: int)
    requires
        0 <= i,
    ensures
        spec_tokenize_from(s, i).len() >= 1,
        spec_tokenize_from(s, i).last().kind is EOF,
        spec_tokenize_from(s, i).last().pos == s.len(),
        forall|k: int|
            0 <= k < spec_tokenize_from(s, i).len() - 1 ==> !(#[trigger] spec_tokenize_from(
                s,
                i,
            )[k].kind is EOF),
    decreases s.len() - i,
{
    if 0 <= i < s.len() {
        let j = lex_next(s, i);
        lemma_lex_next_bounds(s, i);
        lemma_eof_unique(s, j);
        assert(!(lex_kind(s, i) is EOF));
        let ts = spec_tokenize_from(s, i);
        let rest = spec_tokenize_from(s, j);
        assert(ts.last() == rest.last());
        assert forall|k: int| 0 <= k < ts.len() - 1 implies !(#[trigger] ts[k].kind is EOF) by {
            if k > 0 {
                assert(ts[k] == rest[k - 1]);
            }
        }
    }
}

/// Token positions strictly increase along the stream, never lie before the
/// offset the scan started from, and never lie past the text's end.
pub proof fn lemma_token_positions(s: Seq<char>, i: int)
    requires
        0 <= i <= s.len(),
    ensures
        forall|k: int|
            0 <= k < spec_tokenize_from(s, i).len() ==> i <= (#[trigger] spec_tokenize_from(
                s,
                i,
            )[k].pos) <= s.len(),
        forall|k: int, l: int|
            0 <= k < l < spec_tokenize_from(s, i).len() ==> (#[trigger] spec_tokenize_from(
                s,
                i,
            )[k].pos) < (#[trigger] spec_tokenize_from(s, i)[l].pos),
    decreases s.len() - i,
{
    if 0 <= i < s.len() {
        let j = lex_next(s, i);
        lemma_lex_next_bounds(s, i);
        lemma_token_positions(s, j);
        let ts = spec_tokenize_from(s, i);
        let rest = spec_tokenize_from(s, j);
        assert forall|k: int| 0 <= k < ts.len() implies i <= (#[trigger] ts[k].pos) <= s.len() by {
            if k > 0 {
                assert(ts[k] == rest[k - 1]);
            }
        }
        assert forall|k: int, l: int| 0 <= k < l < ts.len() implies (#[trigger] ts[k].pos) < (
        #[trigger] ts[l].pos) by {
            assert(ts[l] == rest[l - 1]);
            if k > 0 {
                assert(ts[k] == rest[k - 1]);
            }
        }
    }
}

} // verus!
