//! The parser: recursive descent over the token stream, building the tree
//! of file scopes with the diagnostics recognised inside each scope.

use crate::lexer;
use crate::lexer::{Token, TokenKind, TokenKindV, TokenV};
use crate::log::Log;
use crate::text::SourceText;
use vstd::prelude::*;
use vstd::string::StrSliceExecFns;
use vstd::string::StringExecFns;

verus! {

broadcast use vstd::seq::axiom_seq_index_decreases, vstd::std_specs::vec::axiom_vec_decreases_to_view;

/// How severe a diagnostic is.
#[derive(Clone, Copy, Debug, PartialEq, Eq, Structural)]
pub enum DiagnosticLevel {
    Warning,
    Error,
}

/// The closed vocabulary of diagnostics a TeX log announces.
#[derive(Clone, Debug, PartialEq)]
pub enum TexDiagnosticKind {
    Font,
    Package(String),
    UnderfullHbox,
    OverfullHbox,
    PdfLatex,
    GenericError(String),
}

/// Mathematical image of a `TexDiagnosticKind`.
pub enum TexDiagnosticKindV {
    Font,
    Package(Seq<char>),
    UnderfullHbox,
    OverfullHbox,
    PdfLatex,
    GenericError(Seq<char>),
}

impl View for TexDiagnosticKind {
    type V = TexDiagnosticKindV;

    open spec fn view(&self) -> TexDiagnosticKindV {
        match self {
            TexDiagnosticKind::Font => TexDiagnosticKindV::Font,
            TexDiagnosticKind::Package(p) => TexDiagnosticKindV::Package(p@),
            TexDiagnosticKind::UnderfullHbox => TexDiagnosticKindV::UnderfullHbox,
            TexDiagnosticKind::OverfullHbox => TexDiagnosticKindV::OverfullHbox,
            TexDiagnosticKind::PdfLatex => TexDiagnosticKindV::PdfLatex,
            TexDiagnosticKind::GenericError(e) => TexDiagnosticKindV::GenericError(e@),
        }
    }
}

/// The intrinsic severity of a diagnostic kind: a generic error is an
/// error, everything else warns.
pub open spec fn spec_level(k: TexDiagnosticKindV) -> DiagnosticLevel {
    match k {
        TexDiagnosticKindV::GenericError(_) => DiagnosticLevel::Error,
        _ => DiagnosticLevel::Warning,
    }
}

impl TexDiagnosticKind {
    pub fn level(&self) -> (r: DiagnosticLevel)
        ensures
            r == spec_level(self@),
    {
        match self {
            TexDiagnosticKind::Font => DiagnosticLevel::Warning,
            TexDiagnosticKind::Package(_) => DiagnosticLevel::Warning,
            TexDiagnosticKind::UnderfullHbox => DiagnosticLevel::Warning,
            TexDiagnosticKind::OverfullHbox => DiagnosticLevel::Warning,
            TexDiagnosticKind::PdfLatex => DiagnosticLevel::Warning,
            TexDiagnosticKind::GenericError(_) => DiagnosticLevel::Error,
        }
    }
}

/// A diagnostic: its kind and the raw text of its body, with surrounding
/// whitespace stripped.
#[derive(Clone, Debug, PartialEq)]
pub struct TexDiagnostic {
    pub kind: TexDiagnosticKind,
    pub message: String,
}

/// Mathematical image of a `TexDiagnostic`.
pub struct TexDiagnosticV {
    pub kind: TexDiagnosticKindV,
    pub message: Seq<char>,
}

impl View for TexDiagnostic {
    type V = TexDiagnosticV;

    open spec fn view(&self) -> TexDiagnosticV {
        TexDiagnosticV { kind: self.kind@, message: self.message@ }
    }
}

impl TexDiagnostic {
    pub fn level(&self) -> (r: DiagnosticLevel)
        ensures
            r == spec_level(self@.kind),
    {
        self.kind.level()
    }
}

/// A node of the file-scope tree: the file the engine opened, the offsets
/// of the opening and closing parentheses, the prose emitted inside this
/// scope but outside any child scope, the child scopes in the order they
/// were opened, and the diagnostics attributed to this scope.
pub struct Node {
    /// Path to the file that this node represents
    pub file: String,
    /// Log messages for this node
    pub messages: String,
    /// Position of the node in the log file
    pub start_pos: usize,
    pub end_pos: usize,
    /// The other files that this one calls
    pub calls: Vec<Node>,
    /// List of diagnostics in this node
    pub diagnostics: Vec<TexDiagnostic>,
    /// The token index at which each diagnostic's header was recognised
    pub diag_sites: Ghost<Seq<int>>,
}

/// Mathematical image of a `Node`.
pub struct NodeV {
    pub file: Seq<char>,
    pub messages: Seq<char>,
    pub start_pos: int,
    pub end_pos: int,
    pub calls: Seq<NodeV>,
    pub diagnostics: Seq<TexDiagnosticV>,
    pub diag_sites: Seq<int>,
}

/// The images of a list of diagnostics, in order.
pub open spec fn diags_view(v: Seq<TexDiagnostic>) -> Seq<TexDiagnosticV> {
    v.map_values(|d: TexDiagnostic| d@)
}

/// The image of a node, children included.
pub open spec fn node_view(n: Node) -> NodeV
    decreases n,
{
    NodeV {
        file: n.file@,
        messages: n.messages@,
        start_pos: n.start_pos as int,
        end_pos: n.end_pos as int,
        calls: nodes_view(n.calls@),
        diagnostics: diags_view(n.diagnostics@),
        diag_sites: n.diag_sites@,
    }
}

/// The images of a list of nodes, in order.
pub open spec fn nodes_view(v: Seq<Node>) -> Seq<NodeV>
    decreases v,
{
    if v.len() == 0 {
        Seq::empty()
    } else {
        seq![node_view(v[0])] + nodes_view(v.drop_first())
    }
}

/// `nodes_view` is the pointwise image.
pub proof fn lemma_nodes_view(v: Seq<Node>)
    ensures
        nodes_view(v).len() == v.len(),
        forall|i: int| 0 <= i < v.len() ==> nodes_view(v)[i] == node_view(#[trigger] v[i]),
    decreases v.len(),
{
    if v.len() > 0 {
        lemma_nodes_view(v.drop_first());
        assert forall|i: int| 0 <= i < v.len() implies nodes_view(v)[i] == node_view(
            #[trigger] v[i],
        ) by {
            if i > 0 {
                assert(v.drop_first()[i - 1] == v[i]);
                assert(nodes_view(v)[i] == nodes_view(v.drop_first())[i - 1]);
            }
        }
    }
}

impl View for Node {
    type V = NodeV;

    open spec fn view(&self) -> NodeV {
        node_view(*self)
    }
}

/// Clone one diagnostic, preserving its image.
pub(crate) fn clone_diag(d: &TexDiagnostic) -> (r: TexDiagnostic)
    ensures
        r@ == d@,
{
    let kind = match &d.kind {
        TexDiagnosticKind::Font => TexDiagnosticKind::Font,
        TexDiagnosticKind::Package(p) => TexDiagnosticKind::Package(p.clone()),
        TexDiagnosticKind::UnderfullHbox => TexDiagnosticKind::UnderfullHbox,
        TexDiagnosticKind::OverfullHbox => TexDiagnosticKind::OverfullHbox,
        TexDiagnosticKind::PdfLatex => TexDiagnosticKind::PdfLatex,
        TexDiagnosticKind::GenericError(e) => TexDiagnosticKind::GenericError(e.clone()),
    };
    TexDiagnostic { kind, message: d.message.clone() }
}

impl Node {
    pub fn diagnostics(&self) -> (r: &Vec<TexDiagnostic>)
        ensures
            diags_view(r@) == self@.diagnostics,
    {
        &self.diagnostics
    }
}

/// Tree nesting: each child lies strictly inside its parent, children are
/// pairwise disjoint and ordered, and so on down the tree.
pub open spec fn node_wf(n: NodeV) -> bool
    decreases n,
{
    &&& n.start_pos < n.end_pos
    &&& forall|k: int|
        0 <= k < n.calls.len() ==> node_wf(#[trigger] n.calls[k]) && n.start_pos
            < n.calls[k].start_pos && n.calls[k].end_pos < n.end_pos
    &&& forall|k: int|
        0 <= k < n.calls.len() - 1 ==> (#[trigger] n.calls[k]).end_pos < n.calls[k + 1].start_pos
}

/// Whether the offset `p` lies in the node's range (both ends included, as
/// the tree queries read it).
pub open spec fn encloses(n: NodeV, p: int) -> bool {
    n.start_pos <= p <= n.end_pos
}

/// Whether `m` is a node of the tree rooted at `r`.
pub open spec fn in_tree(r: NodeV, m: NodeV) -> bool
    decreases r,
{
    m == r || exists|k: int| 0 <= k < r.calls.len() && in_tree(#[trigger] r.calls[k], m)
}

/// The token `i` places into the stream, the index clamped into range as
/// the cursor primitives do.
pub open spec fn tok_at(ts: Seq<TokenV>, i: int) -> TokenV {
    let n = ts.len() as int;
    if i < 0 {
        ts[0]
    } else if i >= n {
        ts[n - 1]
    } else {
        ts[i]
    }
}

/// Token positions strictly increase along the stream (they do in every
/// stream the lexer produces).
pub open spec fn pos_increasing(ts: Seq<TokenV>) -> bool {
    forall|k: int, l: int| 0 <= k < l < ts.len() ==> (#[trigger] ts[k].pos) < (#[trigger] ts[l].pos)
}

/// The concatenated textual renderings of the tokens in `[a, b)`.
pub open spec fn range_text(ts: Seq<TokenV>, a: int, b: int) -> Seq<char> {
    lexer::renders(ts.subrange(a, b))
}

/// First offset at or after `i` whose character is not whitespace.
pub open spec fn skip_ws_left(s: Seq<char>, i: int) -> int
    decreases s.len() - i,
{
    if 0 <= i < s.len() && lexer::char_whitespace(s[i]) {
        skip_ws_left(s, i + 1)
    } else {
        i
    }
}

/// Last offset at or before `i` such that no whitespace precedes it only:
/// scanning from the right, the end of the text once trailing whitespace is
/// dropped.
pub open spec fn skip_ws_right(s: Seq<char>, i: int) -> int
    decreases i,
{
    if 0 < i <= s.len() && lexer::char_whitespace(s[i - 1]) {
        skip_ws_right(s, i - 1)
    } else {
        i
    }
}

/// The text with leading and trailing whitespace stripped.
pub open spec fn trim_of(s: Seq<char>) -> Seq<char> {
    let a = skip_ws_left(s, 0);
    let b = skip_ws_right(s, s.len() as int);
    if a <= b {
        s.subrange(a, b)
    } else {
        Seq::empty()
    }
}

/// Where the scan of a diagnostic body starting at `i` with `level` unclosed
/// text parentheses ends: at an unmatched right parenthesis (not consumed),
/// just past a blank line (the newline pair is consumed), or at the
/// end-of-log sentinel.
pub open spec fn msg_end(ts: Seq<TokenV>, i: int, level: int) -> int
    decreases ts.len() - i,
{
    if !(0 <= i < ts.len()) {
        i
    } else {
        match ts[i].kind {
            TokenKindV::LeftParen => msg_end(ts, i + 1, level + 1),
            TokenKindV::RightParen => if level > 0 {
                msg_end(ts, i + 1, level - 1)
            } else {
                i
            },
            TokenKindV::Newline => if tok_at(ts, i + 1).kind is Newline {
                if i + 2 <= ts.len() {
                    i + 2
                } else {
                    ts.len() as int
                }
            } else {
                msg_end(ts, i + 1, level)
            },
            TokenKindV::EOF => i,
            _ => msg_end(ts, i + 1, level),
        }
    }
}

/// End of a generic error's title: the first newline or end-of-log token at
/// or after `i`.
pub open spec fn title_end(ts: Seq<TokenV>, i: int) -> int
    decreases ts.len() - i,
{
    if i >= ts.len() {
        ts.len() as int
    } else if ts[i].kind is Newline || ts[i].kind is EOF {
        i
    } else {
        title_end(ts, i + 1)
    }
}

/// Where a generic error's body begins: walking backward from the `!`, the
/// scan stops below a blank line, below an end-of-log token, below a path
/// (the opening of the enclosing scope), or at the floor `lo`, which seals
/// off scopes and diagnostics already parsed.
pub open spec fn err_back(ts: Seq<TokenV>, c: int, lo: int) -> int
    decreases c - lo,
{
    if c <= lo {
        c
    } else if (tok_at(ts, c - 1).kind is Newline && tok_at(ts, c - 2).kind is Newline) || tok_at(
        ts,
        c - 1,
    ).kind is EOF || tok_at(ts, c - 1).kind is Path {
        c
    } else {
        err_back(ts, c - 1, lo)
    }
}

/// The payload of a word token, or the empty text for any other kind.
pub open spec fn word_payload(k: TokenKindV) -> Seq<char> {
    match k {
        TokenKindV::Word(w) => w,
        _ => Seq::empty(),
    }
}

/// The payload of a path token, or the empty text for any other kind.
pub open spec fn path_payload(k: TokenKindV) -> Seq<char> {
    match k {
        TokenKindV::Path(p) => p,
        _ => Seq::empty(),
    }
}

proof fn lemma_msg_end_bounds(ts: Seq<TokenV>, i: int, level: int)
    requires
        0 <= i <= ts.len(),
    ensures
        i <= msg_end(ts, i, level) <= ts.len(),
    decreases ts.len() - i,
{
    if 0 <= i < ts.len() {
        match ts[i].kind {
            TokenKindV::LeftParen => lemma_msg_end_bounds(ts, i + 1, level + 1),
            TokenKindV::RightParen => if level > 0 {
                lemma_msg_end_bounds(ts, i + 1, level - 1)
            },
            TokenKindV::Newline => if !(tok_at(ts, i + 1).kind is Newline) {
                lemma_msg_end_bounds(ts, i + 1, level)
            },
            TokenKindV::EOF => {
            },
            _ => lemma_msg_end_bounds(ts, i + 1, level),
        }
    }
}

proof fn lemma_title_end_bounds(ts: Seq<TokenV>, i: int)
    requires
        0 <= i <= ts.len(),
    ensures
        i <= title_end(ts, i) <= ts.len(),
    decreases ts.len() - i,
{
    if i < ts.len() && !(ts[i].kind is Newline || ts[i].kind is EOF) {
        lemma_title_end_bounds(ts, i + 1);
    }
}

proof fn lemma_err_back_bounds(ts: Seq<TokenV>, c: int, lo: int)
    requires
        0 <= lo <= c,
    ensures
        lo <= err_back(ts, c, lo) <= c,
    decreases c,
{
    if c > lo && !((tok_at(ts, c - 1).kind is Newline && tok_at(ts, c - 2).kind is Newline)
        || tok_at(ts, c - 1).kind is EOF || tok_at(ts, c - 1).kind is Path) {
        lemma_err_back_bounds(ts, c - 1, lo);
    }
}

/// Rendering one more token appends its rendering.
proof fn lemma_range_text_snoc(ts: Seq<TokenV>, a: int, b: int)
    requires
        0 <= a <= b < ts.len(),
    ensures
        range_text(ts, a, b + 1) == range_text(ts, a, b) + lexer::spec_render(ts[b].kind),
    decreases b - a,
{
    if a == b {
        assert(ts.subrange(a, b).len() == 0);
        assert(ts.subrange(a, b + 1) =~= seq![ts[b]]);
        assert(ts.subrange(a, b + 1).drop_first() =~= ts.subrange(a, b));
        assert(range_text(ts, a, b + 1) =~= range_text(ts, a, b) + lexer::spec_render(ts[b].kind));
    } else {
        lemma_range_text_snoc(ts, a + 1, b);
        assert(ts.subrange(a, b).drop_first() =~= ts.subrange(a + 1, b));
        assert(ts.subrange(a, b + 1).drop_first() =~= ts.subrange(a + 1, b + 1));
        assert(ts.subrange(a, b)[0] == ts[a]);
        assert(ts.subrange(a, b + 1)[0] == ts[a]);
        assert(range_text(ts, a, b + 1) =~= range_text(ts, a, b) + lexer::spec_render(ts[b].kind));
    }
}

/// Strip leading and trailing whitespace.
fn trim_chars(s: &str) -> (r: String)
    ensures
        r@ == trim_of(s@),
{
    let chars = crate::text::chars_of(s);
    let n = chars.len();
    let mut a: usize = 0;
    while a < n && chars[a].is_whitespace()
        invariant
            chars@ == s@,
            n == s@.len(),
            0 <= a <= n,
            skip_ws_left(s@, 0) == skip_ws_left(s@, a as int),
        decreases n - a,
    {
        a = a + 1;
    }
    let mut b: usize = n;
    while b > 0 && chars[b - 1].is_whitespace()
        invariant
            chars@ == s@,
            n == s@.len(),
            0 <= b <= n,
            skip_ws_right(s@, n as int) == skip_ws_right(s@, b as int),
        decreases b,
    {
        b = b - 1;
    }
    if a <= b {
        s.substring_char(a, b).to_owned()
    } else {
        String::new()
    }
}

/// The `pdfTeX warning:` header shape, peeked at the cursor.
pub open spec fn pdftex_head(ts: Seq<TokenV>, c: int) -> bool {
    &&& tok_at(ts, c).kind == TokenKindV::Word("pdfTeX"@)
    &&& tok_at(ts, c + 1).kind is Whitespace
    &&& tok_at(ts, c + 2).kind == TokenKindV::Word("warning"@)
    &&& tok_at(ts, c + 3).kind == TokenKindV::Punctuation(':')
}

/// The `LaTeX Font Warning:` header shape.
pub open spec fn font_head(ts: Seq<TokenV>, c: int) -> bool {
    &&& tok_at(ts, c).kind == TokenKindV::Word("LaTeX"@)
    &&& tok_at(ts, c + 1).kind is Whitespace
    &&& tok_at(ts, c + 2).kind == TokenKindV::Word("Font"@)
    &&& tok_at(ts, c + 3).kind is Whitespace
    &&& tok_at(ts, c + 4).kind == TokenKindV::Word("Warning"@)
    &&& tok_at(ts, c + 5).kind == TokenKindV::Punctuation(':')
}

/// The `Overfull \hbox` header shape.
pub open spec fn overfull_head(ts: Seq<TokenV>, c: int) -> bool {
    &&& tok_at(ts, c).kind == TokenKindV::Word("Overfull"@)
    &&& tok_at(ts, c + 1).kind is Whitespace
    &&& tok_at(ts, c + 2).kind == TokenKindV::Punctuation('\\')
    &&& tok_at(ts, c + 3).kind == TokenKindV::Word("hbox"@)
}

/// The `Underfull \hbox` header shape.
pub open spec fn underfull_head(ts: Seq<TokenV>, c: int) -> bool {
    &&& tok_at(ts, c).kind == TokenKindV::Word("Underfull"@)
    &&& tok_at(ts, c + 1).kind is Whitespace
    &&& tok_at(ts, c + 2).kind == TokenKindV::Punctuation('\\')
    &&& tok_at(ts, c + 3).kind == TokenKindV::Word("hbox"@)
}

/// The `Package <name> Warning:` header shape.
pub open spec fn package_head(ts: Seq<TokenV>, c: int) -> bool {
    &&& tok_at(ts, c).kind == TokenKindV::Word("Package"@)
    &&& tok_at(ts, c + 1).kind is Whitespace
    &&& tok_at(ts, c + 2).kind is Word
    &&& tok_at(ts, c + 3).kind is Whitespace
    &&& tok_at(ts, c + 4).kind == TokenKindV::Word("Warning"@)
    &&& tok_at(ts, c + 5).kind == TokenKindV::Punctuation(':')
}

/// What the diagnostic recogniser does with the cursor at `c`: nothing
/// unless a newline precedes (diagnostics are line-anchored); otherwise the
/// first header shape that matches decides the kind, the body runs to the
/// boundary `msg_end` gives, and for a generic error the title is the rest
/// of the `!` line (trimmed) and the body is extended backward (no further
/// down than the floor `lo`) to take TeX's customary preamble in. Yields
/// the diagnostic and the cursor position past it.
pub open spec fn spec_diag_at(ts: Seq<TokenV>, c: int, lo: int) -> Option<(TexDiagnosticV, int)> {
    if !(tok_at(ts, c - 1).kind is Newline) {
        None
    } else if pdftex_head(ts, c) {
        let e = msg_end(ts, c, 0);
        Some(
            (
                TexDiagnosticV {
                    kind: TexDiagnosticKindV::PdfLatex,
                    message: trim_of(range_text(ts, c, e)),
                },
                e,
            ),
        )
    } else if font_head(ts, c) {
        let e = msg_end(ts, c, 0);
        Some(
            (
                TexDiagnosticV {
                    kind: TexDiagnosticKindV::Font,
                    message: trim_of(range_text(ts, c, e)),
                },
                e,
            ),
        )
    } else if overfull_head(ts, c) {
        let e = msg_end(ts, c, 0);
        Some(
            (
                TexDiagnosticV {
                    kind: TexDiagnosticKindV::OverfullHbox,
                    message: trim_of(range_text(ts, c, e)),
                },
                e,
            ),
        )
    } else if underfull_head(ts, c) {
        let e = msg_end(ts, c, 0);
        Some(
            (
                TexDiagnosticV {
                    kind: TexDiagnosticKindV::UnderfullHbox,
                    message: trim_of(range_text(ts, c, e)),
                },
                e,
            ),
        )
    } else if package_head(ts, c) {
        let e = msg_end(ts, c, 0);
        Some(
            (
                TexDiagnosticV {
                    kind: TexDiagnosticKindV::Package(word_payload(tok_at(ts, c + 2).kind)),
                    message: trim_of(range_text(ts, c, e)),
                },
                e,
            ),
        )
    } else if tok_at(ts, c).kind is ExclamationMark {
        let te = title_end(ts, c + 1);
        let tstart = if c + 1 <= te {
            c + 1
        } else {
            te
        };
        let title = trim_of(range_text(ts, tstart, te));
        let ms = err_back(ts, c, lo);
        let e0 = msg_end(ts, ms, 0);
        let e1 = if e0 <= c {
            c + 1
        } else {
            e0
        };
        let e = if e1 <= ts.len() {
            e1
        } else {
            ts.len() as int
        };
        Some(
            (
                TexDiagnosticV {
                    kind: TexDiagnosticKindV::GenericError(title),
                    message: trim_of(range_text(ts, ms, e0)),
                },
                e,
            ),
        )
    } else {
        None
    }
}

/// The parser: a cursor over the token stream.
pub struct Parser {
    cursor: usize,
    tokens: Vec<Token>,
}

impl Parser {
    /// The stream, as token images.
    pub closed spec fn toks(&self) -> Seq<TokenV> {
        lexer::token_views(self.tokens@)
    }

    /// The cursor's position in the stream.
    pub closed spec fn cur(&self) -> int {
        self.cursor as int
    }

    /// Create a new parser from a vector of tokens.
    pub fn new(tokens: Vec<Token>) -> (p: Self)
        ensures
            p.toks() == lexer::token_views(tokens@),
            p.cur() == 0,
    {
        Self { tokens, cursor: 0 }
    }

    /// The token `offset` places from the cursor, the index clamped into
    /// the stream.
    fn peak(&self, offset: isize) -> (r: &Token)
        requires
            self.toks().len() > 0,
        ensures
            r@ == tok_at(self.toks(), self.cur() + offset),
    {
        let n = self.tokens.len();
        let i: usize = if offset >= 0 {
            let off = offset as usize;
            if self.cursor <= usize::MAX - off && self.cursor + off <= n - 1 {
                self.cursor + off
            } else {
                n - 1
            }
        } else {
            let back: usize = if offset == isize::MIN {
                (isize::MAX as usize) + 1
            } else {
                (-offset) as usize
            };
            if self.cursor >= back {
                if self.cursor - back <= n - 1 {
                    self.cursor - back
                } else {
                    n - 1
                }
            } else {
                0
            }
        };
        let r = &self.tokens[i];
        proof {
            assert(self.toks()[i as int] == self.tokens@[i as int]@);
        }
        r
    }

    /// The token under the cursor (clamped into the stream).
    fn current(&self) -> (r: &Token)
        requires
            self.toks().len() > 0,
        ensures
            r@ == tok_at(self.toks(), self.cur()),
    {
        self.peak(0)
    }

    /// Advance the cursor one token, never past the stream's end.
    fn consume(&mut self)
        ensures
            final(self).toks() == old(self).toks(),
            final(self).cur() == if old(self).cur() < old(self).toks().len() {
                old(self).cur() + 1
            } else {
                old(self).cur()
            },
    {
        proof {
            assert(self.toks().len() == self.tokens@.len());
        }
        if self.cursor < self.tokens.len() {
            self.cursor = self.cursor + 1;
        }
    }

    /// The concatenated textual renderings of the tokens in `[a, b)`.
    fn render_range(&self, a: usize, b: usize) -> (out: String)
        requires
            a <= b <= self.toks().len(),
        ensures
            out@ == range_text(self.toks(), a as int, b as int),
    {
        let ghost ts = self.toks();
        proof {
            assert(ts.subrange(a as int, a as int).len() == 0);
        }
        let mut out = String::new();
        let mut k = a;
        while k < b
            invariant
                a <= k <= b <= ts.len(),
                ts == self.toks(),
                ts.len() == self.tokens@.len(),
                out@ == range_text(ts, a as int, k as int),
            decreases b - k,
        {
            let t_str = self.tokens[k].to_string();
            out.append(t_str.as_str());
            proof {
                assert(self.toks()[k as int] == self.tokens@[k as int]@);
                lemma_range_text_snoc(ts, a as int, k as int);
            }
            k = k + 1;
        }
        out
    }
}

impl Parser {
    /// Whether the generic-error look-back stops at the cursor: a blank
    /// line, an end-of-log token, or a path lies just before it.
    fn lookback_stop(&self) -> (r: bool)
        requires
            self.toks().len() > 0,
        ensures
            r == ((tok_at(self.toks(), self.cur() - 1).kind is Newline && tok_at(
                self.toks(),
                self.cur() - 2,
            ).kind is Newline) || tok_at(self.toks(), self.cur() - 1).kind is EOF || tok_at(
                self.toks(),
                self.cur() - 1,
            ).kind is Path),
    {
        match &self.peak(-1).kind {
            TokenKind::Newline => {
                match &self.peak(-2).kind {
                    TokenKind::Newline => true,
                    _ => false,
                }
            },
            TokenKind::EOF => true,
            TokenKind::Path(_) => true,
            _ => false,
        }
    }

    /// Whether the title scan of a generic error goes on at the cursor.
    fn title_continues(&self) -> (r: bool)
        requires
            self.toks().len() > 0,
        ensures
            r == (self.cur() < self.toks().len() && !(tok_at(self.toks(), self.cur()).kind
                is Newline || tok_at(self.toks(), self.cur()).kind is EOF)),
    {
        proof {
            assert(self.toks().len() == self.tokens@.len());
        }
        if self.cursor >= self.tokens.len() {
            return false;
        }
        match &self.tokens[self.cursor].kind {
            TokenKind::Newline => false,
            TokenKind::EOF => false,
            _ => {
                proof {
                    assert(self.toks()[self.cur()] == self.tokens@[self.cur()]@);
                }
                true
            },
        }
    }

    /// Consume a diagnostic body: forward from the cursor to the first
    /// unmatched right parenthesis (left for the enclosing scope), past a
    /// blank line, or to the end of the stream. Returns the concatenated
    /// renderings of the consumed tokens, trimmed.
    fn consume_diagnostic_message(&mut self) -> (m: String)
        requires
            old(self).toks().len() > 0,
            old(self).cur() <= old(self).toks().len(),
        ensures
            final(self).toks() == old(self).toks(),
            final(self).cur() == msg_end(old(self).toks(), old(self).cur(), 0),
            old(self).cur() <= final(self).cur() <= final(self).toks().len(),
            m@ == trim_of(range_text(old(self).toks(), old(self).cur(), final(self).cur())),
    {
        let ghost ts = self.toks();
        let start = self.cursor;
        let mut level: usize = 0;
        let mut done: bool = false;
        proof {
            lemma_msg_end_bounds(ts, start as int, 0);
        }
        while !done
            invariant
                ts == self.toks(),
                ts.len() == self.tokens@.len(),
                ts.len() > 0,
                start as int <= self.cur() <= ts.len(),
                level as int <= self.cur() - start as int,
                !done ==> msg_end(ts, start as int, 0) == msg_end(ts, self.cur(), level as int),
                done ==> self.cur() == msg_end(ts, start as int, 0),
            decreases ts.len() - self.cur() + (if done {
                0int
            } else {
                1int
            }),
        {
            if self.cursor >= self.tokens.len() {
                done = true;
            } else {
                proof {
                    assert(self.toks()[self.cur()] == self.tokens@[self.cur()]@);
                }
                match &self.tokens[self.cursor].kind {
                    TokenKind::LeftParen => {
                        level = level + 1;
                        self.consume();
                    },
                    TokenKind::RightParen => {
                        if level > 0 {
                            level = level - 1;
                            self.consume();
                        } else {
                            done = true;
                        }
                    },
                    TokenKind::Newline => {
                        let next_nl = match &self.peak(1).kind {
                            TokenKind::Newline => true,
                            _ => false,
                        };
                        if next_nl {
                            self.consume();
                            self.consume();
                            done = true;
                        } else {
                            self.consume();
                        }
                    },
                    TokenKind::EOF => {
                        done = true;
                    },
                    _ => {
                        self.consume();
                    },
                }
            }
        }
        let end = self.cursor;
        let body = self.render_range(start, end);
        trim_chars(body.as_str())
    }

    /// Recognise a diagnostic at the cursor, if one of the fixed header
    /// shapes matches there at the start of a line; on success the cursor
    /// has moved past the diagnostic's body. `mono` is the floor below
    /// which a generic error's look-back may not reach: everything before
    /// it has already been given its place in the tree.
    fn consume_diag_if_diag(&mut self, mono: usize) -> (r: Option<TexDiagnostic>)
        requires
            old(self).toks().len() > 0,
            mono as int <= old(self).cur(),
            old(self).cur() <= old(self).toks().len(),
        ensures
            final(self).toks() == old(self).toks(),
            (match spec_diag_at(old(self).toks(), old(self).cur(), mono as int) {
                Some(de) => (match r {
                    Some(x) => x@ == de.0 && final(self).cur() == de.1,
                    None => false,
                }),
                None => r is None && final(self).cur() == old(self).cur(),
            }),
            r is Some && old(self).cur() < old(self).toks().len() ==> old(self).cur()
                < final(self).cur(),
            r is Some ==> mono as int <= final(self).cur() <= final(self).toks().len(),
            r is None ==> final(self).cur() == old(self).cur(),
    {
        proof {
            reveal_strlit("pdfTeX");
            reveal_strlit("LaTeX");
            reveal_strlit("Overfull");
            reveal_strlit("Underfull");
            reveal_strlit("Package");
        }
        let ghost ts = self.toks();
        let ghost c = self.cur();
        let prev_nl = match &self.peak(-1).kind {
            TokenKind::Newline => true,
            _ => false,
        };
        if !prev_nl {
            return None;
        }
        // the five word-anchored header shapes
        let gap1 = match &self.peak(1).kind {
            TokenKind::Whitespace(_) => true,
            _ => false,
        };
        let gap3 = match &self.peak(3).kind {
            TokenKind::Whitespace(_) => true,
            _ => false,
        };
        let h_pdftex = self.current().has_kind(&TokenKind::Word(String::from_str("pdfTeX")))
            && gap1 && self.peak(2).has_kind(&TokenKind::Word(String::from_str("warning")))
            && self.peak(3).has_kind(&TokenKind::Punctuation(':'));
        let h_font = self.current().has_kind(&TokenKind::Word(String::from_str("LaTeX")))
            && gap1 && self.peak(2).has_kind(&TokenKind::Word(String::from_str("Font"))) && gap3
            && self.peak(4).has_kind(&TokenKind::Word(String::from_str("Warning"))) && self.peak(
            5,
        ).has_kind(&TokenKind::Punctuation(':'));
        let h_over = self.current().has_kind(&TokenKind::Word(String::from_str("Overfull")))
            && gap1 && self.peak(2).has_kind(&TokenKind::Punctuation('\\')) && self.peak(
            3,
        ).has_kind(&TokenKind::Word(String::from_str("hbox")));
        let h_under = self.current().has_kind(&TokenKind::Word(String::from_str("Underfull")))
            && gap1 && self.peak(2).has_kind(&TokenKind::Punctuation('\\')) && self.peak(
            3,
        ).has_kind(&TokenKind::Word(String::from_str("hbox")));
        let name: Option<String> = match &self.peak(2).kind {
            TokenKind::Word(nm) => Some(nm.clone()),
            _ => None,
        };
        let h_package = self.current().has_kind(&TokenKind::Word(String::from_str("Package")))
            && gap1 && name.is_some() && gap3 && self.peak(4).has_kind(
            &TokenKind::Word(String::from_str("Warning")),
        ) && self.peak(5).has_kind(&TokenKind::Punctuation(':'));
        proof {
            assert(h_pdftex == pdftex_head(ts, c));
            assert(h_font == font_head(ts, c));
            assert(h_over == overfull_head(ts, c));
            assert(h_under == underfull_head(ts, c));
            assert(h_package == package_head(ts, c));
        }
        let head: Option<TexDiagnosticKind> = if h_pdftex {
            Some(TexDiagnosticKind::PdfLatex)
        } else if h_font {
            Some(TexDiagnosticKind::Font)
        } else if h_over {
            Some(TexDiagnosticKind::OverfullHbox)
        } else if h_under {
            Some(TexDiagnosticKind::UnderfullHbox)
        } else if h_package {
            match name {
                Some(nm) => Some(TexDiagnosticKind::Package(nm)),
                None => None,
            }
        } else {
            None
        };
        if let Some(kind) = head {
            proof {
                lemma_msg_end_bounds(ts, c + 1, 0);
            }
            let message = self.consume_diagnostic_message();
            return Some(TexDiagnostic { kind, message });
        }
        let is_bang = match &self.current().kind {
            TokenKind::ExclamationMark => true,
            _ => false,
        };
        if !is_bang {
            return None;
        }
        let e_idx = self.cursor;
        self.consume();
        // capture the title: the rest of the line the `!` opened
        while self.title_continues()
            invariant
                ts == self.toks(),
                ts.len() == self.tokens@.len(),
                ts.len() > 0,
                self.cur() <= ts.len(),
                title_end(ts, e_idx + 1) == title_end(ts, self.cur()),
            decreases ts.len() - self.cur(),
        {
            self.consume();
        }
        let te = self.cursor;
        let tstart = if e_idx < te {
            e_idx + 1
        } else {
            te
        };
        let title_raw = self.render_range(tstart, te);
        let title = trim_chars(title_raw.as_str());
        // walk backward to the start of the error's body, taking TeX's
        // customary preamble above the `!` line in
        self.cursor = e_idx;
        while self.cursor > mono && !self.lookback_stop()
            invariant
                ts == self.toks(),
                ts.len() == self.tokens@.len(),
                ts.len() > 0,
                mono as int <= self.cur() <= e_idx as int,
                err_back(ts, e_idx as int, mono as int) == err_back(
                    ts,
                    self.cur(),
                    mono as int,
                ),
            decreases self.cur(),
        {
            self.cursor = self.cursor - 1;
        }
        let message = self.consume_diagnostic_message();
        // never end before the header's own line
        if self.cursor <= e_idx {
            self.cursor = if e_idx < self.tokens.len() {
                e_idx + 1
            } else {
                self.tokens.len()
            };
        }
        Some(TexDiagnostic { kind: TexDiagnosticKind::GenericError(title), message })
    }
}


/// What parsing one file scope at `entry` yields: `Some((node, j))` with
/// the finished node and the cursor position just past its closing
/// parenthesis, or `None` when the log ends inside the scope. The file is
/// the path right after the opening parenthesis, or the literal
/// `"no path..."` where that token is not a path.
pub open spec fn spec_parse_node(ts: Seq<TokenV>, entry: int) -> Option<(NodeV, int)>
    decreases ts.len() - entry, ts.len() - entry, ts.len() + 1,
{
    if !(0 <= entry < ts.len()) {
        None
    } else {
        let file = if tok_at(ts, entry + 1).kind is Path {
            path_payload(tok_at(ts, entry + 1).kind)
        } else {
            "no path..."@
        };
        spec_node_loop(
            ts,
            entry,
            file,
            Seq::empty(),
            Seq::empty(),
            Seq::empty(),
            Seq::empty(),
            0,
            entry + 1,
            entry + 1,
        )
    }
}

/// One step of the scope parse, from the state after the opening
/// parenthesis: diagnostics are recognised first; then a `(` followed by a
/// path opens a child scope, other parentheses are prose (counted, so a
/// stray `)` does not close the scope), a `)` with no unmatched prose `(`
/// closes the node, the end-of-log token is fatal, and any other token's
/// rendering joins the messages. `mono` is the floor below which nothing is
/// re-read; the guarded side branches are unreachable from `spec_parse_node`
/// and only keep the recursion well-founded.
pub open spec fn spec_node_loop(
    ts: Seq<TokenV>,
    entry: int,
    file: Seq<char>,
    msgs: Seq<char>,
    calls: Seq<NodeV>,
    diags: Seq<TexDiagnosticV>,
    sites: Seq<int>,
    unclosed: int,
    mono: int,
    cursor: int,
) -> Option<(NodeV, int)>
    decreases ts.len() - entry, ts.len() - mono, ts.len() - cursor,
{
    if !(0 <= entry && entry < mono && mono <= cursor && cursor <= ts.len()) {
        None
    } else if cursor >= ts.len() {
        None
    } else {
        match spec_diag_at(ts, cursor, mono) {
            Some(de) => if mono < de.1 <= ts.len() {
                spec_node_loop(
                    ts,
                    entry,
                    file,
                    msgs,
                    calls,
                    diags.push(de.0),
                    sites.push(cursor),
                    unclosed,
                    de.1,
                    de.1,
                )
            } else {
                None
            },
            None => {
                let k = ts[cursor].kind;
                if k is LeftParen && tok_at(ts, cursor + 1).kind is Path {
                    match spec_parse_node(ts, cursor) {
                        Some(cj) => if mono < cj.1 <= ts.len() {
                            spec_node_loop(
                                ts,
                                entry,
                                file,
                                msgs,
                                calls.push(cj.0),
                                diags,
                                sites,
                                unclosed,
                                cj.1,
                                cj.1,
                            )
                        } else {
                            None
                        },
                        None => None,
                    }
                } else if k is LeftParen {
                    spec_node_loop(
                        ts,
                        entry,
                        file,
                        msgs + "("@,
                        calls,
                        diags,
                        sites,
                        if unclosed < usize::MAX {
                            unclosed + 1
                        } else {
                            unclosed
                        },
                        mono,
                        cursor + 1,
                    )
                } else if k is RightParen {
                    if unclosed > 0 {
                        spec_node_loop(
                            ts,
                            entry,
                            file,
                            msgs + ")"@,
                            calls,
                            diags,
                            sites,
                            unclosed - 1,
                            mono,
                            cursor + 1,
                        )
                    } else {
                        Some(
                            (
                                NodeV {
                                    file,
                                    messages: msgs,
                                    start_pos: ts[entry].pos,
                                    end_pos: ts[cursor].pos,
                                    calls,
                                    diagnostics: diags,
                                    diag_sites: sites,
                                },
                                cursor + 1,
                            ),
                        )
                    }
                } else if k is EOF {
                    None
                } else {
                    spec_node_loop(
                        ts,
                        entry,
                        file,
                        msgs + lexer::spec_render(k),
                        calls,
                        diags,
                        sites,
                        unclosed,
                        mono,
                        cursor + 1,
                    )
                }
            },
        }
    }
}

/// Why a parse failed: the log's top begins with a bare path, no file scope
/// ever opens, or the end of the log is reached inside an open scope.
#[derive(Clone, Copy, Debug, PartialEq, Eq, Structural)]
pub enum ParseError {
    MalformedPrelude,
    MissingRootScope,
    UnterminatedScope,
}

/// Whether the recogniser, at header site `site` and for some look-back
/// floor, yields exactly the diagnostic `d`.
#[verifier::opaque]
pub open spec fn recognized_diag(ts: Seq<TokenV>, site: int, d: TexDiagnosticV) -> bool {
    exists|lo: int| (#[trigger] spec_diag_at(ts, site, lo)) matches Some(de) && de.0 == d
}

/// Diagnostic attribution, recursively: each node records as many header
/// sites as diagnostics; each site's offset lies strictly inside the node's
/// range and inside none of its children (the node is the deepest scope
/// holding the header); and each recorded diagnostic is exactly what the
/// recogniser yields at its site, for some look-back floor.
pub open spec fn node_diags_wf(n: NodeV, ts: Seq<TokenV>) -> bool
    decreases n,
{
    &&& n.diag_sites.len() == n.diagnostics.len()
    &&& forall|q: int|
        0 <= q < n.diag_sites.len() ==> {
            let site = #[trigger] n.diag_sites[q];
            &&& n.start_pos < tok_at(ts, site).pos < n.end_pos
            &&& recognized_diag(ts, site, n.diagnostics[q])
            &&& forall|k: int|
                0 <= k < n.calls.len() ==> !((#[trigger] n.calls[k]).start_pos <= tok_at(
                    ts,
                    site,
                ).pos <= n.calls[k].end_pos)
        }
    &&& forall|k: int| 0 <= k < n.calls.len() ==> node_diags_wf(#[trigger] n.calls[k], ts)
}

proof fn lemma_nodes_view_push(v: Seq<Node>, x: Node)
    ensures
        nodes_view(v.push(x)) == nodes_view(v).push(node_view(x)),
{
    lemma_nodes_view(v.push(x));
    lemma_nodes_view(v);
    assert forall|i: int| 0 <= i < v.len() + 1 implies nodes_view(v.push(x))[i] == nodes_view(
        v,
    ).push(node_view(x))[i] by {
        if i < v.len() {
            assert(v.push(x)[i] == v[i]);
        } else {
            assert(v.push(x)[i] == x);
        }
    }
    assert(nodes_view(v.push(x)) =~= nodes_view(v).push(node_view(x)));
}

proof fn lemma_diags_view_push(v: Seq<TexDiagnostic>, d: TexDiagnostic)
    ensures
        diags_view(v.push(d)) == diags_view(v).push(d@),
{
    assert(diags_view(v.push(d)) =~= diags_view(v).push(d@));
}

impl Parser {
    /// Parse one file scope: the cursor sits on its opening parenthesis.
    /// The result is exactly what `spec_parse_node` yields there: the
    /// finished node with the cursor just past its closing parenthesis, or
    /// the fatal error when the log ends inside the scope.
    #[verifier::rlimit(100)]
    fn parse_node(&mut self) -> (r: Result<Node, ParseError>)
        requires
            old(self).toks().len() > 0,
            pos_increasing(old(self).toks()),
            0 <= old(self).cur() < old(self).toks().len(),
        ensures
            final(self).toks() == old(self).toks(),
            (match spec_parse_node(old(self).toks(), old(self).cur()) {
                Some(nj) => (match r {
                    Ok(node) => node@ == nj.0 && final(self).cur() == nj.1,
                    Err(_) => false,
                }),
                None => r is Err,
            }),
            (match r {
                Ok(node) => {
                    &&& old(self).cur() < final(self).cur() <= final(self).toks().len()
                    &&& node@.start_pos == tok_at(old(self).toks(), old(self).cur()).pos
                    &&& tok_at(old(self).toks(), final(self).cur() - 1).kind is RightParen
                    &&& node@.end_pos == tok_at(old(self).toks(), final(self).cur() - 1).pos
                    &&& (tok_at(old(self).toks(), old(self).cur() + 1).kind is Path
                        ==> node@.file == path_payload(
                        tok_at(old(self).toks(), old(self).cur() + 1).kind,
                    ))
                    &&& node_wf(node@)
                    &&& node_diags_wf(node@, old(self).toks())
                },
                Err(e) => e == ParseError::UnterminatedScope,
            }),
        decreases self.toks().len() - self.cur(),
    {
        let ghost ts = self.toks();
        let ghost entry = self.cur();
        proof {
            assert(ts.len() == self.tokens@.len());
        }
        let pos = self.current().pos;
        self.consume();  // the opening parenthesis

        let file: String = match &self.current().kind {
            TokenKind::Path(p) => p.clone(),
            _ => String::from_str("no path..."),
        };

        let mut messages = String::new();
        let mut calls: Vec<Node> = Vec::new();
        let mut diagnostics: Vec<TexDiagnostic> = Vec::new();
        let ghost mut sites: Seq<int> = Seq::empty();
        let mut unclosed_text_parens: usize = 0;
        // everything before `mono` has its place in the tree; the cursor
        // and the error look-back never go back past it
        let mut mono: usize = self.cursor;

        proof {
            assert(messages@ =~= Seq::<char>::empty());
            assert(nodes_view(calls@) =~= Seq::<NodeV>::empty());
            assert(diags_view(diagnostics@) =~= Seq::<TexDiagnosticV>::empty());
            assert(spec_parse_node(ts, entry) == spec_node_loop(
                ts,
                entry,
                file@,
                messages@,
                nodes_view(calls@),
                diags_view(diagnostics@),
                sites,
                unclosed_text_parens as int,
                mono as int,
                self.cur(),
            ));
        }
        loop
            invariant
                ts == old(self).toks(),
                entry == old(self).cur(),
                ts == self.toks(),
                ts.len() == self.tokens@.len(),
                ts.len() > 0,
                pos_increasing(ts),
                0 <= entry < ts.len(),
                pos as int == ts[entry].pos,
                file@ == (if tok_at(ts, entry + 1).kind is Path {
                    path_payload(tok_at(ts, entry + 1).kind)
                } else {
                    "no path..."@
                }),
                entry < mono as int <= self.cur(),
                self.cur() <= ts.len(),
                spec_parse_node(ts, entry) == spec_node_loop(
                    ts,
                    entry,
                    file@,
                    messages@,
                    nodes_view(calls@),
                    diags_view(diagnostics@),
                    sites,
                    unclosed_text_parens as int,
                    mono as int,
                    self.cur(),
                ),
                nodes_view(calls@).len() == calls@.len(),
                forall|k: int|
                    0 <= k < calls@.len() ==> node_wf(#[trigger] nodes_view(calls@)[k])
                        && node_diags_wf(nodes_view(calls@)[k], ts) && ts[entry].pos < nodes_view(
                        calls@,
                    )[k].start_pos,
                forall|k: int, j: int|
                    0 <= k < calls@.len() && mono as int <= j < ts.len() ==> (#[trigger] nodes_view(
                        calls@,
                    )[k]).end_pos < (#[trigger] ts[j]).pos,
                forall|k: int|
                    0 <= k < calls@.len() - 1 ==> (#[trigger] nodes_view(calls@)[k]).end_pos
                        < nodes_view(calls@)[k + 1].start_pos,
                sites.len() == diagnostics@.len(),
                forall|q: int|
                    0 <= q < sites.len() ==> entry < (#[trigger] sites[q]) < mono as int,
                forall|q: int|
                    0 <= q < sites.len() ==> recognized_diag(
                        ts,
                        #[trigger] sites[q],
                        diags_view(diagnostics@)[q],
                    ),
                forall|q: int, k: int|
                    0 <= q < sites.len() && 0 <= k < calls@.len() ==> !((#[trigger] nodes_view(
                        calls@,
                    )[k]).start_pos <= tok_at(ts, #[trigger] sites[q]).pos <= nodes_view(
                        calls@,
                    )[k].end_pos),
            decreases ts.len() - mono, ts.len() - self.cur(),
        {
            if self.cursor >= self.tokens.len() {
                proof {
                    assert(spec_parse_node(ts, entry) is None);
                }
                return Err(ParseError::UnterminatedScope);
            }
            let at = self.cursor;
            let dres = self.consume_diag_if_diag(mono);
            if let Some(diag) = dres {
                let ghost old_diags = diagnostics@;
                diagnostics.push(diag);
                proof {
                    reveal(recognized_diag);
                    lemma_diags_view_push(old_diags, diag);
                    sites = sites.push(at as int);
                }
                mono = self.cursor;
                proof {
                    assert(spec_parse_node(ts, entry) == spec_node_loop(
                        ts,
                        entry,
                        file@,
                        messages@,
                        nodes_view(calls@),
                        diags_view(diagnostics@),
                        sites,
                        unclosed_text_parens as int,
                        mono as int,
                        self.cur(),
                    ));
                }
                continue ;
            }
            proof {
                assert(self.toks()[self.cur()] == self.tokens@[self.cur()]@);
            }
            let is_lp = match &self.tokens[self.cursor].kind {
                TokenKind::LeftParen => true,
                _ => false,
            };
            let is_rp = match &self.tokens[self.cursor].kind {
                TokenKind::RightParen => true,
                _ => false,
            };
            let is_eof = match &self.tokens[self.cursor].kind {
                TokenKind::EOF => true,
                _ => false,
            };
            if is_lp {
                let next_is_path = match &self.peak(1).kind {
                    TokenKind::Path(_) => true,
                    _ => false,
                };
                if next_is_path {
                    let ghost child_entry = self.cur();
                    match self.parse_node() {
                        Ok(child) => {
                            let ghost old_calls = calls@;
                            calls.push(child);
                            proof {
                                lemma_nodes_view_push(old_calls, child);
                                lemma_nodes_view(calls@);
                            }
                            mono = self.cursor;
                            proof {
                                assert(spec_parse_node(ts, entry) == spec_node_loop(
                                    ts,
                                    entry,
                                    file@,
                                    messages@,
                                    nodes_view(calls@),
                                    diags_view(diagnostics@),
                                    sites,
                                    unclosed_text_parens as int,
                                    mono as int,
                                    self.cur(),
                                ));
                            }
                        },
                        Err(e) => {
                            proof {
                                assert(spec_parse_node(ts, child_entry) is None);
                                assert(spec_parse_node(ts, entry) is None);
                            }
                            return Err(e);
                        },
                    }
                } else {
                    let ghost msgs0 = messages@;
                    messages.append("(");
                    // saturates instead of wrapping; unreachable for any log
                    // that fits in memory
                    if unclosed_text_parens < usize::MAX {
                        unclosed_text_parens = unclosed_text_parens + 1;
                    }
                    self.consume();
                    proof {
                        assert(spec_parse_node(ts, entry) == spec_node_loop(
                            ts,
                            entry,
                            file@,
                            messages@,
                            nodes_view(calls@),
                            diags_view(diagnostics@),
                            sites,
                            unclosed_text_parens as int,
                            mono as int,
                            self.cur(),
                        ));
                    }
                }
            } else if is_rp {
                if unclosed_text_parens > 0 {
                    messages.append(")");
                    unclosed_text_parens = unclosed_text_parens - 1;
                    self.consume();
                    proof {
                        assert(spec_parse_node(ts, entry) == spec_node_loop(
                            ts,
                            entry,
                            file@,
                            messages@,
                            nodes_view(calls@),
                            diags_view(diagnostics@),
                            sites,
                            unclosed_text_parens as int,
                            mono as int,
                            self.cur(),
                        ));
                    }
                } else {
                    let end_p = self.tokens[self.cursor].pos;
                    self.consume();
                    let node = Node {
                        file,
                        messages,
                        start_pos: pos,
                        end_pos: end_p,
                        calls,
                        diagnostics,
                        diag_sites: Ghost(sites),
                    };
                    proof {
                        lemma_nodes_view(node.calls@);
                        assert(node@.calls == nodes_view(node.calls@));
                        assert(node_wf(node@));
                        assert(node_diags_wf(node@, ts));
                        assert(spec_parse_node(ts, entry) matches Some(nj) && node@ == nj.0
                            && self.cur() == nj.1);
                    }
                    return Ok(node);
                }
            } else if is_eof {
                proof {
                    assert(spec_parse_node(ts, entry) is None);
                }
                return Err(ParseError::UnterminatedScope);
            } else {
                let txt = self.tokens[self.cursor].to_string();
                messages.append(txt.as_str());
                self.consume();
                proof {
                    assert(spec_parse_node(ts, entry) == spec_node_loop(
                        ts,
                        entry,
                        file@,
                        messages@,
                        nodes_view(calls@),
                        diags_view(diagnostics@),
                        sites,
                        unclosed_text_parens as int,
                        mono as int,
                        self.cur(),
                    ));
                }
            }
        }
    }
}

/// Where the prelude ends: the first token that is either the end-of-log
/// sentinel or a left parenthesis whose successor is a path, or the
/// stream's end where neither occurs.
pub open spec fn prelude_stop(ts: Seq<TokenV>, i: int) -> int
    decreases ts.len() - i,
{
    if !(0 <= i < ts.len()) {
        ts.len() as int
    } else if ts[i].kind is EOF || (ts[i].kind is LeftParen && tok_at(ts, i + 1).kind is Path) {
        i
    } else {
        prelude_stop(ts, i + 1)
    }
}

/// What a successful parse of the token stream `ts` yields: `info` is the
/// text of everything before the first file scope, and `root` is that
/// scope's node, well-nested, its diagnostics each attributed to the
/// deepest scope holding their header.
pub open spec fn parse_ok_spec(ts: Seq<TokenV>, info: Seq<char>, root: NodeV) -> bool {
    let stop = prelude_stop(ts, 0);
    &&& ts.len() > 0
    &&& 0 <= stop < ts.len()
    &&& ts[stop].kind is LeftParen
    &&& info == range_text(ts, 0, stop)
    &&& (spec_parse_node(ts, stop) matches Some(nj) && root == nj.0)
    &&& root.start_pos == ts[stop].pos
    &&& root.file == path_payload(tok_at(ts, stop + 1).kind)
    &&& node_wf(root)
    &&& node_diags_wf(root, ts)
}

/// When the parse of a token stream succeeds: the log does not open with a
/// bare path, a file scope opens at the prelude's end, and that scope
/// closes before the log ends.
pub open spec fn parse_succeeds(ts: Seq<TokenV>) -> bool {
    &&& ts.len() > 0
    &&& !(ts[0].kind is Path)
    &&& 0 <= prelude_stop(ts, 0) < ts.len()
    &&& ts[prelude_stop(ts, 0)].kind is LeftParen
    &&& spec_parse_node(ts, prelude_stop(ts, 0)) is Some
}

/// On which streams each parse error comes: a malformed prelude exactly
/// when the log opens with a bare path; a missing root scope exactly when
/// no file scope ever opens; an unterminated scope only in the remaining
/// case, when the root scope opened but the log ended inside a scope.
pub open spec fn parse_err_spec(ts: Seq<TokenV>, e: ParseError) -> bool {
    &&& (e == ParseError::MalformedPrelude <==> ts.len() > 0 && ts[0].kind is Path)
    &&& (e == ParseError::MissingRootScope <==> (!(ts.len() > 0 && ts[0].kind is Path) && (ts.len()
        == 0 || prelude_stop(ts, 0) == ts.len() || ts[prelude_stop(ts, 0)].kind is EOF)))
    &&& (e == ParseError::UnterminatedScope <==> (ts.len() > 0 && !(ts[0].kind is Path)
        && prelude_stop(ts, 0) < ts.len() && ts[prelude_stop(ts, 0)].kind is LeftParen
        && spec_parse_node(ts, prelude_stop(ts, 0)) is None))
}

impl Parser {
    /// Whether the prelude scan goes on at the cursor.
    fn prelude_continues(&self) -> (r: bool)
        requires
            self.toks().len() > 0,
        ensures
            r == (self.cur() < self.toks().len() && !(tok_at(self.toks(), self.cur()).kind is EOF)
                && !(tok_at(self.toks(), self.cur()).kind is LeftParen && tok_at(
                self.toks(),
                self.cur() + 1,
            ).kind is Path)),
    {
        proof {
            assert(self.toks().len() == self.tokens@.len());
        }
        if self.cursor >= self.tokens.len() {
            return false;
        }
        proof {
            assert(self.toks()[self.cur()] == self.tokens@[self.cur()]@);
        }
        match &self.tokens[self.cursor].kind {
            TokenKind::EOF => false,
            TokenKind::LeftParen => {
                match &self.peak(1).kind {
                    TokenKind::Path(_) => false,
                    _ => true,
                }
            },
            _ => true,
        }
    }

    /// Parse the whole log: accumulate the prelude into `info` until the
    /// first file scope opens, then parse the root scope. A log whose first
    /// token is a bare path is malformed; one in which no file scope opens
    /// has no root; the end of the log inside a scope is fatal.
    pub fn parse(&mut self, source: SourceText) -> (r: Result<Log, ParseError>)
        requires
            old(self).cur() == 0,
            pos_increasing(old(self).toks()),
        ensures
            r is Ok <==> parse_succeeds(old(self).toks()),
            (match r {
                Ok(log) => parse_ok_spec(old(self).toks(), log.info@, log.root_node@)
                    && log.source@ == source@,
                Err(e) => parse_err_spec(old(self).toks(), e),
            }),
    {
        let ghost ts = self.toks();
        proof {
            assert(ts.len() == self.tokens@.len());
        }
        if self.tokens.len() == 0 {
            return Err(ParseError::MissingRootScope);
        }
        let first_is_path = match &self.tokens[0].kind {
            TokenKind::Path(_) => true,
            _ => false,
        };
        proof {
            assert(self.toks()[0] == self.tokens@[0]@);
        }
        if first_is_path {
            return Err(ParseError::MalformedPrelude);
        }
        let mut info = String::new();
        proof {
            assert(ts.subrange(0, 0).len() == 0);
        }
        while self.prelude_continues()
            invariant
                ts == old(self).toks(),
                ts == self.toks(),
                ts.len() == self.tokens@.len(),
                ts.len() > 0,
                0 <= self.cur() <= ts.len(),
                prelude_stop(ts, 0) == prelude_stop(ts, self.cur()),
                info@ == range_text(ts, 0, self.cur()),
            decreases ts.len() - self.cur(),
        {
            let txt = self.tokens[self.cursor].to_string();
            info.append(txt.as_str());
            proof {
                assert(self.toks()[self.cur()] == self.tokens@[self.cur()]@);
                lemma_range_text_snoc(ts, 0, self.cur());
            }
            self.consume();
        }
        if self.cursor >= self.tokens.len() {
            return Err(ParseError::MissingRootScope);
        }
        let at_eof = match &self.tokens[self.cursor].kind {
            TokenKind::EOF => true,
            _ => false,
        };
        proof {
            assert(self.toks()[self.cur()] == self.tokens@[self.cur()]@);
        }
        if at_eof {
            return Err(ParseError::MissingRootScope);
        }
        proof {
            assert(prelude_stop(ts, self.cur()) == self.cur());
            assert(prelude_stop(ts, 0) == self.cur());
        }
        match self.parse_node() {
            Ok(root_node) => Ok(Log { info, source, root_node }),
            Err(e) => Err(e),
        }
    }
}

/// Tokenize a source text and parse it into a log.
pub fn parse_source(source: SourceText) -> (r: Result<Log, ParseError>)
    ensures
        r is Ok <==> parse_succeeds(lexer::spec_tokenize(source@)),
        (match r {
            Ok(log) => parse_ok_spec(lexer::spec_tokenize(source@), log.info@, log.root_node@)
                && log.source@ == source@,
            Err(e) => parse_err_spec(lexer::spec_tokenize(source@), e),
        }),
{
    let tokens = lexer::tokenize(source.as_str());
    proof {
        lexer::lemma_token_positions(source@, 0);
        assert(pos_increasing(lexer::token_views(tokens@)));
    }
    let mut parser = Parser::new(tokens);
    parser.parse(source)
}

/// A node of a well-nested tree lies within its root's range and is
/// itself well-nested.
pub proof fn lemma_in_tree_range(r: NodeV, m: NodeV)
    requires
        node_wf(r),
        in_tree(r, m),
    ensures
        r.start_pos <= m.start_pos,
        m.end_pos <= r.end_pos,
        node_wf(m),
    decreases r,
{
    if m != r {
        assert(exists|k: int| 0 <= k < r.calls.len() && in_tree(#[trigger] r.calls[k], m));
        let k = choose|k: int| 0 <= k < r.calls.len() && in_tree(#[trigger] r.calls[k], m);
        lemma_in_tree_range(r.calls[k], m);
    }
}

/// Well-attributed diagnostics are inherited by every node of the tree.
pub proof fn lemma_in_tree_diags(r: NodeV, m: NodeV, ts: Seq<TokenV>)
    requires
        node_diags_wf(r, ts),
        in_tree(r, m),
    ensures
        node_diags_wf(m, ts),
    decreases r,
{
    if m != r {
        assert(exists|k: int| 0 <= k < r.calls.len() && in_tree(#[trigger] r.calls[k], m));
        let k = choose|k: int| 0 <= k < r.calls.len() && in_tree(#[trigger] r.calls[k], m);
        lemma_in_tree_diags(r.calls[k], m, ts);
    }
}

/// Distinct siblings of a well-nested node have disjoint ranges: the
/// earlier one ends before the later one starts.
pub proof fn lemma_sibling_order(n: NodeV, k: int, l: int)
    requires
        node_wf(n),
        0 <= k < l < n.calls.len(),
    ensures
        n.calls[k].end_pos < n.calls[l].start_pos,
    decreases l - k,
{
    if l == k + 1 {
        assert((#[trigger] n.calls[k]).end_pos < n.calls[k + 1].start_pos);
    } else {
        lemma_sibling_order(n, k, l - 1);
        assert(node_wf(n.calls[l - 1]));
        assert(n.calls[l - 1].start_pos < n.calls[l - 1].end_pos);
        assert((#[trigger] n.calls[l - 1]).end_pos < n.calls[l - 1 + 1].start_pos);
        assert(n.calls[l - 1 + 1] == n.calls[l]);
    }
}

/// Where no child of `m` encloses the offset `p` that `m` encloses, `m` is
/// the deepest node of the tree enclosing `p`: every node of the tree whose
/// range holds `p` holds the whole of `m`.
pub proof fn lemma_deepest_encloser(root: NodeV, m: NodeV, p: int)
    requires
        node_wf(root),
        in_tree(root, m),
        encloses(m, p),
        forall|k: int| 0 <= k < m.calls.len() ==> !encloses(#[trigger] m.calls[k], p),
    ensures
        forall|x: NodeV|
            in_tree(root, x) && encloses(x, p) ==> x.start_pos <= m.start_pos && m.end_pos
                <= x.end_pos,
    decreases root,
{
    if m == root {
        assert forall|x: NodeV| in_tree(root, x) && encloses(x, p) implies x.start_pos
            <= m.start_pos && m.end_pos <= x.end_pos by {
            if x != root {
                assert(exists|k: int|
                    0 <= k < root.calls.len() && in_tree(#[trigger] root.calls[k], x));
                let k = choose|k: int|
                    0 <= k < root.calls.len() && in_tree(#[trigger] root.calls[k], x);
                lemma_in_tree_range(root.calls[k], x);
                assert(!encloses(root.calls[k], p));
                assert(false);
            }
        }
    } else {
        assert(exists|k: int| 0 <= k < root.calls.len() && in_tree(#[trigger] root.calls[k], m));
        let k = choose|k: int| 0 <= k < root.calls.len() && in_tree(#[trigger] root.calls[k], m);
        lemma_deepest_encloser(root.calls[k], m, p);
        lemma_in_tree_range(root.calls[k], m);
        assert forall|x: NodeV| in_tree(root, x) && encloses(x, p) implies x.start_pos
            <= m.start_pos && m.end_pos <= x.end_pos by {
            if x == root {
                lemma_in_tree_range(root, m);
            } else {
                assert(exists|l: int|
                    0 <= l < root.calls.len() && in_tree(#[trigger] root.calls[l], x));
                let l = choose|l: int|
                    0 <= l < root.calls.len() && in_tree(#[trigger] root.calls[l], x);
                if l == k {
                } else {
                    lemma_in_tree_range(root.calls[l], x);
                    if k < l {
                        lemma_sibling_order(root, k, l);
                    } else {
                        lemma_sibling_order(root, l, k);
                    }
                    assert(false);
                }
            }
        }
    }
}

/// Diagnostic attribution: every diagnostic hangs on the deepest node whose
/// range encloses the diagnostic's header offset. For any node `m` of the
/// tree and any of its recorded header sites, `m` encloses the site's
/// offset, and every node of the tree that also encloses it encloses the
/// whole of `m`.
pub proof fn lemma_diagnostic_attribution(root: NodeV, m: NodeV, ts: Seq<TokenV>, q: int)
    requires
        node_wf(root),
        node_diags_wf(root, ts),
        in_tree(root, m),
        0 <= q < m.diag_sites.len(),
    ensures
        encloses(m, tok_at(ts, m.diag_sites[q]).pos),
        forall|x: NodeV|
            in_tree(root, x) && encloses(x, tok_at(ts, m.diag_sites[q]).pos) ==> x.start_pos
                <= m.start_pos && m.end_pos <= x.end_pos,
{
    lemma_in_tree_range(root, m);
    lemma_in_tree_diags(root, m, ts);
    let p = tok_at(ts, m.diag_sites[q]).pos;
    assert(m.start_pos < p < m.end_pos);
    assert(forall|k: int| 0 <= k < m.calls.len() ==> !encloses(#[trigger] m.calls[k], p));
    lemma_deepest_encloser(root, m, p);
}

/// The images of a list of borrowed diagnostics, in order.
pub open spec fn ref_diags_view(v: Seq<&TexDiagnostic>) -> Seq<TexDiagnosticV> {
    v.map_values(|d: &TexDiagnostic| d@)
}

/// The diagnostics of the given severity, in order.
pub open spec fn filter_level(ds: Seq<TexDiagnosticV>, lvl: DiagnosticLevel) -> Seq<
    TexDiagnosticV,
>
    decreases ds.len(),
{
    if ds.len() == 0 {
        Seq::empty()
    } else {
        let front = filter_level(ds.drop_last(), lvl);
        if spec_level(ds.last().kind) == lvl {
            front.push(ds.last())
        } else {
            front
        }
    }
}

/// The title under which a diagnostic kind is announced.
pub open spec fn spec_kind_title(k: TexDiagnosticKindV) -> Seq<char> {
    match k {
        TexDiagnosticKindV::Font => "Font Warning"@,
        TexDiagnosticKindV::Package(p) => "Package ("@ + p + ") Warning"@,
        TexDiagnosticKindV::UnderfullHbox => "Underfull Hbox"@,
        TexDiagnosticKindV::OverfullHbox => "Overfull Hbox"@,
        TexDiagnosticKindV::PdfLatex => "PdfLaTeX Warning"@,
        TexDiagnosticKindV::GenericError(e) => "Error: "@ + e,
    }
}

impl TexDiagnosticKind {
    /// The title under which this kind is announced.
    pub fn to_string(&self) -> (r: String)
        ensures
            r@ == spec_kind_title(self@),
    {
        match self {
            TexDiagnosticKind::Font => String::from_str("Font Warning"),
            TexDiagnosticKind::Package(p_name) => {
                let mut s = String::from_str("Package (");
                s.append(p_name.as_str());
                s.append(") Warning");
                s
            },
            TexDiagnosticKind::UnderfullHbox => String::from_str("Underfull Hbox"),
            TexDiagnosticKind::OverfullHbox => String::from_str("Overfull Hbox"),
            TexDiagnosticKind::PdfLatex => String::from_str("PdfLaTeX Warning"),
            TexDiagnosticKind::GenericError(e) => {
                let mut s = String::from_str("Error: ");
                s.append(e.as_str());
                s
            },
        }
    }
}

impl Node {
    /// The diagnostics of this node that merely warn.
    pub fn warnings(&self) -> (r: Vec<&TexDiagnostic>)
        ensures
            ref_diags_view(r@) == filter_level(self@.diagnostics, DiagnosticLevel::Warning),
    {
        self.with_level(DiagnosticLevel::Warning)
    }

    /// The diagnostics of this node that are errors.
    pub fn errors(&self) -> (r: Vec<&TexDiagnostic>)
        ensures
            ref_diags_view(r@) == filter_level(self@.diagnostics, DiagnosticLevel::Error),
    {
        self.with_level(DiagnosticLevel::Error)
    }

    /// The diagnostics of this node with the given severity, in order.
    fn with_level(&self, lvl: DiagnosticLevel) -> (r: Vec<&TexDiagnostic>)
        ensures
            ref_diags_view(r@) == filter_level(self@.diagnostics, lvl),
    {
        let ghost ds = diags_view(self.diagnostics@);
        let mut r: Vec<&TexDiagnostic> = Vec::new();
        let mut i: usize = 0;
        proof {
            assert(ref_diags_view(r@) =~= filter_level(ds.subrange(0, 0), lvl));
        }
        while i < self.diagnostics.len()
            invariant
                0 <= i <= self.diagnostics@.len(),
                ds == diags_view(self.diagnostics@),
                ds.len() == self.diagnostics@.len(),
                ref_diags_view(r@) == filter_level(ds.subrange(0, i as int), lvl),
            decreases self.diagnostics@.len() - i,
        {
            let ghost before = r@;
            let d = &self.diagnostics[i];
            proof {
                assert(ds[i as int] == self.diagnostics@[i as int]@);
                assert(ds.subrange(0, i + 1).drop_last() =~= ds.subrange(0, i as int));
                assert(ds.subrange(0, i + 1).last() == ds[i as int]);
            }
            if d.level() == lvl {
                r.push(d);
                proof {
                    assert(ref_diags_view(r@) =~= ref_diags_view(before).push(d@));
                }
            }
            i = i + 1;
        }
        proof {
            assert(ds.subrange(0, ds.len() as int) =~= ds);
            assert(self@.diagnostics == ds);
        }
        r
    }
}

} // verus!
