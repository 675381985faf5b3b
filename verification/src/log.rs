//! The log facade: the parsed tree together with the prelude text and the
//! source buffer, and the queries asked of it — the include-stack at an
//! offset, and the diagnostics flattened with their include-stacks.

use crate::parser::{
    clone_diag, diags_view, encloses, in_tree, lemma_in_tree_range, lemma_nodes_view,
    lemma_sibling_order, node_view, node_wf, nodes_view, spec_kind_title, spec_level,
    DiagnosticLevel, Node, NodeV, TexDiagnostic, TexDiagnosticV,
};
use vstd::string::StrSliceExecFns;
use vstd::string::StringExecFns;
use crate::text::SourceText;
use vstd::prelude::*;

verus! {

broadcast use vstd::seq::axiom_seq_index_decreases, vstd::std_specs::vec::axiom_vec_decreases_to_view;

/// The images of a list of strings, in order.
pub open spec fn strings_view(v: Seq<String>) -> Seq<Seq<char>> {
    v.map_values(|x: String| x@)
}

/// Clone a list of strings, preserving its image.
fn clone_strings(v: &Vec<String>) -> (r: Vec<String>)
    ensures
        strings_view(r@) == strings_view(v@),
{
    let mut r: Vec<String> = Vec::new();
    let mut i: usize = 0;
    while i < v.len()
        invariant
            i <= v@.len(),
            r@.len() == i,
            forall|j: int| 0 <= j < i ==> (#[trigger] r@[j])@ == v@[j]@,
        decreases v@.len() - i,
    {
        r.push(v[i].clone());
        i = i + 1;
    }
    proof {
        assert(strings_view(r@) =~= strings_view(v@));
    }
    r
}

/// A diagnostic together with the include-stack of the scope it was
/// attributed to, outermost file first.
#[derive(Clone, Debug, PartialEq)]
pub struct TracedTexDiagnostic {
    pub call_stack: Vec<String>,
    pub diagnostic: TexDiagnostic,
}

/// Mathematical image of a `TracedTexDiagnostic`.
pub struct TracedTexDiagnosticV {
    pub call_stack: Seq<Seq<char>>,
    pub diagnostic: TexDiagnosticV,
}

impl View for TracedTexDiagnostic {
    type V = TracedTexDiagnosticV;

    open spec fn view(&self) -> TracedTexDiagnosticV {
        TracedTexDiagnosticV {
            call_stack: strings_view(self.call_stack@),
            diagnostic: self.diagnostic@,
        }
    }
}

/// The images of a list of traced diagnostics, in order.
pub open spec fn traced_view(v: Seq<TracedTexDiagnostic>) -> Seq<TracedTexDiagnosticV> {
    v.map_values(|t: TracedTexDiagnostic| t@)
}

/// The index of the first child from `k` on whose range encloses `p`.
pub open spec fn first_enclosing_from(cs: Seq<NodeV>, p: int, k: int) -> Option<int>
    decreases cs.len() - k,
{
    if !(0 <= k < cs.len()) {
        None
    } else if encloses(cs[k], p) {
        Some(k)
    } else {
        first_enclosing_from(cs, p, k + 1)
    }
}

proof fn lemma_first_enclosing_range(cs: Seq<NodeV>, p: int, k: int)
    requires
        0 <= k,
    ensures
        (match first_enclosing_from(cs, p, k) {
            Some(j) => k <= j < cs.len() && encloses(cs[j], p) && (forall|l: int|
                k <= l < j ==> !encloses(#[trigger] cs[l], p)),
            None => forall|l: int| k <= l < cs.len() ==> !encloses(#[trigger] cs[l], p),
        }),
    decreases cs.len() - k,
{
    if 0 <= k < cs.len() && !encloses(cs[k], p) {
        lemma_first_enclosing_range(cs, p, k + 1);
    }
}

/// The include-stack at offset `p` below the node `n`, outermost first: the
/// node's own file, then the chain through the first (with disjoint
/// children, the only) child whose range encloses `p`.
pub open spec fn spec_trace(n: NodeV, p: int) -> Seq<Seq<char>>
    decreases n,
{
    match first_enclosing_from(n.calls, p, 0) {
        Some(k) => if 0 <= k < n.calls.len() {
            seq![n.file] + spec_trace(n.calls[k], p)
        } else {
            seq![n.file]
        },
        None => seq![n.file],
    }
}

/// The include-stack at offset `p` of a log with root `root`: empty when
/// `p` lies outside the root's range.
pub open spec fn spec_trace_at(root: NodeV, p: int) -> Seq<Seq<char>> {
    if encloses(root, p) {
        spec_trace(root, p)
    } else {
        Seq::empty()
    }
}

/// The diagnostics of each node of `n`, each tagged with the include-stack
/// `st`.
pub open spec fn tag_diags(ds: Seq<TexDiagnosticV>, st: Seq<Seq<char>>) -> Seq<
    TracedTexDiagnosticV,
> {
    ds.map_values(|d: TexDiagnosticV| TracedTexDiagnosticV { call_stack: st, diagnostic: d })
}

/// All diagnostics below `n`, in tree order, each with the include-stack at
/// its node: the node's own diagnostics precede its children's; siblings
/// come in the order they were opened.
pub open spec fn flatten_node(n: NodeV, stack: Seq<Seq<char>>) -> Seq<TracedTexDiagnosticV>
    decreases n, 0int,
{
    tag_diags(n.diagnostics, stack.push(n.file)) + flatten_kids(n.calls, stack.push(n.file), 0)
}

/// The flattened diagnostics of the children from `k` on.
pub open spec fn flatten_kids(cs: Seq<NodeV>, stack: Seq<Seq<char>>, k: int) -> Seq<
    TracedTexDiagnosticV,
>
    decreases cs, cs.len() - k + 1,
{
    if !(0 <= k < cs.len()) {
        Seq::empty()
    } else {
        flatten_node(cs[k], stack) + flatten_kids(cs, stack, k + 1)
    }
}

/// A parsed log: the prelude text before the first file scope, the source
/// buffer, and the root of the file-scope tree.
pub struct Log {
    pub info: String,
    pub source: SourceText,
    pub root_node: Node,
}

/// Walks the tree collecting each node's diagnostics, carrying the
/// include-stack of the walk.
struct DiagnosticGetter {
    call_stack: Vec<String>,
    diagnostics: Vec<TracedTexDiagnostic>,
}

impl DiagnosticGetter {
    fn new() -> (g: Self)
        ensures
            g.call_stack@.len() == 0,
            g.diagnostics@.len() == 0,
    {
        Self { call_stack: Vec::new(), diagnostics: Vec::new() }
    }

    fn populate(&mut self, root_node: &Node)
        ensures
            traced_view(final(self).diagnostics@) == traced_view(old(self).diagnostics@)
                + flatten_node(root_node@, strings_view(old(self).call_stack@)),
    {
        self.visit_node(root_node);
    }

    fn visit_node(&mut self, node: &Node)
        ensures
            final(self).call_stack@ == old(self).call_stack@,
            traced_view(final(self).diagnostics@) == traced_view(old(self).diagnostics@)
                + flatten_node(node@, strings_view(old(self).call_stack@)),
        decreases *node,
    {
        let ghost cs0 = self.call_stack@;
        let ghost stack0 = strings_view(self.call_stack@);
        let ghost t0 = traced_view(self.diagnostics@);
        self.call_stack.push(node.file.clone());
        let ghost cs1 = self.call_stack@;
        let ghost st = stack0.push(node@.file);
        proof {
            assert(cs1 =~= cs0.push(node.file));
            assert(strings_view(self.call_stack@) =~= st);
        }
        let mut i: usize = 0;
        while i < node.diagnostics.len()
            invariant
                0 <= i <= node.diagnostics@.len(),
                self.call_stack@ == cs1,
                cs1 == cs0.push(node.file),
                cs0 == old(self).call_stack@,
                strings_view(self.call_stack@) == st,
                st == stack0.push(node@.file),
                t0 == traced_view(old(self).diagnostics@),
                stack0 == strings_view(old(self).call_stack@),
                traced_view(self.diagnostics@) == t0 + tag_diags(
                    diags_view(node.diagnostics@).subrange(0, i as int),
                    st,
                ),
            decreases node.diagnostics@.len() - i,
        {
            let ghost before = self.diagnostics@;
            let traced = TracedTexDiagnostic {
                call_stack: clone_strings(&self.call_stack),
                diagnostic: clone_diag(&node.diagnostics[i]),
            };
            self.diagnostics.push(traced);
            proof {
                assert(traced_view(self.diagnostics@) =~= traced_view(before).push(traced@));
                assert(diags_view(node.diagnostics@)[i as int] == node.diagnostics@[i as int]@);
                assert(traced_view(self.diagnostics@) =~= t0 + tag_diags(
                    diags_view(node.diagnostics@).subrange(0, i + 1),
                    st,
                ));
            }
            i = i + 1;
        }
        proof {
            assert(diags_view(node.diagnostics@).subrange(
                0,
                node.diagnostics@.len() as int,
            ) =~= diags_view(node.diagnostics@));
            assert(node@.diagnostics == diags_view(node.diagnostics@));
        }
        let mut k: usize = 0;
        proof {
            lemma_nodes_view(node.calls@);
        }
        while k < node.calls.len()
            invariant
                0 <= k <= node.calls@.len(),
                self.call_stack@ == cs1,
                cs1 == cs0.push(node.file),
                cs0 == old(self).call_stack@,
                strings_view(self.call_stack@) == st,
                st == stack0.push(node@.file),
                t0 == traced_view(old(self).diagnostics@),
                stack0 == strings_view(old(self).call_stack@),
                nodes_view(node.calls@) == node@.calls,
                nodes_view(node.calls@).len() == node.calls@.len(),
                forall|j: int|
                    0 <= j < node.calls@.len() ==> nodes_view(node.calls@)[j] == node_view(
                        #[trigger] node.calls@[j],
                    ),
                traced_view(self.diagnostics@) + flatten_kids(node@.calls, st, k as int) == t0
                    + flatten_node(node@, stack0),
            decreases node.calls@.len() - k,
        {
            self.visit_node(&node.calls[k]);
            k = k + 1;
        }
        let _ = self.call_stack.pop();
        proof {
            assert(self.call_stack@ =~= cs0);
        }
    }
}

impl Log {
    /// The include-stack at an offset of the log, from the outermost file
    /// down to the innermost whose scope covers the offset; empty when the
    /// offset lies outside the root scope.
    pub fn trace_at(&self, index: usize) -> (r: Vec<String>)
        ensures
            strings_view(r@) == spec_trace_at(self.root_node@, index as int),
    {
        if !(self.root_node.start_pos <= index && index <= self.root_node.end_pos) {
            let r: Vec<String> = Vec::new();
            proof {
                assert(strings_view(r@) =~= spec_trace_at(self.root_node@, index as int));
            }
            return r;
        }
        Self::trace_from_node(index, &self.root_node)
    }

    /// The include-stack below `root_node` at `index`, outermost first.
    fn trace_from_node(index: usize, root_node: &Node) -> (r: Vec<String>)
        ensures
            strings_view(r@) == spec_trace(root_node@, index as int),
        decreases *root_node,
    {
        let mut trace: Vec<String> = Vec::new();
        trace.push(root_node.file.clone());
        proof {
            lemma_nodes_view(root_node.calls@);
        }
        let mut k: usize = 0;
        while k < root_node.calls.len() && !(root_node.calls[k].start_pos <= index && index
            <= root_node.calls[k].end_pos)
            invariant
                0 <= k <= root_node.calls@.len(),
                nodes_view(root_node.calls@) == root_node@.calls,
                nodes_view(root_node.calls@).len() == root_node.calls@.len(),
                forall|j: int|
                    0 <= j < root_node.calls@.len() ==> nodes_view(root_node.calls@)[j]
                        == node_view(#[trigger] root_node.calls@[j]),
                first_enclosing_from(root_node@.calls, index as int, 0) == first_enclosing_from(
                    root_node@.calls,
                    index as int,
                    k as int,
                ),
            decreases root_node.calls@.len() - k,
        {
            k = k + 1;
        }
        if k < root_node.calls.len() {
            let sub = Self::trace_from_node(index, &root_node.calls[k]);
            let mut j: usize = 0;
            let ghost base = trace@;
            while j < sub.len()
                invariant
                    0 <= j <= sub@.len(),
                    trace@.len() == base.len() + j,
                    forall|l: int| 0 <= l < base.len() ==> (#[trigger] trace@[l])@ == base[l]@,
                    forall|l: int|
                        base.len() <= l < trace@.len() ==> (#[trigger] trace@[l])@ == sub@[l
                            - base.len()]@,
                decreases sub@.len() - j,
            {
                trace.push(sub[j].clone());
                j = j + 1;
            }
            proof {
                assert(strings_view(trace@) =~= strings_view(base) + strings_view(sub@));
                assert(strings_view(base) =~= seq![root_node@.file]);
            }
        } else {
            proof {
                assert(strings_view(trace@) =~= seq![root_node@.file]);
            }
        }
        trace
    }

    /// Every diagnostic of the log in tree order, each with the
    /// include-stack of the scope it was attributed to.
    pub fn get_diagnostics(&self) -> (r: Vec<TracedTexDiagnostic>)
        ensures
            traced_view(r@) == flatten_node(self.root_node@, Seq::empty()),
    {
        let mut getter = DiagnosticGetter::new();
        proof {
            assert(strings_view(getter.call_stack@) =~= Seq::<Seq<char>>::empty());
            assert(traced_view(getter.diagnostics@) =~= Seq::<TracedTexDiagnosticV>::empty());
        }
        getter.populate(&self.root_node);
        proof {
            assert(traced_view(getter.diagnostics@) =~= flatten_node(
                self.root_node@,
                Seq::empty(),
            ));
        }
        getter.diagnostics
    }
}

/// The scan for an enclosing child, started at `t`, lands on `k` when no
/// child in between encloses the offset and `k`'s does.
proof fn lemma_first_enclosing_lands(cs: Seq<NodeV>, p: int, t: int, k: int)
    requires
        0 <= t <= k < cs.len(),
        forall|l: int| t <= l < k ==> !encloses(#[trigger] cs[l], p),
        encloses(cs[k], p),
    ensures
        first_enclosing_from(cs, p, t) == Some(k),
    decreases k - t,
{
    if t < k {
        lemma_first_enclosing_lands(cs, p, t + 1, k);
    }
}

/// Trace agreement: two offsets enclosed by the same node `m` of the tree,
/// with neither inside any child of `m` (so `m` is the deepest scope of
/// both), have the same include-stack.
pub proof fn lemma_trace_agreement(root: NodeV, m: NodeV, i: int, j: int)
    requires
        node_wf(root),
        in_tree(root, m),
        encloses(m, i),
        encloses(m, j),
        forall|k: int| 0 <= k < m.calls.len() ==> !encloses(#[trigger] m.calls[k], i),
        forall|k: int| 0 <= k < m.calls.len() ==> !encloses(#[trigger] m.calls[k], j),
    ensures
        spec_trace(root, i) == spec_trace(root, j),
    decreases root,
{
    if m == root {
        lemma_first_enclosing_range(root.calls, i, 0);
        lemma_first_enclosing_range(root.calls, j, 0);
        assert(first_enclosing_from(root.calls, i, 0) is None);
        assert(first_enclosing_from(root.calls, j, 0) is None);
    } else {
        assert(exists|k: int| 0 <= k < root.calls.len() && in_tree(#[trigger] root.calls[k], m));
        let k = choose|k: int| 0 <= k < root.calls.len() && in_tree(#[trigger] root.calls[k], m);
        lemma_in_tree_range(root.calls[k], m);
        assert(encloses(root.calls[k], i));
        assert(encloses(root.calls[k], j));
        assert forall|l: int| 0 <= l < k implies !encloses(#[trigger] root.calls[l], i) by {
            lemma_sibling_order(root, l, k);
        }
        assert forall|l: int| 0 <= l < k implies !encloses(#[trigger] root.calls[l], j) by {
            lemma_sibling_order(root, l, k);
        }
        lemma_first_enclosing_lands(root.calls, i, 0, k);
        lemma_first_enclosing_lands(root.calls, j, 0, k);
        lemma_trace_agreement(root.calls[k], m, i, j);
    }
}

/// Relies on termion::color::Yellow::fg_str: the constant ANSI sequence
/// that selects yellow as the foreground colour.
#[verifier::external_body]
fn fg_yellow_str() -> (r: String)
    ensures
        r@ == "\u{1b}[38;5;3m"@,
{
    termion::color::Yellow.fg_str().to_string()
}

/// Relies on termion::color::Red::fg_str: the constant ANSI sequence that
/// selects red as the foreground colour.
#[verifier::external_body]
fn fg_red_str() -> (r: String)
    ensures
        r@ == "\u{1b}[38;5;1m"@,
{
    termion::color::Red.fg_str().to_string()
}

/// Relies on termion::color::Blue::fg_str: the constant ANSI sequence that
/// selects blue as the foreground colour.
#[verifier::external_body]
fn fg_blue_str() -> (r: String)
    ensures
        r@ == "\u{1b}[38;5;4m"@,
{
    termion::color::Blue.fg_str().to_string()
}

/// Relies on termion::color::Reset::fg_str: the constant ANSI sequence that
/// resets the foreground colour to the default.
#[verifier::external_body]
fn fg_reset_str() -> (r: String)
    ensures
        r@ == "\u{1b}[39m"@,
{
    termion::color::Reset.fg_str().to_string()
}

/// `s` repeated `n` times.
pub open spec fn spec_repeat(s: Seq<char>, n: nat) -> Seq<char>
    decreases n,
{
    if n == 0 {
        Seq::empty()
    } else {
        spec_repeat(s, (n - 1) as nat) + s
    }
}

fn repeat_str(s: &str, n: usize) -> (r: String)
    ensures
        r@ == spec_repeat(s@, n as nat),
{
    let mut r = String::new();
    let mut k: usize = 0;
    while k < n
        invariant
            0 <= k <= n,
            r@ == spec_repeat(s@, k as nat),
        decreases n - k,
    {
        r.append(s);
        k = k + 1;
    }
    r
}

/// The include-stack rendered one file per line, from `k` on, each line
/// indented two spaces per level.
pub open spec fn spec_stack_lines(cs: Seq<Seq<char>>, k: int) -> Seq<char>
    decreases cs.len() - k,
{
    if !(0 <= k < cs.len()) {
        Seq::empty()
    } else {
        spec_repeat("  "@, k as nat) + cs[k] + "\n"@ + spec_stack_lines(cs, k + 1)
    }
}

/// The terminal rendering of a traced diagnostic at the given width: a
/// coloured banner of `=` around the kind's title (yellow for warnings, red
/// for errors), the message body, a blank line, the include-stack indented
/// two spaces per level in blue, and a colour reset.
pub open spec fn spec_render_traced(t: TracedTexDiagnosticV, width: int) -> Seq<char> {
    let title = spec_kind_title(t.diagnostic.kind);
    let side = if (width - title.len()) / 2 - 1 >= 0 {
        ((width - title.len()) / 2 - 1) as nat
    } else {
        0nat
    };
    let extra = ((width + title.len()) % 2) as nat;
    let color = if spec_level(t.diagnostic.kind) == DiagnosticLevel::Warning {
        "\u{1b}[38;5;3m"@
    } else {
        "\u{1b}[38;5;1m"@
    };
    color + spec_repeat("="@, side) + " "@ + title + " "@ + spec_repeat("="@, side) + spec_repeat(
        "="@,
        extra,
    ) + "\n"@ + "\u{1b}[39m"@ + t.diagnostic.message + "\n\n"@ + "\u{1b}[38;5;4m"@
        + spec_stack_lines(t.call_stack, 0) + "\u{1b}[39m"@
}

impl TracedTexDiagnostic {
    /// Render this diagnostic for a terminal of the given width; the width
    /// must leave room for the title inside the banner.
    #[verifier::rlimit(100)]
    pub fn to_string_with_width(&self, width: usize) -> (r: String)
        requires
            spec_kind_title(self@.diagnostic.kind).len() + 2 <= width,
        ensures
            r@ == spec_render_traced(self@, width as int),
    {
        let title = self.diagnostic.kind.to_string();
        let title_len = title.as_str().unicode_len();
        let side_padding = (width - title_len) / 2 - 1;
        let extra: usize = if width % 2 == title_len % 2 {
            0
        } else {
            1
        };
        proof {
            assert(extra as int == (width as int + title_len as int) % 2);
        }
        let mut s = match self.diagnostic.level() {
            DiagnosticLevel::Warning => fg_yellow_str(),
            DiagnosticLevel::Error => fg_red_str(),
        };
        let eq_run = repeat_str("=", side_padding);
        s.append(eq_run.as_str());
        s.append(" ");
        s.append(title.as_str());
        s.append(" ");
        s.append(eq_run.as_str());
        let extra_run = repeat_str("=", extra);
        s.append(extra_run.as_str());
        s.append("\n");
        let reset = fg_reset_str();
        s.append(reset.as_str());
        s.append(self.diagnostic.message.as_str());
        s.append("\n\n");
        let blue = fg_blue_str();
        s.append(blue.as_str());
        let ghost cs = strings_view(self.call_stack@);
        let mut tail = String::new();
        let mut i: usize = 0;
        proof {
            assert(cs.len() == self.call_stack@.len());
        }
        while i < self.call_stack.len()
            invariant
                0 <= i <= self.call_stack@.len(),
                cs == strings_view(self.call_stack@),
                cs.len() == self.call_stack@.len(),
                spec_stack_lines(cs, 0) == tail@ + spec_stack_lines(cs, i as int),
            decreases self.call_stack@.len() - i,
        {
            let indent = repeat_str("  ", i);
            tail.append(indent.as_str());
            tail.append(self.call_stack[i].as_str());
            tail.append("\n");
            proof {
                assert(cs[i as int] == self.call_stack@[i as int]@);
                assert(spec_stack_lines(cs, 0) =~= tail@ + spec_stack_lines(cs, i + 1));
            }
            i = i + 1;
        }
        proof {
            assert(spec_stack_lines(cs, cs.len() as int) =~= Seq::<char>::empty());
            assert(tail@ =~= spec_stack_lines(cs, 0));
        }
        s.append(tail.as_str());
        s.append(reset.as_str());
        proof {
            assert(s@ =~= spec_render_traced(self@, width as int));
        }
        s
    }
}

} // verus!
