use texlog::log::TracedTexDiagnostic;
use texlog::parser::{parse_source, TexDiagnostic, TexDiagnosticKind};
use texlog::text::SourceText;

#[test]
fn errors() {
    let text = r"
(./main.tex

! Too many }'s.
l.6 \date December 2004}


! Undefined control sequence.
l.6 \dtae
{December 2004}

(./some/math/doc.tex
! Missing $ inserted
)

Runaway argument?
{December 2004 \maketitle
! Paragraph ended before \date was complete.
<to be read again>
\par
l.8

! LaTeX Error: File `paralisy.sty' not found.
Type X to quit or <RETURN> to proceed,
or enter new name. (Default extension: sty)
Enter file name:
)
";
    let source = SourceText::new(text.to_string());
    let log = parse_source(source).unwrap();
    let ds = log.get_diagnostics();
    assert_eq!(ds.len(), 5);
}

/// Minimal tree traces: inside the root the trace is the root's file;
/// outside the root it is empty.
#[test]
fn trace_minimal() {
    let source = SourceText::new("(./main.tex)\n".to_string());
    let log = parse_source(source.clone()).unwrap();
    let trace = log.trace_at(source.index(1, 2));
    assert_eq!(trace, vec!["./main.tex".to_string()]);
    let outside = log.trace_at(source.index(2, 1));
    assert_eq!(outside, Vec::<String>::new());
}

/// Nested traces: an offset inside the child yields the chain outermost
/// first; one inside only the parent yields the parent alone.
#[test]
fn trace_nested() {
    let source = SourceText::new("(./a.tex text (./b.tex inner ) more )".to_string());
    let log = parse_source(source).unwrap();
    assert_eq!(
        log.trace_at(20),
        vec!["./a.tex".to_string(), "./b.tex".to_string()]
    );
    assert_eq!(log.trace_at(10), vec!["./a.tex".to_string()]);
    assert_eq!(log.trace_at(36), vec!["./a.tex".to_string()]);
    assert_eq!(log.trace_at(37), Vec::<String>::new());
}

/// Trace agreement: offsets inside the same innermost scope share the
/// trace.
#[test]
fn trace_agreement_inside_leaf() {
    let source = SourceText::new("(./a.tex text (./b.tex inner ) more )".to_string());
    let log = parse_source(source).unwrap();
    let t1 = log.trace_at(15);
    for i in 15..=29 {
        assert_eq!(log.trace_at(i), t1);
    }
}

/// Diagnostics are flattened with the include-stack of the node they hang
/// on: the parent's diagnostics first, then each child's, in order.
#[test]
fn diagnostics_carry_stacks() {
    let text = "(./a.tex\nLaTeX Font Warning: on a\n\n(./b.tex\n! Bad.\nl.1 x\n\n) tail )";
    let source = SourceText::new(text.to_string());
    let log = parse_source(source).unwrap();
    let ds = log.get_diagnostics();
    assert_eq!(ds.len(), 2);
    assert_eq!(ds[0].call_stack, vec!["./a.tex".to_string()]);
    assert_eq!(ds[0].diagnostic.kind, TexDiagnosticKind::Font);
    assert_eq!(
        ds[1].call_stack,
        vec!["./a.tex".to_string(), "./b.tex".to_string()]
    );
    assert_eq!(
        ds[1].diagnostic.kind,
        TexDiagnosticKind::GenericError("Bad.".to_string())
    );
}

/// The rendered block: a coloured banner of `=` around the title, padded to
/// the width, the body, a blank line, and the indented include-stack in
/// blue, then a reset.
#[test]
fn render_warning_block() {
    let traced = TracedTexDiagnostic {
        call_stack: vec!["./a.tex".to_string(), "./b.tex".to_string()],
        diagnostic: TexDiagnostic {
            kind: TexDiagnosticKind::Font,
            message: "msg".to_string(),
        },
    };
    let s = traced.to_string_with_width(20);
    assert_eq!(
        s,
        "\u{1b}[38;5;3m=== Font Warning ===\n\u{1b}[39mmsg\n\n\u{1b}[38;5;4m./a.tex\n  ./b.tex\n\u{1b}[39m"
    );
}

/// An error renders with a red banner, and an uneven width gets one extra
/// `=` of padding.
#[test]
fn render_error_block() {
    let traced = TracedTexDiagnostic {
        call_stack: vec!["./m.tex".to_string()],
        diagnostic: TexDiagnostic {
            kind: TexDiagnosticKind::GenericError("Bad.".to_string()),
            message: "! Bad.".to_string(),
        },
    };
    // title "Error: Bad." is 11 characters; width 20 gives side 3, extra 1
    let s = traced.to_string_with_width(20);
    assert_eq!(
        s,
        "\u{1b}[38;5;1m=== Error: Bad. ====\n\u{1b}[39m! Bad.\n\n\u{1b}[38;5;4m./m.tex\n\u{1b}[39m"
    );
}

/// A scope's range includes its own parentheses: tracing at either end of
/// the child lands inside the child.
#[test]
fn trace_at_scope_parens() {
    let source = SourceText::new("(./a.tex text (./b.tex inner ) more )".to_string());
    let log = parse_source(source).unwrap();
    let both = vec!["./a.tex".to_string(), "./b.tex".to_string()];
    assert_eq!(log.trace_at(14), both);
    assert_eq!(log.trace_at(29), both);
    assert_eq!(log.trace_at(13), vec!["./a.tex".to_string()]);
    assert_eq!(log.trace_at(30), vec!["./a.tex".to_string()]);
}
