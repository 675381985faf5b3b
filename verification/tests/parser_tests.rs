use texlog::lexer::tokenize;
use texlog::parser::{
    parse_source, DiagnosticLevel, ParseError, Parser, TexDiagnostic, TexDiagnosticKind,
};
use texlog::text::SourceText;

fn parse_str(s: &str) -> Result<texlog::log::Log, ParseError> {
    parse_source(SourceText::new(s.to_string()))
}

/// Balanced parentheses with no path: the lexer accepts, the parser rejects
/// (no file scope ever opens).
#[test]
fn rejects_parens_without_path() {
    let r = parse_str("((())())");
    assert_eq!(r.err(), Some(ParseError::MissingRootScope));
}

/// A log whose first token is a bare path is malformed.
#[test]
fn rejects_path_at_top() {
    let r = parse_str("./main.tex says hello");
    assert_eq!(r.err(), Some(ParseError::MalformedPrelude));
}

/// The end of the log inside an open scope is fatal.
#[test]
fn rejects_unterminated_scope() {
    let r = parse_str("(./a.tex some text");
    assert_eq!(r.err(), Some(ParseError::UnterminatedScope));
}

/// A minimal tree: one scope, its file read from the path after the
/// opening parenthesis, with the parenthesis offsets recorded.
#[test]
fn minimal_tree() {
    let log = parse_str("(./main.tex)\n").unwrap();
    assert_eq!(log.root_node.file, "./main.tex");
    assert_eq!(log.root_node.start_pos, 0);
    assert_eq!(log.root_node.end_pos, 11);
    assert_eq!(log.root_node.calls.len(), 0);
    assert_eq!(log.info, "");
}

/// Text before the first file scope is kept as the log's prelude.
#[test]
fn prelude_collected() {
    let log = parse_str("engine banner (v1)\n(./a.tex)").unwrap();
    assert_eq!(log.info, "engine banner (v1)\n");
    assert_eq!(log.root_node.file, "./a.tex");
}

/// A nested include becomes a child node; offsets nest strictly.
#[test]
fn nested_include() {
    let log = parse_str("(./a.tex text (./b.tex inner ) more )").unwrap();
    let root = &log.root_node;
    assert_eq!(root.file, "./a.tex");
    assert_eq!(root.calls.len(), 1);
    let child = &root.calls[0];
    assert_eq!(child.file, "./b.tex");
    assert!(root.start_pos < child.start_pos);
    assert!(child.start_pos < child.end_pos);
    assert!(child.end_pos < root.end_pos);
    assert_eq!(child.start_pos, 14);
    assert_eq!(child.end_pos, 29);
    assert_eq!(root.end_pos, 36);
}

/// Stray unmatched parentheses inside prose do not close the scope.
#[test]
fn stray_parens_in_prose() {
    let log = parse_str("(./a.tex see (this and (that) here) done )").unwrap();
    assert_eq!(log.root_node.calls.len(), 0);
    assert_eq!(log.root_node.end_pos, 41);
    assert!(log.root_node.messages.contains("(this and (that) here)"));
}

/// An error block: the `!` line yields a generic error with the line's text
/// as its title, attached to the enclosing scope.
#[test]
fn error_block() {
    let text = "(./main.tex\n\n! Too many }'s.\nl.6 \\date December 2004}\n)";
    let log = parse_str(text).unwrap();
    let ds = log.root_node.diagnostics();
    assert_eq!(ds.len(), 1);
    assert_eq!(
        ds[0].kind,
        TexDiagnosticKind::GenericError("Too many }'s.".to_string())
    );
    assert_eq!(ds[0].message, "! Too many }'s.\nl.6 \\date December 2004}");
    assert_eq!(ds[0].level(), DiagnosticLevel::Error);
}

/// The five header shapes, each on its own line with an indented
/// continuation and a blank line after it, yield the five kinds in order,
/// with the full multi-line bodies.
#[test]
fn diagnostic_vocabulary() {
    let text = "(./m.tex\n\npdfTeX warning: pw\n  more pw\n\nLaTeX Font Warning: fw\n  more fw\n\nOverfull \\hbox badness\n  more ov\n\nUnderfull \\hbox badness\n  more un\n\nPackage wrapfig Warning: ww\n  more ww\n\n)";
    let log = parse_str(text).unwrap();
    let ds = log.root_node.diagnostics();
    assert_eq!(ds.len(), 5);
    assert_eq!(ds[0].kind, TexDiagnosticKind::PdfLatex);
    assert_eq!(ds[1].kind, TexDiagnosticKind::Font);
    assert_eq!(ds[2].kind, TexDiagnosticKind::OverfullHbox);
    assert_eq!(ds[3].kind, TexDiagnosticKind::UnderfullHbox);
    assert_eq!(
        ds[4].kind,
        TexDiagnosticKind::Package("wrapfig".to_string())
    );
    assert!(ds[0].message.contains("pdfTeX warning: pw"));
    assert!(ds[0].message.contains("more pw"));
    assert!(ds[4].message.contains("more ww"));
}

/// A header shape that is not at the start of a line is ordinary prose.
#[test]
fn header_needs_line_start() {
    let text = "(./m.tex note pdfTeX warning: not one\n\n)";
    let log = parse_str(text).unwrap();
    assert_eq!(log.root_node.diagnostics().len(), 0);
    assert!(log.root_node.messages.contains("pdfTeX warning: not one"));
}

/// Warnings and errors split the diagnostics by severity.
#[test]
fn warnings_and_errors_split() {
    let text = "(./m.tex\nLaTeX Font Warning: fw\n\n! Bad.\nl.1 x\n\n)";
    let log = parse_str(text).unwrap();
    let root = &log.root_node;
    assert_eq!(root.diagnostics().len(), 2);
    assert_eq!(root.warnings().len(), 1);
    assert_eq!(root.errors().len(), 1);
    assert_eq!(root.warnings()[0].kind, TexDiagnosticKind::Font);
    assert_eq!(root.warnings()[0].level(), DiagnosticLevel::Warning);
    assert_eq!(root.errors()[0].level(), DiagnosticLevel::Error);
}

/// The kinds' titles.
#[test]
fn kind_titles() {
    assert_eq!(TexDiagnosticKind::Font.to_string(), "Font Warning");
    assert_eq!(
        TexDiagnosticKind::Package("wrapfig".to_string()).to_string(),
        "Package (wrapfig) Warning"
    );
    assert_eq!(TexDiagnosticKind::UnderfullHbox.to_string(), "Underfull Hbox");
    assert_eq!(TexDiagnosticKind::OverfullHbox.to_string(), "Overfull Hbox");
    assert_eq!(TexDiagnosticKind::PdfLatex.to_string(), "PdfLaTeX Warning");
    assert_eq!(
        TexDiagnosticKind::GenericError("Oops".to_string()).to_string(),
        "Error: Oops"
    );
    let d = TexDiagnostic {
        kind: TexDiagnosticKind::PdfLatex,
        message: "m".to_string(),
    };
    assert_eq!(d.level(), DiagnosticLevel::Warning);
}

/// `Parser::new` with explicitly built tokens parses the same way.
#[test]
fn parser_from_tokens() {
    let source = SourceText::new("(./x.tex body)".to_string());
    let tokens = tokenize(source.as_str());
    let mut parser = Parser::new(tokens);
    let log = parser.parse(source).unwrap();
    assert_eq!(log.root_node.file, "./x.tex");
}

/// A header that misses one of its fixed tokens is ordinary prose.
#[test]
fn near_miss_headers() {
    // "Warning" without the colon, and a package name that is not a word
    let text = "(./m.tex\n\nPackage wrapfig Warning no colon\n\nPackage 9 Warning: x\n\n)";
    let log = parse_str(text).unwrap();
    assert_eq!(log.root_node.diagnostics().len(), 0);
}

/// The header words must be separated by whitespace, as the header table
/// has it: other tokens in the gap make the line ordinary prose.
#[test]
fn header_gap_must_be_whitespace() {
    let text = "(./m.tex\n\npdfTeX?warning: not one\n\n)";
    let log = parse_str(text).unwrap();
    assert_eq!(log.root_node.diagnostics().len(), 0);
}

/// A generic error's title is the whole rest of the `!` line, trimmed, even
/// when no space follows the `!`.
#[test]
fn error_title_without_space() {
    let text = "(./m.tex\n\n!Missing thing.\nl.2 x\n\n)";
    let log = parse_str(text).unwrap();
    let ds = log.root_node.diagnostics();
    assert_eq!(ds.len(), 1);
    assert_eq!(
        ds[0].kind,
        TexDiagnosticKind::GenericError("Missing thing.".to_string())
    );
}
