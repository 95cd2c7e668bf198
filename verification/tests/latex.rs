//! Labels to LaTeX tokens.
use ink2tex::latex::symbol_command;

#[test]
fn clean_labels_pass_through() {
    assert_eq!(symbol_command("x"), "x");
    assert_eq!(symbol_command("+"), "+");
    assert_eq!(symbol_command("\\alpha"), "\\alpha");
}

#[test]
fn detexify_symbolids_reduce_to_commands() {
    assert_eq!(symbol_command("latex:latex2e:xi"), "\\xi");
    assert_eq!(symbol_command("latex:latex2e:Xi"), "\\Xi");
    assert_eq!(symbol_command("latex:latex2e:sum"), "\\sum");
    assert_eq!(
        symbol_command("latex:amssymb:mathcal-lbrace-R-rbrace"),
        "\\mathcal{R}"
    );
    assert_eq!(
        symbol_command("latex:latex2e:sqrt-lbrace-rbrace"),
        "\\sqrt{}"
    );
}
