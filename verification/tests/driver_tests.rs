use tangle::driver::{tangle_text, TangleError};

#[test]
fn worked_example_expands_with_indentation() {
    let doc = "# demo\n\n```rust\n// <<*>>=\nfn main() {\n    // <<body>>\n}\n```\n\n```rust\n// <<body>>=\nprintln!(\"hi\");\n```\n";
    let out = tangle_text(doc).unwrap();
    assert_eq!(
        out,
        "// *\nfn main() {\n    // body\n    println!(\"hi\");\n}\n"
    );
}

#[test]
fn nested_invocations_accumulate_indentation() {
    let doc = "```rust\n// <<*>>=\n    // <<a>>\n```\n```rust\n// <<a>>=\n    // <<b>>\nx\n```\n```rust\n// <<b>>=\ny\n```\n";
    let out = tangle_text(doc).unwrap();
    // `a` is spliced at one unit; its own invocation of `b` sits at one more.
    assert_eq!(out, "// *\n    // a\n        // b\n        y\n    x\n");
}

#[test]
fn two_fragment_cycle_is_rejected() {
    let doc = "```rust\n// <<*>>=\n// <<a>>\n```\n```rust\n// <<a>>=\n// <<b>>\n```\n```rust\n// <<b>>=\n// <<a>>\n```\n";
    assert_eq!(tangle_text(doc), Err(TangleError::CyclicInclusion));
}

#[test]
fn self_reference_is_rejected() {
    let doc = "```rust\n// <<*>>=\n// <<a>>\n```\n```rust\n// <<a>>=\n// <<a>>\n```\n";
    assert_eq!(tangle_text(doc), Err(TangleError::CyclicInclusion));
}

#[test]
fn empty_document_is_missing_its_root() {
    assert_eq!(tangle_text(""), Err(TangleError::RootMissing));
    assert_eq!(tangle_text("just prose\n"), Err(TangleError::RootMissing));
}

#[test]
fn undefined_invocation_names_both_fragments() {
    let doc = "```rust\n// <<*>>=\n// <<ghost>>\n```\n";
    match tangle_text(doc) {
        Err(TangleError::UndefinedFragment(invoker, name)) => {
            assert_eq!(invoker.iter().collect::<String>(), "*");
            assert_eq!(name.iter().collect::<String>(), "ghost");
        }
        other => panic!("expected UndefinedFragment, got {other:?}"),
    }
}

#[test]
fn redefinition_keeps_first_definition_in_output() {
    let with_dup = "```rust\n// <<*>>=\n// <<a>>\n```\n```rust\n// <<a>>=\nfirst\n```\n```rust\n// <<a>>=\nsecond\n```\n";
    let without = "```rust\n// <<*>>=\n// <<a>>\n```\n```rust\n// <<a>>=\nfirst\n```\n";
    assert_eq!(tangle_text(with_dup).unwrap(), tangle_text(without).unwrap());
    assert_eq!(tangle_text(with_dup).unwrap(), "// *\n// a\nfirst\n");
}

#[test]
fn other_language_blocks_are_ignored() {
    let doc = "```python\n// <<*>>=\nnope\n```\n```rust\n// <<*>>=\nok\n```\n";
    assert_eq!(tangle_text(doc).unwrap(), "// *\nok\n");
}
