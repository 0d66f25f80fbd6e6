//! Copying, and fencing what is copied.
use base64::Engine as _;
use grove::clipboard::{block, copy, fence_width, MAX_BYTES};

#[test]
fn a_range_of_lines_becomes_a_clickable_reference() {
    let out = block("/w/src/tree.rs", Some((142, 158)), "rs", "fn main() {}");
    assert!(out.starts_with("/w/src/tree.rs:142-158\n```rs\n"), "{out}");
    assert!(out.ends_with("fn main() {}\n```\n"), "{out}");
}

#[test]
fn one_line_does_not_pretend_to_be_a_range() {
    let out = block("/w/a.rs", Some((7, 7)), "rs", "let x = 1;");
    assert!(out.starts_with("/w/a.rs:7\n"), "{out}");
}

#[test]
fn a_document_without_line_numbers_still_names_its_path() {
    // A directory listing has no lines to cite, but which directory it was
    // is still the useful half.
    let out = block("/w/src", None, "", "main.rs\ntree.rs");
    assert!(out.starts_with("/w/src\n```\n"), "{out}");
}

#[test]
fn the_fence_outgrows_backticks_in_the_snippet() {
    // Copying out of a markdown file: the snippet's own fence must not end
    // the block early and split the paste in half.
    let markdown = "Text:\n```rust\nfn main() {}\n```\ndone";
    let out = block("/w/README.md", Some((1, 5)), "md", markdown);
    assert!(out.contains("\n````md\n"), "fence must be longer: {out}");
    assert!(out.ends_with("done\n````\n"), "{out}");
    // And a plain snippet keeps the ordinary three.
    assert!(block("/w/a.rs", None, "rs", "x").contains("\n```rs\n"));
}

#[test]
fn fence_width_counts_the_longest_run_not_the_total() {
    assert_eq!(fence_width("no backticks"), 3);
    assert_eq!(
        fence_width("a ` b ` c"),
        3,
        "singles still fit inside three"
    );
    assert_eq!(fence_width("```"), 4);
    assert_eq!(fence_width("````"), 5);
    assert_eq!(fence_width("`` and ```` and ``"), 5);
}

#[test]
fn an_oversized_selection_is_refused_rather_than_silently_dropped() {
    let huge = "x".repeat(MAX_BYTES + 1);
    assert!(copy(&huge).is_err());
}

#[test]
fn the_refusal_says_how_big_and_how_big_is_too_big() {
    assert_eq!(
        copy(&"x".repeat(200 * 1024)),
        Err("too big to copy — 200 KB, limit 64 KB".to_string())
    );
    assert!(copy(&"x".repeat(MAX_BYTES)).is_ok());
    // Bytes are what counts, not characters.
    assert!(copy(&"é".repeat(MAX_BYTES / 2)).is_ok());
    assert!(copy(&"é".repeat(MAX_BYTES / 2 + 1)).is_err());
}

#[test]
fn copying_is_an_escape_sequence_around_base64() {
    assert_eq!(copy("hi there"), Ok("\x1b]52;c;aGkgdGhlcmU=\x07".to_string()));
    assert_eq!(copy(""), Ok("\x1b]52;c;\x07".to_string()));
    for text in ["a", "ab", "abc", "abcd", "naïve — ✓", "\0\u{ff}\u{3ff}?>~"] {
        let data = base64::engine::general_purpose::STANDARD.encode(text);
        assert_eq!(copy(text), Ok(format!("\x1b]52;c;{data}\x07")));
    }
}

#[test]
fn a_whole_block() {
    assert_eq!(
        block("/w/a.rs", Some((1, 2)), "rs", "one\ntwo"),
        "/w/a.rs:1-2\n```rs\none\ntwo\n```\n"
    );
}
