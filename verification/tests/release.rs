//! Which version the landed commits ask for.
use grove::release::{
    bump_for, bump_for_one, commit_messages, has_breaking_footer, latest_tag, log_args, next,
    parse_subject, parse_version, Bump,
};

fn bump(messages: &[&str]) -> Bump {
    let list: Vec<String> = messages.iter().map(|m| (*m).to_string()).collect();
    bump_for(&list)
}

#[test]
fn feat_is_minor_and_fix_is_patch() {
    assert_eq!(bump(&["feat: add a thing"]), Bump::Minor);
    assert_eq!(bump(&["fix: unbreak a thing"]), Bump::Patch);
    assert_eq!(bump(&["feat(tree): scoped still counts"]), Bump::Minor);
}

#[test]
fn everything_else_releases_nothing() {
    for message in [
        "docs: explain the thing",
        "ci: bump an action",
        "style: gofmt equivalent",
        "refactor: move a thing",
        "chore: tidy up",
        "test: cover a case",
        // The one that started this: prose is not a Conventional Commit.
        "Follow the disk instead of waiting to be told",
        // Prose that merely contains a colon must not parse as a type.
        "Screenshots: keep herdr's frame in shot",
    ] {
        assert_eq!(bump(&[message]), Bump::Nothing, "{message:?}");
    }
}

#[test]
fn a_colon_in_prose_is_not_a_commit_type() {
    // Prose often has a colon in it. Only a single alphabetic word, with an
    // optional closed scope, counts as a type.
    assert_eq!(parse_subject("Fix the thing: really"), None);
    assert_eq!(parse_subject("feat something: no colon after type"), None);
    assert_eq!(parse_subject("feat(unclosed: scope"), None);
    assert_eq!(parse_subject("no colon at all"), None);
    assert_eq!(parse_subject("feat: a"), Some(("feat".into(), false)));
    assert_eq!(
        parse_subject("FEAT: a"),
        Some(("feat".into(), false)),
        "case-insensitive"
    );
    assert_eq!(parse_subject("fix(api)!: a"), Some(("fix".into(), true)));
}

#[test]
fn a_bang_or_a_breaking_footer_is_major_whatever_the_type() {
    assert_eq!(bump(&["feat!: drop the old format"]), Bump::Major);
    // `refactor` alone releases nothing; the bang overrides that.
    assert_eq!(bump(&["refactor(api)!: rename a thing"]), Bump::Major);
    assert_eq!(
        bump(&["feat: rework events\n\nBREAKING CHANGE: layout changed"]),
        Bump::Major
    );
    assert_eq!(bump(&["fix: x\n\nBREAKING-CHANGE: y"]), Bump::Major);
}

#[test]
fn a_breaking_change_mentioned_mid_sentence_is_not_a_footer() {
    assert_eq!(
        bump(&["fix: avoid a BREAKING CHANGE: in the body text"]),
        Bump::Patch,
        "the footer has to start its own line"
    );
}

#[test]
fn the_highest_bump_across_the_range_wins() {
    assert_eq!(bump(&["fix: a", "feat: b"]), Bump::Minor);
    assert_eq!(bump(&["feat: a", "fix!: b"]), Bump::Major);
    assert_eq!(bump(&["docs: a", "fix: b"]), Bump::Patch);
    assert_eq!(bump(&["docs: a", "chore: b"]), Bump::Nothing);
    assert_eq!(bump(&[]), Bump::Nothing);
}

#[test]
fn versions_count_up_from_the_latest_tag() {
    assert_eq!(
        next(Some("0.1.0"), Bump::Minor).unwrap().as_deref(),
        Some("0.2.0")
    );
    assert_eq!(
        next(Some("0.1.2"), Bump::Patch).unwrap().as_deref(),
        Some("0.1.3")
    );
    // No 0.x special case: breaking means 1.0.0.
    assert_eq!(
        next(Some("0.4.1"), Bump::Major).unwrap().as_deref(),
        Some("1.0.0")
    );
    assert_eq!(
        next(Some("1.2.3"), Bump::Major).unwrap().as_deref(),
        Some("2.0.0")
    );
    // A minor bump resets the patch, a major resets both.
    assert_eq!(
        next(Some("1.2.3"), Bump::Minor).unwrap().as_deref(),
        Some("1.3.0")
    );
}

#[test]
fn no_tag_yet_counts_up_from_zero() {
    assert_eq!(next(None, Bump::Patch).unwrap().as_deref(), Some("0.0.1"));
    assert_eq!(next(None, Bump::Minor).unwrap().as_deref(), Some("0.1.0"));
    assert_eq!(next(None, Bump::Major).unwrap().as_deref(), Some("1.0.0"));
}

#[test]
fn nothing_release_worthy_produces_no_tag() {
    assert_eq!(next(Some("0.1.0"), Bump::Nothing).unwrap(), None);
    assert_eq!(next(None, Bump::Nothing).unwrap(), None);
}

#[test]
fn only_bare_x_y_z_tags_count_as_versions() {
    assert_eq!(parse_version("0.1.0"), Some((0, 1, 0)));
    assert_eq!(parse_version("10.20.30"), Some((10, 20, 30)));
    // A `v` prefix, a pre-release or a stray fourth part is not our scheme,
    // and must not be picked up as "the latest release".
    assert_eq!(parse_version("v0.1.0"), None);
    assert_eq!(parse_version("0.2.0-rc1"), None);
    assert_eq!(parse_version("0.1.0.1"), None);
    assert_eq!(parse_version("0.1"), None);
    assert_eq!(parse_version("nightly"), None);
}

#[test]
fn an_unparseable_latest_tag_is_an_error_not_a_guess() {
    assert!(next(Some("nightly"), Bump::Patch).is_err());
}

#[test]
fn the_error_quotes_the_tag() {
    assert_eq!(
        next(Some("nightly"), Bump::Patch),
        Err("latest tag \"nightly\" is not X.Y.Z".to_string())
    );
    assert_eq!(
        next(Some("a\"b\n"), Bump::Major),
        Err("latest tag \"a\\\"b\\n\" is not X.Y.Z".to_string())
    );
    // With nothing to release the tag is not even looked at.
    assert_eq!(next(Some("nightly"), Bump::Nothing), Ok(None));
}

#[test]
fn subjects_at_the_edges() {
    assert_eq!(parse_subject(":"), None);
    assert_eq!(parse_subject("!: x"), None);
    assert_eq!(parse_subject("(scope): x"), None);
    assert_eq!(parse_subject("feat(): x"), Some(("feat".into(), false)));
    assert_eq!(parse_subject("feat(a)b: x"), None);
    assert_eq!(parse_subject("féat: x"), None);
    assert_eq!(parse_subject("feat!!: x"), None);
    assert_eq!(bump_for_one("\n\n  feat: after blank lines\n"), Bump::Minor);
    assert_eq!(bump_for_one(""), Bump::Nothing);
    assert!(has_breaking_footer("x\r\nBREAKING CHANGE: y"));
    assert!(!has_breaking_footer("x\n BREAKING CHANGE: y"));
}

#[test]
fn a_footer_without_a_type_says_nothing() {
    assert_eq!(bump_for_one("prose\n\nBREAKING CHANGE: y"), Bump::Nothing);
}

#[test]
fn numbers_are_digits_and_nothing_else() {
    for part in ["0", "007", "18446744073709551615"] {
        let n: u64 = part.parse().unwrap();
        assert_eq!(parse_version(&format!("{part}.0.0")), Some((n, 0, 0)), "{part:?}");
        assert_eq!(parse_version(&format!("0.{part}.0")), Some((0, n, 0)), "{part:?}");
        assert_eq!(parse_version(&format!("0.0.{part}")), Some((0, 0, n)), "{part:?}");
    }
    for part in ["+4", "+", "", "-1", "18446744073709551616", " 1", "1 ", "v1"] {
        assert_eq!(parse_version(&format!("{part}.0.0")), None, "{part:?}");
        assert_eq!(parse_version(&format!("0.{part}.0")), None, "{part:?}");
        assert_eq!(parse_version(&format!("0.0.{part}")), None, "{part:?}");
    }
    assert_eq!(parse_version("+0.1.0"), None);
}

#[test]
fn a_scope_is_one_closed_pair_of_brackets() {
    assert_eq!(parse_subject("feat(tree) and fix(doc): tidy"), None);
    assert_eq!(parse_subject("feat(a)(b): c"), None);
    assert_eq!(parse_subject("feat((a)): c"), None);
    assert_eq!(parse_subject("feat((a): c"), None);
    assert_eq!(parse_subject("feat)(: c"), None);
    assert_eq!(parse_subject("feat(a) : c"), None);
    assert_eq!(parse_subject("feat(a b): c"), Some(("feat".into(), false)));
    assert_eq!(parse_subject("feat(): c"), Some(("feat".into(), false)));
}

#[test]
fn a_release_reads_back_and_comes_later() {
    for (tag, bump) in [("0.9.9", Bump::Patch), ("0.9.9", Bump::Minor), ("9.9.9", Bump::Major)] {
        let cut = next(Some(tag), bump).unwrap().unwrap();
        assert!(parse_version(&cut).unwrap() > parse_version(tag).unwrap());
    }
    assert_eq!(next(Some("0.9.9"), Bump::Patch).unwrap().as_deref(), Some("0.9.10"));
}

#[test]
fn a_longer_range_asks_for_the_higher_of_its_halves() {
    let (a, b) = (["fix: a", "docs: b"], ["feat: c"]);
    assert_eq!(bump(&[a[0], a[1], b[0]]), bump(&a).max(bump(&b)));
    assert!(Bump::Nothing < Bump::Patch && Bump::Patch < Bump::Minor && Bump::Minor < Bump::Major);
}

#[test]
fn the_latest_tag_is_the_first_line_that_is_a_version() {
    assert_eq!(
        latest_tag("nightly\nv2.0.0\n  0.10.0 \n0.9.0\n").as_deref(),
        Some("0.10.0")
    );
    assert_eq!(latest_tag("nightly\n"), None);
    assert_eq!(latest_tag(""), None);
}

#[test]
fn messages_are_separated_by_nul_and_blank_ones_dropped() {
    assert_eq!(
        commit_messages("feat: a\n\nbody\n\0fix: b\n\0\n \0"),
        vec!["feat: a\n\nbody\n".to_string(), "fix: b\n".to_string()]
    );
    assert!(commit_messages("").is_empty());
}

#[test]
fn the_log_runs_from_the_latest_tag() {
    assert_eq!(log_args(None), vec!["log", "-z", "--format=%B"]);
    assert_eq!(log_args(Some("0.1.0")), vec!["log", "-z", "--format=%B", "0.1.0..HEAD"]);
}
