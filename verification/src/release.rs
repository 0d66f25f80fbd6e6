//! The next version implied by the Conventional Commit messages landed since the
//! most recent version tag.
//!
//! `feat` asks for a minor version, `fix` for a patch, a `!` marker or a
//! `BREAKING CHANGE:` footer for a major one whatever the type says, and
//! everything else for no release. Plain semver throughout, with no 0.x special
//! case: a breaking change at 0.4.1 is 1.0.0.
use crate::text;
use vstd::prelude::*;
use vstd::string::StringExecFns;

verus! {

/// A semantic version bump. Ordered, so the highest across a range of commits is
/// the largest.
#[derive(Clone, Copy, PartialEq, Eq, PartialOrd, Ord, Structural, Debug)]
pub enum Bump {
    Nothing,
    Patch,
    Minor,
    Major,
}

/// Where a bump stands among the others.
pub open spec fn rank(bump: Bump) -> nat {
    match bump {
        Bump::Nothing => 0,
        Bump::Patch => 1,
        Bump::Minor => 2,
        Bump::Major => 3,
    }
}

/// The higher of two bumps.
pub open spec fn higher(a: Bump, b: Bump) -> Bump {
    if rank(a) >= rank(b) {
        a
    } else {
        b
    }
}

// ---------------------------------------------------------------------------
// Commit messages
// ---------------------------------------------------------------------------

pub open spec fn is_letter(c: char) -> bool {
    'a' <= c <= 'z' || 'A' <= c <= 'Z'
}

pub open spec fn all_letters(s: Seq<char>) -> bool {
    forall|i: int| 0 <= i < s.len() ==> is_letter(#[trigger] s[i])
}

/// What stands before the colon of a subject, without the breaking marker.
pub open spec fn subject_head(subject: Seq<char>) -> Seq<char> {
    let head = subject.take(text::position(subject, ':') as int);
    if is_marked(subject) {
        head.drop_last()
    } else {
        head
    }
}

/// Whether the breaking marker stands before the colon of a subject.
pub open spec fn is_marked(subject: Seq<char>) -> bool {
    let head = subject.take(text::position(subject, ':') as int);
    head.len() > 0 && head.last() == '!'
}

/// The type in front of a scope, or `None` when what follows the type is not one
/// closed scope up to the end.
pub open spec fn before_scope(head: Seq<char>) -> Option<Seq<char>> {
    let open = text::position(head, '(');
    let rest = head.skip(open as int + 1);
    if open >= head.len() {
        Some(head)
    } else if text::position(head, ')') == head.len() - 1 && text::position(rest, '(')
        >= rest.len() {
        Some(head.take(open as int))
    } else {
        None
    }
}

/// The type of a subject, in lower case, and whether the breaking marker is
/// there. `None` for anything that is not shaped like `type(scope)!:`.
pub open spec fn subject_type(subject: Seq<char>) -> Option<(Seq<char>, bool)> {
    if text::position(subject, ':') >= subject.len() {
        None
    } else {
        match before_scope(subject_head(subject)) {
            Some(kind) => if kind.len() > 0 && all_letters(kind) {
                Some((text::lowered_ascii(kind), is_marked(subject)))
            } else {
                None
            },
            None => None,
        }
    }
}

/// Whether a line declares a breaking change.
pub open spec fn is_breaking(line: Seq<char>) -> bool {
    text::begins(line, "BREAKING CHANGE:"@) || text::begins(line, "BREAKING-CHANGE:"@)
}

/// Whether a line of a message declares a breaking change.
pub open spec fn has_footer(message: Seq<char>) -> bool {
    exists|i: int|
        0 <= i < text::line_list(message).len() && is_breaking(
            #[trigger] text::line_list(message)[i],
        )
}

/// The first line of a message.
pub open spec fn subject_of(message: Seq<char>) -> Seq<char> {
    if text::line_list(message).len() > 0 {
        text::line_list(message)[0]
    } else {
        Seq::empty()
    }
}

/// What one commit asks for.
pub open spec fn asked_by(message: Seq<char>) -> Bump {
    let message = text::trimmed(message);
    match subject_type(subject_of(message)) {
        None => Bump::Nothing,
        Some((kind, bang)) => if bang || has_footer(message) {
            Bump::Major
        } else if kind == "feat"@ {
            Bump::Minor
        } else if kind == "fix"@ {
            Bump::Patch
        } else {
            Bump::Nothing
        },
    }
}

/// The highest bump that any of these commits asks for.
pub open spec fn asked_by_all(messages: Seq<Seq<char>>) -> Bump
    decreases messages.len(),
{
    if messages.len() == 0 {
        Bump::Nothing
    } else {
        higher(asked_by_all(messages.drop_last()), asked_by(messages.last()))
    }
}

/// The highest bump any of these commits asks for.
pub fn bump_for(messages: &Vec<String>) -> (bump: Bump)
    ensures
        bump == asked_by_all(text::texts(messages@)),
{
    let ghost all = text::texts(messages@);
    let mut bump = Bump::Nothing;
    let mut i: usize = 0;
    while i < messages.len()
        invariant
            i <= messages@.len(),
            all == text::texts(messages@),
            bump == asked_by_all(all.take(i as int)),
        decreases messages@.len() - i,
    {
        let asked = bump_for_one(messages[i].as_str());
        bump = highest(bump, asked);
        i += 1;
        assert(all.take(i as int).drop_last() =~= all.take(i - 1));
        assert(all.take(i as int).last() == messages@[i - 1]@);
    }
    assert(all.take(i as int) =~= all);
    bump
}

fn rank_of(bump: Bump) -> (n: u8)
    ensures
        n == rank(bump),
{
    match bump {
        Bump::Nothing => 0,
        Bump::Patch => 1,
        Bump::Minor => 2,
        Bump::Major => 3,
    }
}

fn highest(a: Bump, b: Bump) -> (out: Bump)
    ensures
        out == higher(a, b),
{
    if rank_of(a) >= rank_of(b) {
        a
    } else {
        b
    }
}

/// What one commit asks for.
pub fn bump_for_one(message: &str) -> (bump: Bump)
    ensures
        bump == asked_by(message@),
{
    let message = text::trim(message);
    let lines = text::lines_of(message.as_str());
    let subject = if lines.len() > 0 {
        assert(text::texts(lines@)[0] == lines@[0]@);
        lines[0].clone()
    } else {
        String::new()
    };
    match parse_subject(subject.as_str()) {
        None => Bump::Nothing,
        Some((kind, bang)) => {
            if bang || has_breaking_footer(message.as_str()) {
                Bump::Major
            } else if text::same_text(kind.as_str(), "feat") {
                Bump::Minor
            } else if text::same_text(kind.as_str(), "fix") {
                Bump::Patch
            } else {
                Bump::Nothing
            }
        },
    }
}

/// Split `type(scope)!:` into its type and whether the breaking marker is there.
/// `None` for anything that is not shaped like a Conventional Commit.
pub fn parse_subject(subject: &str) -> (out: Option<(String, bool)>)
    ensures
        (match out {
            Some((kind, bang)) => Some((kind@, bang)),
            None => None,
        }) == subject_type(subject@),
{
    let chars = text::chars_of(subject);
    let colon = text::find_from(&chars, 0, ':');
    assert(chars@.skip(0) =~= chars@);
    if colon >= chars.len() {
        return None;
    }
    let bang = colon > 0 && chars[colon - 1] == '!';
    let end = if bang {
        colon - 1
    } else {
        colon
    };
    let head = text::chars_of(text::slice_text(&chars, 0, end).as_str());
    proof {
        let whole = subject@.take(colon as int);
        assert(head@ =~= subject_head(subject@));
        if colon > 0 {
            assert(whole.last() == chars@[colon - 1]);
        }
    }
    let open = text::find_from(&head, 0, '(');
    assert(head@.skip(0) =~= head@);
    if open < head.len() {
        // One scope, closed where the head ends: anything else is prose with a
        // colon in it rather than a commit type.
        let close = text::find_from(&head, 0, ')');
        let again = text::find_from(&head, open + 1, '(');
        if close != head.len() - 1 || again < head.len() {
            return None;
        }
    }
    let kind = text::slice_text(&head, 0, open);
    assert(kind@ =~= head@.take(open as int));
    assert(open == head@.len() ==> kind@ =~= head@);
    assert(before_scope(head@) == Some(kind@));
    if kind.as_str().is_empty() || !is_all_letters(kind.as_str()) {
        return None;
    }
    Some((text::to_lower_ascii(kind.as_str()), bang))
}

fn is_all_letters(s: &str) -> (yes: bool)
    ensures
        yes == all_letters(s@),
{
    let chars = text::chars_of(s);
    let mut i: usize = 0;
    while i < chars.len()
        invariant
            i <= chars@.len(),
            chars@ == s@,
            forall|k: int| 0 <= k < i ==> is_letter(#[trigger] s@[k]),
        decreases chars@.len() - i,
    {
        let c = chars[i];
        let letter = ('a' <= c && c <= 'z') || ('A' <= c && c <= 'Z');
        if !letter {
            assert(!is_letter(s@[i as int]));
            return false;
        }
        i += 1;
    }
    true
}

/// A breaking footer has to start its own line. Mentioning a breaking change
/// mid-sentence in a body is a description, not a declaration.
pub fn has_breaking_footer(message: &str) -> (yes: bool)
    ensures
        yes == has_footer(message@),
{
    let lines = text::lines_of(message);
    let ghost all = text::line_list(message@);
    let mut i: usize = 0;
    while i < lines.len()
        invariant
            i <= lines@.len(),
            all == text::line_list(message@),
            all == text::texts(lines@),
            forall|k: int| 0 <= k < i ==> !is_breaking(#[trigger] all[k]),
        decreases lines@.len() - i,
    {
        assert(all[i as int] == lines@[i as int]@);
        if text::starts_with(lines[i].as_str(), "BREAKING CHANGE:") || text::starts_with(
            lines[i].as_str(),
            "BREAKING-CHANGE:",
        ) {
            assert(is_breaking(all[i as int]));
            return true;
        }
        i += 1;
    }
    false
}

/// The range of one list of commits and then another asks for the higher of what
/// each asks for.
pub proof fn a_longer_range_asks_for_the_higher(a: Seq<Seq<char>>, b: Seq<Seq<char>>)
    ensures
        asked_by_all(a + b) == higher(asked_by_all(a), asked_by_all(b)),
    decreases b.len(),
{
    if b.len() == 0 {
        assert(a + b =~= a);
    } else {
        assert((a + b).drop_last() =~= a + b.drop_last());
        a_longer_range_asks_for_the_higher(a, b.drop_last());
    }
}

/// What a range asks for is what one of its commits asks for, unless it is
/// nothing, and no commit in it asks for more.
pub proof fn the_highest_wins(messages: Seq<Seq<char>>)
    ensures
        asked_by_all(messages) == Bump::Nothing || exists|i: int|
            0 <= i < messages.len() && asked_by(#[trigger] messages[i]) == asked_by_all(messages),
        forall|i: int|
            0 <= i < messages.len() ==> rank(asked_by(#[trigger] messages[i])) <= rank(
                asked_by_all(messages),
            ),
    decreases messages.len(),
{
    if messages.len() > 0 {
        let before = messages.drop_last();
        the_highest_wins(before);
        assert forall|i: int| 0 <= i < messages.len() implies rank(
            asked_by(#[trigger] messages[i]),
        ) <= rank(asked_by_all(messages)) by {
            if i < before.len() {
                assert(messages[i] == before[i]);
            }
        }
        if asked_by_all(messages) != Bump::Nothing {
            if asked_by_all(messages) == asked_by(messages.last()) {
                assert(asked_by(messages[messages.len() - 1]) == asked_by_all(messages));
            } else {
                let i = choose|i: int|
                    0 <= i < before.len() && asked_by(#[trigger] before[i]) == asked_by_all(before);
                assert(messages[i] == before[i]);
            }
        }
    }
}

/// A breaking marker or a breaking footer is a major change whatever the type
/// of the commit.
pub proof fn breaking_is_major_whatever_the_type(message: Seq<char>)
    requires
        subject_type(subject_of(text::trimmed(message))) is Some,
        is_marked(subject_of(text::trimmed(message))) || has_footer(text::trimmed(message)),
    ensures
        asked_by(message) == Bump::Major,
{
}

// ---------------------------------------------------------------------------
// Versions
// ---------------------------------------------------------------------------

/// `X.Y.Z` and nothing else: no `v`, no sign, no pre-release suffix.
pub open spec fn version_of(tag: Seq<char>) -> Option<(u64, u64, u64)> {
    let parts = text::pieces(tag, '.');
    if parts.len() == 3 {
        match (
            text::parsed_number(parts[0]),
            text::parsed_number(parts[1]),
            text::parsed_number(parts[2]),
        ) {
            (Some(a), Some(b), Some(c)) => Some((a, b, c)),
            _ => None,
        }
    } else {
        None
    }
}

/// `X.Y.Z` and nothing else, so a tag like `0.2.0-rc1` is ignored rather than
/// counted as the latest release.
pub fn parse_version(tag: &str) -> (version: Option<(u64, u64, u64)>)
    ensures
        version == version_of(tag@),
{
    let parts = text::split(tag, '.');
    if parts.len() != 3 {
        return None;
    }
    assert(text::texts(parts@)[0] == parts@[0]@);
    assert(text::texts(parts@)[1] == parts@[1]@);
    assert(text::texts(parts@)[2] == parts@[2]@);
    match (
        text::parse_number(parts[0].as_str()),
        text::parse_number(parts[1].as_str()),
        text::parse_number(parts[2].as_str()),
    ) {
        (Some(a), Some(b), Some(c)) => Some((a, b, c)),
        _ => None,
    }
}

/// A version counted up: a minor bump resets the patch, a major one resets both.
pub open spec fn bumped(version: (int, int, int), bump: Bump) -> (int, int, int) {
    match bump {
        Bump::Major => (version.0 + 1, 0, 0),
        Bump::Minor => (version.0, version.1 + 1, 0),
        Bump::Patch => (version.0, version.1, version.2 + 1),
        Bump::Nothing => version,
    }
}

/// Whether every part of a version can be counted.
pub open spec fn counts(version: (int, int, int)) -> bool {
    version.0 <= u64::MAX && version.1 <= u64::MAX && version.2 <= u64::MAX
}

/// The version that a tag names; 0.0.0 where there is no tag yet, and `None` for
/// a tag that names none.
pub open spec fn base_version(latest: Option<Seq<char>>) -> Option<(int, int, int)> {
    match latest {
        Some(tag) => match version_of(tag) {
            Some((a, b, c)) => Some((a as int, b as int, c as int)),
            None => None,
        },
        None => Some((0, 0, 0)),
    }
}

/// A version as a tag writes it.
pub open spec fn version_text(version: (int, int, int)) -> Seq<char> {
    text::decimal(version.0 as nat) + "."@ + text::decimal(version.1 as nat) + "."@
        + text::decimal(version.2 as nat)
}

/// What a string looks like between quotes, with what needs it escaped.
pub uninterp spec fn quoted(s: Seq<char>) -> Seq<char>;

/// A string between quotes, for a message.
///
/// The `Debug` form of a `str`: the text between double quotes, with quotes,
/// backslashes and characters that do not print escaped. Which form each takes
/// is left to the name `quoted`; ASCII letters, digits, dots and dashes stand for
/// themselves.
#[verifier::external_body]
fn quote(s: &str) -> (out: String)
    ensures
        out@ == quoted(s@),
        (forall|i: int|
            0 <= i < s@.len() ==> is_letter(#[trigger] s@[i]) || text::is_digit(s@[i]) || s@[i]
                == '.' || s@[i] == '-') ==> out@ == seq!['"'] + s@ + seq!['"'],
{
    format!("{s:?}")
}

/// The tag to cut: nothing when there is nothing to release, and an error when
/// the latest tag is no version.
pub open spec fn next_tag(latest: Option<Seq<char>>, bump: Bump) -> Result<
    Option<Seq<char>>,
    Seq<char>,
> {
    if bump == Bump::Nothing {
        Ok(None)
    } else {
        match base_version(latest) {
            Some(version) => Ok(Some(version_text(bumped(version, bump)))),
            None => Err("latest tag "@ + quoted(latest->0) + " is not X.Y.Z"@),
        }
    }
}

/// What a tag, or the lack of one, says.
pub open spec fn tag_view(tag: Option<&str>) -> Option<Seq<char>> {
    match tag {
        Some(tag) => Some(tag@),
        None => None,
    }
}

/// The tag to cut, or `None` when there is nothing to release. Unprefixed, like the tags
/// it counts up from.
pub fn next(latest: Option<&str>, bump: Bump) -> (out: Result<Option<String>, String>)
    requires
        base_version(tag_view(latest)) matches Some(version) ==> counts(bumped(version, bump)),
    ensures
        (match out {
            Ok(tag) => Ok(text::option_view(tag)),
            Err(why) => Err(why@),
        }) == next_tag(tag_view(latest), bump),
{
    if bump == Bump::Nothing {
        return Ok(None);
    }
    let (a, b, c): (u64, u64, u64) = match latest {
        None => (0, 0, 0),
        Some(tag) => match parse_version(tag) {
            Some(version) => version,
            None => {
                return Err(
                    "latest tag ".to_owned().concat(quote(tag).as_str()).concat(" is not X.Y.Z"),
                );
            },
        },
    };
    let (a, b, c): (u64, u64, u64) = match bump {
        Bump::Major => (a + 1, 0, 0),
        Bump::Minor => (a, b + 1, 0),
        Bump::Patch => (a, b, c + 1),
        Bump::Nothing => (a, b, c),
    };
    Ok(
        Some(
            text::decimal_text(a).concat(".").concat(text::decimal_text(b).as_str()).concat(
                ".",
            ).concat(text::decimal_text(c).as_str()),
        ),
    )
}

/// Whether one version comes before another.
pub open spec fn precedes(a: (int, int, int), b: (int, int, int)) -> bool {
    a.0 < b.0 || (a.0 == b.0 && (a.1 < b.1 || (a.1 == b.1 && a.2 < b.2)))
}

/// A version that is written as a tag reads back as that version.
pub proof fn a_written_version_reads_back(a: u64, b: u64, c: u64)
    ensures
        version_of(version_text((a as int, b as int, c as int))) == Some((a, b, c)),
{
    let x = text::decimal(a as nat);
    let y = text::decimal(b as nat);
    let z = text::decimal(c as nat);
    let tag = version_text((a as int, b as int, c as int));
    reveal_strlit(".");
    text::a_written_number_reads_back(a);
    text::a_written_number_reads_back(b);
    text::a_written_number_reads_back(c);
    lemma_no_dot(a as nat);
    lemma_no_dot(b as nat);
    lemma_no_dot(c as nat);
    assert("."@ =~= seq!['.']);
    assert(tag =~= x.push('.') + (y.push('.') + z));
    text::lemma_first_piece(x, '.', y.push('.') + z);
    text::lemma_first_piece(y, '.', z);
    text::lemma_first_piece(z, '.', Seq::empty());
    assert(text::pieces(tag, '.') =~= seq![x, y, z]);
}

proof fn lemma_no_dot(n: nat)
    ensures
        !text::decimal(n).contains('.'),
{
    text::lemma_decimal(n);
    if text::decimal(n).contains('.') {
        let i = text::decimal(n).index_of('.');
        assert(text::is_digit(text::decimal(n)[i]));
    }
}

/// A release counts up: the tag that is cut is a version of its own, it comes
/// after the one it counts up from, and the next release counts up from it.
pub proof fn a_release_counts_up(latest: Option<Seq<char>>, bump: Bump)
    requires
        bump != Bump::Nothing,
        base_version(latest) is Some,
        counts(bumped(base_version(latest)->0, bump)),
    ensures
        match next_tag(latest, bump) {
            Ok(Some(tag)) => base_version(Some(tag)) == Some(bumped(base_version(latest)->0, bump))
                && precedes(base_version(latest)->0, base_version(Some(tag))->0),
            _ => false,
        },
{
    let v = bumped(base_version(latest)->0, bump);
    a_written_version_reads_back(v.0 as u64, v.1 as u64, v.2 as u64);
}

// ---------------------------------------------------------------------------
// What git prints
// ---------------------------------------------------------------------------

/// The first of these lines that is a version.
pub open spec fn first_version(lines: Seq<Seq<char>>) -> Option<Seq<char>>
    decreases lines.len(),
{
    if lines.len() == 0 {
        None
    } else if version_of(text::trimmed(lines.first())) is Some {
        Some(text::trimmed(lines.first()))
    } else {
        first_version(lines.drop_first())
    }
}

/// The latest version tag, given the repository's tags one to a line with the
/// highest first, or `None` when there is not one yet.
pub fn latest_tag(tags: &str) -> (tag: Option<String>)
    ensures
        text::option_view(tag) == first_version(text::line_list(tags@)),
{
    let lines = text::lines_of(tags);
    let ghost all = text::line_list(tags@);
    let mut i: usize = 0;
    assert(all.skip(0) =~= all);
    while i < lines.len()
        invariant
            i <= lines@.len(),
            all == text::line_list(tags@),
            all == text::texts(lines@),
            first_version(all) == first_version(all.skip(i as int)),
        decreases lines@.len() - i,
    {
        proof {
            assert(all.skip(i as int).first() == lines@[i as int]@);
            assert(all.skip(i as int).drop_first() =~= all.skip(i + 1));
        }
        let line = text::trim(lines[i].as_str());
        if parse_version(line.as_str()).is_some() {
            return Some(line);
        }
        i += 1;
    }
    assert(all.skip(i as int) =~= Seq::<Seq<char>>::empty());
    None
}

/// The pieces that are more than space.
pub open spec fn worded(pieces: Seq<Seq<char>>) -> Seq<Seq<char>> {
    pieces.filter(|m: Seq<char>| text::trimmed(m).len() > 0)
}

/// Commit messages from a log that separates them with NUL, because a message
/// body spans lines and splitting on newlines would read each paragraph as its
/// own commit.
pub fn commit_messages(log: &str) -> (messages: Vec<String>)
    ensures
        text::texts(messages@) == worded(text::pieces(log@, '\0')),
{
    let pieces = text::split(log, '\0');
    let ghost all = text::pieces(log@, '\0');
    let mut out: Vec<String> = Vec::new();
    let mut i: usize = 0;
    proof {
        reveal(Seq::filter);
        assert(all.take(0) =~= Seq::<Seq<char>>::empty());
        assert(text::texts(out@) =~= worded(all.take(0)));
    }
    while i < pieces.len()
        invariant
            i <= pieces@.len(),
            all == text::texts(pieces@),
            text::texts(out@) == worded(all.take(i as int)),
        decreases pieces@.len() - i,
    {
        let ghost before = text::texts(out@);
        proof {
            reveal(Seq::filter);
            assert(all.take(i + 1).drop_last() =~= all.take(i as int));
            assert(all.take(i + 1).last() == pieces@[i as int]@);
        }
        if !text::trim(pieces[i].as_str()).as_str().is_empty() {
            out.push(pieces[i].clone());
            assert(text::texts(out@) =~= before.push(pieces@[i as int]@));
        }
        i += 1;
    }
    assert(all.take(i as int) =~= all);
    out
}

/// The arguments that have git print the messages landed since a tag, or all of
/// them when there is no tag yet.
pub open spec fn log_arguments(latest: Option<Seq<char>>) -> Seq<Seq<char>> {
    let args = seq!["log"@, "-z"@, "--format=%B"@];
    match latest {
        Some(tag) => args.push(tag + "..HEAD"@),
        None => args,
    }
}

/// What to ask git for: every message reachable from HEAD but not from `latest`,
/// the whole history when there is no tag yet, which is what makes a first
/// release work.
pub fn log_args(latest: Option<&str>) -> (args: Vec<String>)
    ensures
        text::texts(args@) == log_arguments(tag_view(latest)),
{
    let mut args: Vec<String> = Vec::new();
    args.push("log".to_owned());
    args.push("-z".to_owned());
    args.push("--format=%B".to_owned());
    if let Some(tag) = latest {
        args.push(tag.to_owned().concat("..HEAD"));
    }
    assert(text::texts(args@) =~= log_arguments(tag_view(latest)));
    args
}

} // verus!
