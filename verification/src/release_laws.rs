//! What holds of every range of commits and every release, stated on the messages
//! and the tags themselves.
use crate::release;
use crate::release::Bump;
use crate::text;
use crate::text_laws;
use vstd::prelude::*;

verus! {

// ---------------------------------------------------------------------------
// Footers
// ---------------------------------------------------------------------------

/// Whether a breaking footer stands somewhere in a message at the start of a line.
pub open spec fn declares_breaking(message: Seq<char>) -> bool {
    exists|at: int| #[trigger]
        text_laws::starts_a_line(message, at) && (text_laws::stands_at(
            message,
            "BREAKING CHANGE:"@,
            at,
        ) || text_laws::stands_at(message, "BREAKING-CHANGE:"@, at))
}

/// A message has a breaking footer exactly where one of its lines, whichever it
/// is, begins with the words for it.
pub proof fn a_footer_starts_its_own_line(message: Seq<char>)
    ensures
        release::has_footer(message) <==> declares_breaking(message),
{
    let a = "BREAKING CHANGE:"@;
    let b = "BREAKING-CHANGE:"@;
    reveal_strlit("BREAKING CHANGE:");
    reveal_strlit("BREAKING-CHANGE:");
    text_laws::a_line_begins_where_it_starts(message, a);
    text_laws::a_line_begins_where_it_starts(message, b);
    let lines = text::line_list(message);
    if release::has_footer(message) {
        let i = choose|i: int| 0 <= i < lines.len() && release::is_breaking(#[trigger] lines[i]);
        if text::begins(lines[i], a) {
            let at = choose|at: int| #[trigger]
                text_laws::starts_a_line(message, at) && text_laws::stands_at(message, a, at);
            assert(text_laws::starts_a_line(message, at));
        } else {
            assert(text::begins(lines[i], b));
            let at = choose|at: int| #[trigger]
                text_laws::starts_a_line(message, at) && text_laws::stands_at(message, b, at);
            assert(text_laws::starts_a_line(message, at));
        }
    }
    if declares_breaking(message) {
        let at = choose|at: int| #[trigger]
            text_laws::starts_a_line(message, at) && (text_laws::stands_at(message, a, at)
                || text_laws::stands_at(message, b, at));
        if text_laws::stands_at(message, a, at) {
            let i = choose|i: int| 0 <= i < lines.len() && text::begins(#[trigger] lines[i], a);
            assert(release::is_breaking(lines[i]));
        } else {
            let i = choose|i: int| 0 <= i < lines.len() && text::begins(#[trigger] lines[i], b);
            assert(release::is_breaking(lines[i]));
        }
    }
}

/// A breaking footer is seen below whatever comes before it: text, a newline, and
/// a line that begins with the words for it.
pub proof fn a_footer_is_seen_below_any_text(before: Seq<char>, footer: Seq<char>)
    requires
        text_laws::stands_at(footer, "BREAKING CHANGE:"@, 0) || text_laws::stands_at(
            footer,
            "BREAKING-CHANGE:"@,
            0,
        ),
    ensures
        release::has_footer(before.push('\n') + footer),
        release::has_footer(footer),
{
    let all = before.push('\n') + footer;
    let at = before.len() as int + 1;
    reveal_strlit("BREAKING CHANGE:");
    reveal_strlit("BREAKING-CHANGE:");
    assert(text_laws::starts_a_line(all, at));
    assert(text_laws::starts_a_line(footer, 0));
    if text_laws::stands_at(footer, "BREAKING CHANGE:"@, 0) {
        assert(all.subrange(at, at + 16) =~= footer.subrange(0, 16));
    } else {
        assert(all.subrange(at, at + 16) =~= footer.subrange(0, 16));
    }
    a_footer_starts_its_own_line(all);
    a_footer_starts_its_own_line(footer);
}

// ---------------------------------------------------------------------------
// Subjects
// ---------------------------------------------------------------------------

/// Whether a word is letters and nothing else, and not nothing.
pub open spec fn is_word(kind: Seq<char>) -> bool {
    kind.len() > 0 && forall|i: int|
        0 <= i < kind.len() ==> 'a' <= #[trigger] kind[i] <= 'z' || 'A' <= kind[i] <= 'Z'
}

/// Whether text can stand between the brackets of a scope.
pub open spec fn is_scope(scope: Seq<char>) -> bool {
    !scope.contains('(') && !scope.contains(')') && !scope.contains(':')
}

/// What stands before the colon of a subject: a type, a scope in brackets where it
/// has one, and the breaking marker where it has that.
pub open spec fn head(kind: Seq<char>, scope: Option<Seq<char>>, bang: bool) -> Seq<char> {
    let typed = match scope {
        Some(scope) => kind.push('(') + scope.push(')'),
        None => kind,
    };
    if bang {
        typed.push('!')
    } else {
        typed
    }
}

/// Whether one word is another up to the case of its letters, the other being in
/// lower case.
pub open spec fn is_spelled(kind: Seq<char>, word: Seq<char>) -> bool {
    kind.len() == word.len() && forall|i: int|
        0 <= i < kind.len() ==> #[trigger] kind[i] == word[i] || 'A' <= kind[i] <= 'Z'
            && kind[i] as u32 + 32 == word[i] as u32
}

/// Whether no letter of a word is a capital.
pub open spec fn has_no_capitals(word: Seq<char>) -> bool {
    forall|i: int| 0 <= i < word.len() ==> !('A' <= #[trigger] word[i] <= 'Z')
}

/// A subject shaped like `type(scope)!:` gives its type in lower case and whether
/// it has the marker, whatever follows the colon.
pub proof fn a_subject_gives_its_type(
    kind: Seq<char>,
    scope: Option<Seq<char>>,
    bang: bool,
    rest: Seq<char>,
)
    requires
        is_word(kind),
        scope matches Some(scope) ==> is_scope(scope),
    ensures
        match release::subject_type(head(kind, scope, bang).push(':') + rest) {
            Some((word, marked)) => marked == bang && is_spelled(kind, word) && has_no_capitals(
                word,
            ),
            None => false,
        },
{
    let h = head(kind, scope, bang);
    let typed = head(kind, scope, false);
    let subject = h.push(':') + rest;
    lemma_head_has(kind, scope, bang, ':');
    text::lemma_position_is(subject, ':', h.len() as int);
    assert(subject.take(h.len() as int) =~= h);
    assert(typed.last() != '!') by {
        if scope is None {
            assert(typed.last() == kind[kind.len() - 1]);
        }
    }
    if bang {
        assert(h.drop_last() =~= typed);
    }
    assert(release::subject_head(subject) =~= typed);
    assert(release::all_letters(kind)) by {
        assert forall|i: int| 0 <= i < kind.len() implies release::is_letter(#[trigger] kind[i]) by {}
    }
    match scope {
        Some(s) => {
            let n = typed.len() as int;
            assert forall|i: int| 0 <= i < s.len() implies s[i] != '(' && s[i] != ')' by {
                if s[i] == '(' {
                    assert(s.contains('('));
                }
                if s[i] == ')' {
                    assert(s.contains(')'));
                }
            }
            assert forall|i: int| 0 <= i < n - 1 implies typed[i] != ')' by {
                if i > kind.len() {
                    assert(typed[i] == s[i - kind.len() - 1]);
                } else if i < kind.len() {
                    assert(typed[i] == kind[i]);
                }
            }
            text::lemma_position_is(typed, '(', kind.len() as int);
            text::lemma_position_is(typed, ')', n - 1);
            let after = typed.skip(kind.len() as int + 1);
            assert forall|i: int| 0 <= i < after.len() implies after[i] != '(' by {
                if i < s.len() {
                    assert(after[i] == s[i]);
                }
            }
            text::lemma_position_is(after, '(', after.len() as int);
            assert(typed.take(kind.len() as int) =~= kind);
        },
        None => {
            text::lemma_position_is(typed, '(', typed.len() as int);
        },
    }
    assert(release::subject_type(subject) == Some((text::lowered_ascii(kind), bang)));
    assert forall|i: int| 0 <= i < kind.len() implies #[trigger] kind[i] == text::lowered_ascii(
        kind,
    )[i] || 'A' <= kind[i] <= 'Z' && kind[i] as u32 + 32 == text::lowered_ascii(kind)[i] as u32 by {
        text_laws::lower_case_changes_capitals_only(kind, i);
    }
    let word = text::lowered_ascii(kind);
    assert forall|i: int| 0 <= i < word.len() implies !('A' <= #[trigger] word[i] <= 'Z') by {
        text_laws::lower_case_changes_capitals_only(kind, i);
    }
}

proof fn lemma_head_has(kind: Seq<char>, scope: Option<Seq<char>>, bang: bool, c: char)
    requires
        is_word(kind),
        scope matches Some(scope) ==> !scope.contains(c),
        c == ':' || c == '\n',
    ensures
        !head(kind, scope, bang).contains(c),
        forall|i: int| 0 <= i < head(kind, scope, bang).len() ==> head(kind, scope, bang)[i] != c,
{
    let h = head(kind, scope, bang);
    assert forall|i: int| 0 <= i < h.len() implies h[i] != c by {
        if i < kind.len() {
            assert(h[i] == kind[i]);
        } else if let Some(s) = scope {
            if kind.len() < i <= kind.len() + s.len() {
                assert(h[i] == s[i - kind.len() - 1]);
                if h[i] == c {
                    assert(s.contains(c));
                }
            }
        }
    }
}

/// Whether a subject is shaped like `type(scope)!:`.
pub open spec fn is_conventional(
    subject: Seq<char>,
    kind: Seq<char>,
    scope: Option<Seq<char>>,
    bang: bool,
    rest: Seq<char>,
) -> bool {
    &&& is_word(kind)
    &&& scope matches Some(scope) ==> is_scope(scope)
    &&& subject == head(kind, scope, bang).push(':') + rest
}

/// What gives a type is shaped like `type(scope)!:`, and nothing else is.
pub proof fn only_such_a_subject_gives_a_type(subject: Seq<char>)
    ensures
        release::subject_type(subject) is Some <==> exists|
            kind: Seq<char>,
            scope: Option<Seq<char>>,
            bang: bool,
            rest: Seq<char>,
        | #[trigger]
            is_conventional(subject, kind, scope, bang, rest),
{
    if release::subject_type(subject) is Some {
        let colon = text::position(subject, ':') as int;
        text::lemma_position(subject, ':');
        let bang = release::is_marked(subject);
        let typed = release::subject_head(subject);
        let whole = subject.take(colon);
        let rest = subject.skip(colon + 1);
        let open = text::position(typed, '(') as int;
        text::lemma_position(typed, '(');
        let kind = release::before_scope(typed)->0;
        assert forall|i: int| 0 <= i < typed.len() implies typed[i] != ':' by {
            assert(typed[i] == subject[i]);
        }
        assert(is_word(kind)) by {
            assert forall|i: int| 0 <= i < kind.len() implies 'a' <= #[trigger] kind[i] <= 'z' || 'A'
                <= kind[i] <= 'Z' by {
                assert(release::is_letter(kind[i]));
            }
        }
        let scope = if open >= typed.len() {
            None
        } else {
            Some(typed.subrange(open + 1, typed.len() - 1))
        };
        if let Some(s) = scope {
            let after = typed.skip(open + 1);
            text::lemma_position(typed, ')');
            text::lemma_position(after, '(');
            assert forall|i: int| 0 <= i < s.len() implies s[i] != '(' && s[i] != ')' && s[i] != ':' by {
                assert(s[i] == typed[open + 1 + i]);
                assert(s[i] == after[i]);
            }
            assert(kind =~= typed.take(open));
            assert(typed =~= kind.push('(') + s.push(')'));
        } else {
            assert(kind == typed);
        }
        assert(head(kind, scope, false) == typed);
        if bang {
            assert(whole =~= typed.push('!'));
        }
        assert(head(kind, scope, bang) =~= whole);
        assert(subject =~= whole.push(':') + rest);
        assert(is_conventional(subject, kind, scope, bang, rest));
    }
    if exists|kind: Seq<char>, scope: Option<Seq<char>>, bang: bool, rest: Seq<char>| #[trigger]
        is_conventional(subject, kind, scope, bang, rest) {
        let (kind, scope, bang, rest) = choose|
            kind: Seq<char>,
            scope: Option<Seq<char>>,
            bang: bool,
            rest: Seq<char>,
        | #[trigger]
            is_conventional(subject, kind, scope, bang, rest);
        a_subject_gives_its_type(kind, scope, bang, rest);
    }
}

// ---------------------------------------------------------------------------
// Commits
// ---------------------------------------------------------------------------

/// What a commit asks for goes by its type, its marker and its footers, with
/// whatever whitespace around it: a breaking change is major whatever the type,
/// `feat` is minor, `fix` is a patch, and any other type is nothing.
pub proof fn a_commit_asks_by_its_type(
    before: Seq<char>,
    kind: Seq<char>,
    scope: Option<Seq<char>>,
    bang: bool,
    rest: Seq<char>,
    after: Seq<char>,
)
    requires
        text_laws::is_blank(before),
        text_laws::is_blank(after),
        is_word(kind),
        scope matches Some(scope) ==> is_scope(scope) && !scope.contains('\n'),
        rest.len() > 0 ==> !text::is_space(rest.last()),
    ensures
        ({
            let core = head(kind, scope, bang).push(':') + rest;
            release::asked_by(before + core + after) == if bang || declares_breaking(core) {
                Bump::Major
            } else if is_spelled(kind, "feat"@) {
                Bump::Minor
            } else if is_spelled(kind, "fix"@) {
                Bump::Patch
            } else {
                Bump::Nothing
            }
        }),
{
    let h = head(kind, scope, bang);
    let core = h.push(':') + rest;
    assert(core.first() == kind[0]);
    assert(!text::is_space(kind[0]));
    assert(!text::is_space(':'));
    assert(core.last() == if rest.len() > 0 {
        rest.last()
    } else {
        ':'
    });
    text_laws::trimming_takes_off_both_ends(before, core, after);
    // The subject is the first line.
    let at = text::position(core, '\n') as int;
    text::lemma_position(core, '\n');
    lemma_head_has(kind, scope, bang, '\n');
    assert(at > h.len()) by {
        if at <= h.len() {
            if at < h.len() {
                assert(core[at] == h[at]);
            }
        }
    }
    let subject = release::subject_of(core);
    let n = subject.len() as int;
    assert(n > h.len() && subject =~= core.take(n)) by {
        if at < core.len() {
            let line = core.take(at);
            assert(text::line_list(core)[0] == text::without_return(line));
            if at == h.len() + 1 {
                assert(line.last() == ':');
            }
        } else {
            assert(text::line_list(core)[0] == core);
        }
    }
    let tail = subject.skip(h.len() as int + 1);
    assert(subject =~= h.push(':') + tail);
    a_subject_gives_its_type(kind, scope, bang, tail);
    a_footer_starts_its_own_line(core);
    let word = (release::subject_type(subject)->0).0;
    reveal_strlit("feat");
    reveal_strlit("fix");
    assert((word == "feat"@) == is_spelled(kind, "feat"@)) by {
        lemma_spelled(kind, word, "feat"@);
    }
    assert((word == "fix"@) == is_spelled(kind, "fix"@)) by {
        lemma_spelled(kind, word, "fix"@);
    }
}

proof fn lemma_same_character(a: char, b: char)
    requires
        a as u32 == b as u32,
    ensures
        a == b,
{
}

/// A word is spelled like one word in lower case and no other.
proof fn lemma_spelled(kind: Seq<char>, a: Seq<char>, b: Seq<char>)
    requires
        is_spelled(kind, a),
        has_no_capitals(a),
        forall|i: int| 0 <= i < b.len() ==> 'a' <= #[trigger] b[i] <= 'z',
    ensures
        (a == b) == is_spelled(kind, b),
{
    if is_spelled(kind, b) {
        assert forall|i: int| 0 <= i < a.len() implies a[i] == b[i] by {
            assert(kind[i] == b[i] || 'A' <= kind[i] <= 'Z');
            assert(kind[i] == a[i] || 'A' <= kind[i] <= 'Z');
            assert(!('A' <= a[i] <= 'Z'));
            assert('a' <= b[i] <= 'z');
            if 'A' <= kind[i] <= 'Z' {
                assert(kind[i] != a[i] && kind[i] != b[i]);
                assert(kind[i] as u32 + 32 == a[i] as u32);
                assert(kind[i] as u32 + 32 == b[i] as u32);
            }
            lemma_same_character(a[i], b[i]);
        }
        assert(a =~= b);
    }
}

/// A commit with a breaking footer under its text, however long that is, asks for a
/// major version.
pub proof fn a_commit_with_a_footer_is_major(
    kind: Seq<char>,
    scope: Option<Seq<char>>,
    bang: bool,
    body: Seq<char>,
    footer: Seq<char>,
)
    requires
        is_word(kind),
        scope matches Some(scope) ==> is_scope(scope) && !scope.contains('\n'),
        text_laws::stands_at(footer, "BREAKING CHANGE:"@, 0) || text_laws::stands_at(
            footer,
            "BREAKING-CHANGE:"@,
            0,
        ),
        !text::is_space(footer.last()),
    ensures
        release::asked_by(head(kind, scope, bang).push(':') + body.push('\n') + footer)
            == Bump::Major,
{
    let h = head(kind, scope, bang);
    let rest = body.push('\n') + footer;
    let core = h.push(':') + rest;
    reveal_strlit("BREAKING CHANGE:");
    reveal_strlit("BREAKING-CHANGE:");
    assert(rest.last() == footer.last());
    a_commit_asks_by_its_type(Seq::empty(), kind, scope, bang, rest, Seq::empty());
    assert(Seq::<char>::empty() + core + Seq::<char>::empty() =~= core);
    assert(core =~= h.push(':') + body.push('\n') + footer);
    a_footer_is_seen_below_any_text(h.push(':') + body, footer);
    assert(core =~= (h.push(':') + body).push('\n') + footer);
    a_footer_starts_its_own_line(core);
}

/// A commit that asks for anything begins with a subject shaped like
/// `type(scope)!:`.
pub proof fn prose_asks_for_nothing(message: Seq<char>)
    requires
        release::asked_by(message) != Bump::Nothing,
    ensures
        exists|kind: Seq<char>, scope: Option<Seq<char>>, bang: bool, rest: Seq<char>| #[trigger]
            is_conventional(text::trimmed(message), kind, scope, bang, rest),
{
    let core = text::trimmed(message);
    let subject = release::subject_of(core);
    only_such_a_subject_gives_a_type(subject);
    let (kind, scope, bang, rest) = choose|
        kind: Seq<char>,
        scope: Option<Seq<char>>,
        bang: bool,
        rest: Seq<char>,
    | #[trigger]
        is_conventional(subject, kind, scope, bang, rest);
    let at = text::position(core, '\n') as int;
    text::lemma_position(core, '\n');
    let n = subject.len() as int;
    if core.len() > 0 && at < core.len() {
        assert(text::line_list(core)[0] == text::without_return(core.take(at)));
    }
    assert(subject =~= core.take(n));
    let more = rest + core.skip(n);
    assert(core =~= subject + core.skip(n));
    assert(core =~= head(kind, scope, bang).push(':') + more);
    assert(is_conventional(core, kind, scope, bang, more));
}

/// Whether some commit of a range asks for a bump.
pub open spec fn is_asked_for(messages: Seq<Seq<char>>, bump: Bump) -> bool {
    exists|i: int| 0 <= i < messages.len() && release::asked_by(#[trigger] messages[i]) == bump
}

/// A range asks for a major version exactly where a commit in it does, else for a
/// minor one exactly where a commit in it does, else for a patch likewise, and
/// else for nothing. The order they come in plays no part.
pub proof fn a_range_asks_for_the_most(messages: Seq<Seq<char>>)
    ensures
        release::asked_by_all(messages) == if is_asked_for(messages, Bump::Major) {
            Bump::Major
        } else if is_asked_for(messages, Bump::Minor) {
            Bump::Minor
        } else if is_asked_for(messages, Bump::Patch) {
            Bump::Patch
        } else {
            Bump::Nothing
        },
    decreases messages.len(),
{
    if messages.len() > 0 {
        let before = messages.drop_last();
        a_range_asks_for_the_most(before);
        lemma_asked_for(messages, Bump::Major);
        lemma_asked_for(messages, Bump::Minor);
        lemma_asked_for(messages, Bump::Patch);
    }
}

proof fn lemma_asked_for(messages: Seq<Seq<char>>, bump: Bump)
    requires
        messages.len() > 0,
    ensures
        is_asked_for(messages, bump) == (release::asked_by(messages.last()) == bump
            || is_asked_for(messages.drop_last(), bump)),
{
    let before = messages.drop_last();
    if release::asked_by(messages.last()) == bump {
        assert(release::asked_by(messages[messages.len() - 1]) == bump);
    }
    if is_asked_for(before, bump) {
        let i = choose|i: int|
            0 <= i < before.len() && release::asked_by(#[trigger] before[i]) == bump;
        assert(messages[i] == before[i]);
    }
    if is_asked_for(messages, bump) {
        let i = choose|i: int|
            0 <= i < messages.len() && release::asked_by(#[trigger] messages[i]) == bump;
        if i < before.len() {
            assert(before[i] == messages[i]);
        }
    }
}

/// Commit messages come back from a log of them: those that are more than
/// whitespace, in their order, whatever lines they have.
pub proof fn messages_come_back_from_a_log(messages: Seq<Seq<char>>)
    requires
        messages.len() > 0,
        forall|i: int| 0 <= i < messages.len() ==> !(#[trigger] messages[i]).contains('\0'),
    ensures
        release::worded(text::pieces(text::joined(messages, seq!['\0']), '\0')) == messages.filter(
            |m: Seq<char>| !text_laws::is_blank(m),
        ),
        (forall|i: int| 0 <= i < messages.len() ==> !text_laws::is_blank(#[trigger] messages[i]))
            ==> release::worded(text::pieces(text::joined(messages, seq!['\0']), '\0'))
            == messages,
{
    text_laws::pieces_come_back(messages, '\0');
    lemma_worded(messages);
}

proof fn lemma_worded(messages: Seq<Seq<char>>)
    ensures
        release::worded(messages) == messages.filter(|m: Seq<char>| !text_laws::is_blank(m)),
        (forall|i: int| 0 <= i < messages.len() ==> !text_laws::is_blank(#[trigger] messages[i]))
            ==> release::worded(messages) == messages,
    decreases messages.len(),
{
    reveal(Seq::filter);
    if messages.len() > 0 {
        let before = messages.drop_last();
        lemma_worded(before);
        let last = messages.last();
        assert((text::trimmed(last).len() > 0) == !text_laws::is_blank(last)) by {
            let cut = text_laws::all_text_can_be_trimmed(last);
            if text_laws::is_blank(last) {
                text_laws::trimming_takes_off_both_ends(last, Seq::empty(), Seq::empty());
                assert(last + Seq::<char>::empty() + Seq::<char>::empty() =~= last);
            } else if text::trimmed(last).len() == 0 {
                assert(last =~= cut.0 + cut.1);
                assert forall|i: int| 0 <= i < last.len() implies text::is_space(
                    #[trigger] last[i],
                ) by {
                    if i < cut.0.len() {
                        assert(last[i] == cut.0[i]);
                    } else {
                        assert(last[i] == cut.1[i - cut.0.len()]);
                    }
                }
            }
        }
        if forall|i: int| 0 <= i < messages.len() ==> !text_laws::is_blank(#[trigger] messages[i]) {
            assert forall|i: int| 0 <= i < before.len() implies !text_laws::is_blank(
                #[trigger] before[i],
            ) by {
                assert(before[i] == messages[i]);
            }
            assert(!text_laws::is_blank(messages[messages.len() - 1]));
            assert(before.push(last) =~= messages);
        }
    } else {
        assert(messages =~= Seq::<Seq<char>>::empty());
    }
}

// ---------------------------------------------------------------------------
// Versions
// ---------------------------------------------------------------------------

/// A tag is a version exactly where it is three numbers with dots between them.
pub proof fn a_version_is_three_numbers(x: Seq<char>, y: Seq<char>, z: Seq<char>)
    requires
        !x.contains('.'),
        !y.contains('.'),
        !z.contains('.'),
    ensures
        release::version_of(x.push('.') + y.push('.') + z) == match (
            text::parsed_number(x),
            text::parsed_number(y),
            text::parsed_number(z),
        ) {
            (Some(a), Some(b), Some(c)) => Some((a, b, c)),
            _ => None,
        },
        release::version_of(x) is None,
        release::version_of(x.push('.') + y) is None,
{
    let tag = x.push('.') + y.push('.') + z;
    assert(tag =~= x.push('.') + (y.push('.') + z));
    text::lemma_first_piece(x, '.', y.push('.') + z);
    text::lemma_first_piece(y, '.', z);
    text::lemma_first_piece(z, '.', Seq::empty());
    text::lemma_first_piece(x, '.', y);
    assert(text::pieces(tag, '.') =~= seq![x, y, z]);
}

/// A fourth part makes a tag no version, whatever it is.
pub proof fn a_version_has_no_fourth_part(
    x: Seq<char>,
    y: Seq<char>,
    z: Seq<char>,
    more: Seq<char>,
)
    requires
        !x.contains('.'),
        !y.contains('.'),
        !z.contains('.'),
    ensures
        release::version_of(x.push('.') + y.push('.') + z.push('.') + more) is None,
{
    let tag = x.push('.') + y.push('.') + z.push('.') + more;
    assert(tag =~= x.push('.') + (y.push('.') + (z.push('.') + more)));
    text::lemma_first_piece(x, '.', y.push('.') + (z.push('.') + more));
    text::lemma_first_piece(y, '.', z.push('.') + more);
    text::lemma_first_piece(z, '.', more);
    assert(text::pieces(more, '.').len() >= 1) by {
        text::lemma_position(more, '.');
    }
}

/// A major release counts the first number up and starts the others at zero, a
/// minor one counts the second up and starts the third at zero, and a patch
/// counts the third up; a first release counts up from nothing, and with nothing
/// to release there is no tag.
pub proof fn a_release_counts_up_one_number(tag: Seq<char>, a: u64, b: u64, c: u64)
    requires
        release::version_of(tag) == Some((a, b, c)),
        a < u64::MAX,
        b < u64::MAX,
        c < u64::MAX,
    ensures
        release::next_tag(Some(tag), Bump::Nothing) == Ok::<Option<Seq<char>>, Seq<char>>(None),
        release::next_tag(None, Bump::Nothing) == Ok::<Option<Seq<char>>, Seq<char>>(None),
        release::next_tag(Some(tag), Bump::Major) matches Ok(Some(next)) && release::version_of(next)
            == Some(((a + 1) as u64, 0u64, 0u64)),
        release::next_tag(Some(tag), Bump::Minor) matches Ok(Some(next)) && release::version_of(next)
            == Some((a, (b + 1) as u64, 0u64)),
        release::next_tag(Some(tag), Bump::Patch) matches Ok(Some(next)) && release::version_of(next)
            == Some((a, b, (c + 1) as u64)),
        release::next_tag(None, Bump::Major) matches Ok(Some(next)) && release::version_of(next)
            == Some((1u64, 0u64, 0u64)),
        release::next_tag(None, Bump::Minor) matches Ok(Some(next)) && release::version_of(next)
            == Some((0u64, 1u64, 0u64)),
        release::next_tag(None, Bump::Patch) matches Ok(Some(next)) && release::version_of(next)
            == Some((0u64, 0u64, 1u64)),
{
    release::a_written_version_reads_back((a + 1) as u64, 0, 0);
    release::a_written_version_reads_back(a, (b + 1) as u64, 0);
    release::a_written_version_reads_back(a, b, (c + 1) as u64);
    release::a_written_version_reads_back(1, 0, 0);
    release::a_written_version_reads_back(0, 1, 0);
    release::a_written_version_reads_back(0, 0, 1);
}

/// A tag that is no version is an error rather than a guess, whatever there is to
/// release.
pub proof fn an_unreadable_tag_is_an_error(tag: Seq<char>, bump: Bump)
    requires
        release::version_of(tag) is None,
        bump != Bump::Nothing,
    ensures
        release::next_tag(Some(tag), bump) is Err,
{
}

/// The latest tag is the first line that is a version once it is trimmed: none
/// before it is one, and there is none only where no line is.
pub proof fn the_latest_tag_is_the_first_version(lines: Seq<Seq<char>>)
    ensures
        match release::first_version(lines) {
            Some(tag) => release::version_of(tag) is Some && exists|i: int|
                0 <= i < lines.len() && #[trigger] text::trimmed(lines[i]) == tag && forall|j: int|
                    0 <= j < i ==> release::version_of(text::trimmed(#[trigger] lines[j])) is None,
            None => forall|j: int|
                0 <= j < lines.len() ==> release::version_of(text::trimmed(#[trigger] lines[j])) is None,
        },
    decreases lines.len(),
{
    if lines.len() > 0 {
        let rest = lines.drop_first();
        the_latest_tag_is_the_first_version(rest);
        if release::version_of(text::trimmed(lines.first())) is Some {
            assert(text::trimmed(lines[0]) == release::first_version(lines)->0);
        } else {
            match release::first_version(rest) {
                Some(tag) => {
                    let i = choose|i: int|
                        0 <= i < rest.len() && #[trigger] text::trimmed(rest[i]) == tag && forall|
                            j: int,
                        |
                            0 <= j < i ==> release::version_of(text::trimmed(#[trigger] rest[j])) is None;
                    assert(text::trimmed(lines[i + 1]) == tag);
                    assert forall|j: int| 0 <= j < i + 1 implies release::version_of(
                        text::trimmed(#[trigger] lines[j]),
                    ) is None by {
                        if j > 0 {
                            assert(lines[j] == rest[j - 1]);
                        }
                    }
                },
                None => {
                    assert forall|j: int| 0 <= j < lines.len() implies release::version_of(
                        text::trimmed(#[trigger] lines[j]),
                    ) is None by {
                        if j > 0 {
                            assert(lines[j] == rest[j - 1]);
                        }
                    }
                },
            }
        }
    }
}

/// Git is asked for every message since the latest tag, and for all of them where
/// there is none.
pub proof fn the_log_runs_from_the_latest_tag(tag: Seq<char>)
    ensures
        release::log_arguments(Some(tag)) == seq!["log"@, "-z"@, "--format=%B"@, tag + "..HEAD"@],
        release::log_arguments(None) == seq!["log"@, "-z"@, "--format=%B"@],
{
    assert(release::log_arguments(Some(tag)) =~= seq![
        "log"@,
        "-z"@,
        "--format=%B"@,
        tag + "..HEAD"@,
    ]);
}

} // verus!
