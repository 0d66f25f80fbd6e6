//! What holds of plain text, stated on its characters.
use crate::text;
use vstd::prelude::*;

verus! {

/// Whether `word` stands in `s` at `at`.
pub open spec fn stands_at(s: Seq<char>, word: Seq<char>, at: int) -> bool {
    0 <= at && at + word.len() <= s.len() && s.subrange(at, at + word.len()) == word
}

/// Whether a line of `s` starts at `at`: the first of them at its very start, and
/// any other behind a newline.
pub open spec fn starts_a_line(s: Seq<char>, at: int) -> bool {
    at == 0 || 0 < at <= s.len() && s[at - 1] == '\n'
}

/// Whether text is nothing but whitespace.
pub open spec fn is_blank(s: Seq<char>) -> bool {
    forall|i: int| 0 <= i < s.len() ==> text::is_space(#[trigger] s[i])
}

// ---------------------------------------------------------------------------
// Lines and pieces
// ---------------------------------------------------------------------------

/// Text is cut into lines at its newlines and nowhere else: what stands before the
/// first one is the first line, without the carriage return it may end in, and
/// the lines of the rest follow. Text with no newline is one line as it stands,
/// and no text is no line.
pub proof fn a_line_ends_at_its_newline(line: Seq<char>, rest: Seq<char>)
    requires
        !line.contains('\n'),
    ensures
        text::line_list(line.push('\n') + rest).len() == 1 + text::line_list(rest).len(),
        text::line_list(line.push('\n') + rest).drop_first() == text::line_list(rest),
        line.len() > 0 && line.last() == '\r' ==> text::line_list(line.push('\n') + rest)[0]
            == line.drop_last(),
        !(line.len() > 0 && line.last() == '\r') ==> text::line_list(line.push('\n') + rest)[0]
            == line,
        line.len() > 0 ==> text::line_list(line) == seq![line],
        text::line_list(Seq::empty()) == Seq::<Seq<char>>::empty(),
{
    let all = line.push('\n') + rest;
    assert forall|i: int| 0 <= i < line.len() implies line[i] != '\n' by {
        if line[i] == '\n' {
            assert(line.contains('\n'));
        }
    }
    text::lemma_position_is(all, '\n', line.len() as int);
    text::lemma_position_is(line, '\n', line.len() as int);
    assert(all.take(line.len() as int) =~= line);
    assert(all.skip(line.len() as int + 1) =~= rest);
    assert(text::line_list(all).drop_first() =~= text::line_list(rest));
}

/// Every line stands in the text where a line starts, and ends before a newline,
/// with or without a carriage return, or with the text.
pub proof fn every_line_stands_in_the_text(s: Seq<char>, i: int)
    requires
        0 <= i < text::line_list(s).len(),
    ensures
        exists|at: int| #[trigger]
            starts_a_line(s, at) && is_line_at(s, at, text::line_list(s)[i]),
    decreases s.len(),
{
    let at = text::position(s, '\n') as int;
    text::lemma_position(s, '\n');
    let lines = text::line_list(s);
    if at >= s.len() {
        assert(s.subrange(0, s.len() as int) =~= s);
        assert(starts_a_line(s, 0) && is_line_at(s, 0, lines[i]));
    } else {
        let rest = s.skip(at + 1);
        if i == 0 {
            let line = text::without_return(s.take(at));
            assert(s.subrange(0, line.len() as int) =~= line);
            assert(starts_a_line(s, 0) && is_line_at(s, 0, lines[0]));
        } else {
            assert(lines[i] == text::line_list(rest)[i - 1]);
            every_line_stands_in_the_text(rest, i - 1);
            let k = choose|k: int| #[trigger]
                starts_a_line(rest, k) && is_line_at(rest, k, text::line_list(rest)[i - 1]);
            let line = lines[i];
            assert(s.subrange(at + 1 + k, at + 1 + k + line.len()) =~= rest.subrange(
                k,
                k + line.len(),
            ));
            assert(starts_a_line(s, at + 1 + k)) by {
                if k > 0 {
                    assert(rest[k - 1] == s[at + k]);
                }
            }
            assert(is_line_at(s, at + 1 + k, line)) by {
                let e = k + line.len();
                if e < rest.len() {
                    assert(rest[e] == s[at + 1 + e]);
                }
                if e + 1 < rest.len() {
                    assert(rest[e + 1] == s[at + 2 + e]);
                }
            }
        }
    }
}

/// Whether `line` stands in `s` at `at`, up to a line ending or the end.
pub open spec fn is_line_at(s: Seq<char>, at: int, line: Seq<char>) -> bool {
    let end = at + line.len();
    &&& stands_at(s, line, at)
    &&& end == s.len() || s[end] == '\n' || end + 1 < s.len() && s[end] == '\r' && s[end + 1] == '\n'
}

/// Some line begins with a word, in which no line ends, exactly where the word
/// stands at the start of a line.
pub proof fn a_line_begins_where_it_starts(s: Seq<char>, word: Seq<char>)
    requires
        word.len() > 0,
        !word.contains('\n'),
        !word.contains('\r'),
    ensures
        (exists|i: int|
            0 <= i < text::line_list(s).len() && text::begins(
                #[trigger] text::line_list(s)[i],
                word,
            )) <==> (exists|at: int| #[trigger] starts_a_line(s, at) && stands_at(s, word, at)),
    decreases s.len(),
{
    let lines = text::line_list(s);
    let at = text::position(s, '\n') as int;
    text::lemma_position(s, '\n');
    if s.len() == 0 {
        assert forall|k: int| !stands_at(s, word, k) by {}
    } else if at >= s.len() {
        if text::begins(s, word) {
            assert(lines[0] == s);
            assert(s.subrange(0, word.len() as int) =~= s.take(word.len() as int));
            assert(starts_a_line(s, 0) && stands_at(s, word, 0));
        }
        assert forall|k: int| #[trigger] starts_a_line(s, k) && stands_at(s, word, k) implies text::begins(
            lines[0],
            word,
        ) by {
            assert(k == 0);
            assert(s.subrange(0, word.len() as int) =~= s.take(word.len() as int));
        }
    } else {
        let rest = s.skip(at + 1);
        let line = text::without_return(s.take(at));
        a_line_begins_where_it_starts(rest, word);
        assert(lines == seq![line] + text::line_list(rest));
        assert(text::begins(line, word) <==> stands_at(s, word, 0)) by {
            if stands_at(s, word, 0) {
                let n = word.len() as int;
                assert forall|i: int| 0 <= i < n implies s[i] == #[trigger] word[i] by {
                    assert(s.subrange(0, n)[i] == s[i]);
                }
                if at < n {
                    assert(word[at] == '\n');
                    assert(word.contains('\n'));
                }
                if line.len() < n {
                    assert(word[n - 1] == '\r');
                    assert(word.contains('\r'));
                }
                assert(line.take(n) =~= s.subrange(0, n));
            }
            if text::begins(line, word) {
                assert(line.take(word.len() as int) =~= s.subrange(0, word.len() as int));
            }
        }
        if exists|i: int| 0 <= i < lines.len() && text::begins(#[trigger] lines[i], word) {
            let i = choose|i: int| 0 <= i < lines.len() && text::begins(#[trigger] lines[i], word);
            if i == 0 {
                assert(starts_a_line(s, 0));
            } else {
                assert(text::line_list(rest)[i - 1] == lines[i]);
                let k = choose|k: int| #[trigger] starts_a_line(rest, k) && stands_at(rest, word, k);
                lemma_stands_in_rest(s, word, at + 1, k);
                assert(starts_a_line(s, at + 1 + k));
            }
        }
        if exists|k: int| #[trigger] starts_a_line(s, k) && stands_at(s, word, k) {
            let k = choose|k: int| #[trigger] starts_a_line(s, k) && stands_at(s, word, k);
            if k == 0 {
                assert(text::begins(lines[0], word));
            } else {
                assert(k > at);
                lemma_stands_in_rest(s, word, at + 1, k - at - 1);
                assert(starts_a_line(rest, k - at - 1)) by {
                    if k - at - 1 > 0 {
                        assert(rest[k - at - 2] == s[k - 1]);
                    }
                }
                let i = choose|i: int|
                    0 <= i < text::line_list(rest).len() && text::begins(
                        #[trigger] text::line_list(rest)[i],
                        word,
                    );
                assert(lines[i + 1] == text::line_list(rest)[i]);
            }
        }
    }
}

proof fn lemma_stands_in_rest(s: Seq<char>, word: Seq<char>, from: int, k: int)
    requires
        0 < from <= s.len(),
        k >= 0,
        s[from - 1] == '\n',
    ensures
        stands_at(s.skip(from), word, k) <==> stands_at(s, word, from + k),
        starts_a_line(s.skip(from), k) && k <= s.len() - from ==> starts_a_line(s, from + k),
{
    let rest = s.skip(from);
    if k + word.len() <= rest.len() {
        assert(rest.subrange(k, k + word.len()) =~= s.subrange(from + k, from + k + word.len()));
    }
    if k > 0 && k <= rest.len() {
        assert(rest[k - 1] == s[from + k - 1]);
    }
}

/// Text is cut into pieces at every separator: pieces that hold none of them come
/// back as they were, however many there are and whatever they say.
pub proof fn pieces_come_back(list: Seq<Seq<char>>, c: char)
    requires
        list.len() > 0,
        forall|i: int| 0 <= i < list.len() ==> !(#[trigger] list[i]).contains(c),
    ensures
        text::pieces(text::joined(list, seq![c]), c) == list,
    decreases list.len(),
{
    let sep = seq![c];
    if list.len() == 1 {
        text::lemma_first_piece(list[0], c, Seq::empty());
        assert(list =~= seq![list[0]]);
    } else {
        let tail = list.drop_first();
        assert forall|i: int| 0 <= i < tail.len() implies !(#[trigger] tail[i]).contains(c) by {
            assert(tail[i] == list[i + 1]);
        }
        pieces_come_back(tail, c);
        joining_two_lists(seq![list[0]], tail, sep);
        assert(seq![list[0]] + tail =~= list);
        assert(text::joined(seq![list[0]], sep) == list[0]);
        assert(text::joined(list, sep) =~= list[0].push(c) + text::joined(tail, sep));
        text::lemma_first_piece(list[0], c, text::joined(tail, sep));
        assert(seq![list[0]] + tail =~= list);
    }
}

/// Joining takes lists one after another: the pieces of both, with the separator
/// between them as between any other two. One piece is itself, and none is
/// nothing.
pub proof fn joining_two_lists(a: Seq<Seq<char>>, b: Seq<Seq<char>>, sep: Seq<char>)
    requires
        a.len() > 0,
        b.len() > 0,
    ensures
        text::joined(a + b, sep) == text::joined(a, sep) + sep + text::joined(b, sep),
        a.len() == 1 ==> text::joined(a, sep) == a[0],
        text::joined(Seq::empty(), sep) == Seq::<char>::empty(),
    decreases b.len(),
{
    let all = a + b;
    assert(all.drop_last() =~= a + b.drop_last());
    assert(all.last() == b.last());
    if b.len() == 1 {
        assert(b.drop_last() =~= Seq::<Seq<char>>::empty());
        assert(a + b.drop_last() =~= a);
    } else {
        joining_two_lists(a, b.drop_last(), sep);
        assert(text::joined(all, sep) =~= text::joined(a, sep) + sep + text::joined(b, sep));
    }
}

// ---------------------------------------------------------------------------
// Whitespace
// ---------------------------------------------------------------------------

/// Trimming takes off the whitespace at both ends, all of it and nothing else.
pub proof fn trimming_takes_off_both_ends(before: Seq<char>, core: Seq<char>, after: Seq<char>)
    requires
        is_blank(before),
        is_blank(after),
        core.len() > 0 ==> !text::is_space(core.first()) && !text::is_space(core.last()),
    ensures
        text::trimmed(before + core + after) == core,
{
    if core.len() == 0 {
        let all = before + core + after;
        assert(is_blank(all));
        lemma_trimmed_start_blank(all, Seq::empty());
        assert(all + Seq::<char>::empty() =~= all);
    } else {
        lemma_trimmed_start_blank(before, core + after);
        assert(before + core + after =~= before + (core + after));
        lemma_trimmed_end_blank(core, after);
    }
}

proof fn lemma_trimmed_start_blank(blank: Seq<char>, rest: Seq<char>)
    requires
        is_blank(blank),
        rest.len() > 0 ==> !text::is_space(rest.first()),
    ensures
        text::trimmed_start(blank + rest) == rest,
    decreases blank.len(),
{
    if blank.len() == 0 {
        assert(blank + rest =~= rest);
    } else {
        let fewer = blank.drop_first();
        assert forall|i: int| 0 <= i < fewer.len() implies text::is_space(#[trigger] fewer[i]) by {
            assert(fewer[i] == blank[i + 1]);
        }
        assert((blank + rest).first() == blank[0]);
        assert((blank + rest).drop_first() =~= fewer + rest);
        lemma_trimmed_start_blank(fewer, rest);
    }
}

proof fn lemma_trimmed_end_blank(rest: Seq<char>, blank: Seq<char>)
    requires
        is_blank(blank),
        rest.len() > 0 ==> !text::is_space(rest.last()),
    ensures
        text::trimmed_end(rest + blank) == rest,
    decreases blank.len(),
{
    if blank.len() == 0 {
        assert(rest + blank =~= rest);
    } else {
        let fewer = blank.drop_last();
        assert forall|i: int| 0 <= i < fewer.len() implies text::is_space(#[trigger] fewer[i]) by {
            assert(fewer[i] == blank[i]);
        }
        assert((rest + blank).last() == blank[blank.len() - 1]);
        assert((rest + blank).drop_last() =~= rest + fewer);
        lemma_trimmed_end_blank(rest, fewer);
    }
}

/// All text is whitespace, what is left of it when it is trimmed, and whitespace.
pub proof fn all_text_can_be_trimmed(s: Seq<char>) -> (cut: (Seq<char>, Seq<char>))
    ensures
        is_blank(cut.0),
        is_blank(cut.1),
        s == cut.0 + text::trimmed(s) + cut.1,
        text::trimmed(s).len() > 0 ==> !text::is_space(text::trimmed(s).first())
            && !text::is_space(text::trimmed(s).last()),
{
    let before = lemma_blank_start(s);
    let rest = text::trimmed_start(s);
    let after = lemma_blank_end(rest);
    let core = text::trimmed(s);
    assert(s =~= before + core + after);
    if core.len() > 0 {
        assert(core.first() == rest.first());
    }
    (before, after)
}

proof fn lemma_blank_start(s: Seq<char>) -> (before: Seq<char>)
    ensures
        is_blank(before),
        s == before + text::trimmed_start(s),
        text::trimmed_start(s).len() > 0 ==> !text::is_space(text::trimmed_start(s).first()),
    decreases s.len(),
{
    if s.len() > 0 && text::is_space(s.first()) {
        let more = lemma_blank_start(s.drop_first());
        let before = seq![s.first()] + more;
        assert(s =~= seq![s.first()] + s.drop_first());
        assert(seq![s.first()] + (more + text::trimmed_start(s)) =~= before + text::trimmed_start(s));
        assert(s =~= before + text::trimmed_start(s));
        before
    } else {
        assert(s =~= Seq::<char>::empty() + s);
        Seq::empty()
    }
}

proof fn lemma_blank_end(s: Seq<char>) -> (after: Seq<char>)
    ensures
        is_blank(after),
        s == text::trimmed_end(s) + after,
        text::trimmed_end(s).len() > 0 ==> !text::is_space(text::trimmed_end(s).last()),
    decreases s.len(),
{
    if s.len() > 0 && text::is_space(s.last()) {
        let more = lemma_blank_end(s.drop_last());
        let after = more.push(s.last());
        assert(s =~= s.drop_last().push(s.last()));
        assert((text::trimmed_end(s) + more).push(s.last()) =~= text::trimmed_end(s) + after);
        assert(s =~= text::trimmed_end(s) + after);
        after
    } else {
        assert(s =~= s + Seq::<char>::empty());
        Seq::empty()
    }
}

// ---------------------------------------------------------------------------
// Numbers and letters
// ---------------------------------------------------------------------------

/// A number is read digit by digit: one more digit is ten times the number and
/// that digit, and a single digit is itself. What is no digit makes it no number,
/// and neither is nothing.
pub proof fn a_digit_more_is_ten_times_the_number(s: Seq<char>, c: char)
    ensures
        '0' <= c <= '9' ==> text::parsed_number(seq![c]) == Some((c as u32 - '0' as u32) as u64),
        '0' <= c <= '9' ==> (text::parsed_number(s.push(c)) == match text::parsed_number(s) {
            Some(n) => if 10 * n + (c as u32 - '0' as u32) <= u64::MAX {
                Some((10 * n + (c as u32 - '0' as u32)) as u64)
            } else {
                None
            },
            None => text::parsed_number(s.push(c)),
        }),
        s.contains(c) && !('0' <= c <= '9') ==> text::parsed_number(s) is None,
        text::parsed_number(Seq::empty()) is None,
{
    let more = s.push(c);
    assert(more.drop_last() =~= s);
    assert(seq![c].drop_last() =~= Seq::<char>::empty());
    reveal_with_fuel(text::digits_value, 2);
    if '0' <= c <= '9' {
        assert(text::is_digit(c));
        assert(text::all_digits(seq![c]));
        if text::parsed_number(s) is Some {
            assert forall|i: int| 0 <= i < more.len() implies text::is_digit(#[trigger] more[i]) by {
                if i < s.len() {
                    assert(more[i] == s[i]);
                }
            }
        }
    } else if s.contains(c) {
        let i = s.index_of(c);
        assert(!text::is_digit(s[i]));
    }
}

/// A number is written without leading zeros, in digits that read back.
pub proof fn a_number_is_written_in_digits(n: nat)
    ensures
        text::decimal(n).len() > 0,
        forall|i: int| 0 <= i < text::decimal(n).len() ==> '0' <= #[trigger] text::decimal(n)[i] <= '9',
        n > 0 ==> text::decimal(n)[0] != '0',
        n >= 10 ==> text::decimal(n).len() == text::decimal(n / 10).len() + 1,
        n < 10 ==> text::decimal(n).len() == 1,
    decreases n,
{
    text::lemma_decimal(n);
    assert forall|i: int| 0 <= i < text::decimal(n).len() implies '0' <= #[trigger] text::decimal(
        n,
    )[i] <= '9' by {
        assert(text::is_digit(text::decimal(n)[i]));
    }
    if n >= 10 {
        a_number_is_written_in_digits(n / 10);
        text::lemma_decimal(n / 10);
        assert(text::decimal(n)[0] == text::decimal(n / 10)[0]);
    } else if n > 0 {
        assert(text::decimal(n) == seq![text::digit(n)]);
    }
}

/// Lower case changes the letters of ASCII that are upper case, and nothing else.
pub proof fn lower_case_changes_capitals_only(s: Seq<char>, i: int)
    requires
        0 <= i < s.len(),
    ensures
        text::lowered_ascii(s).len() == s.len(),
        'A' <= s[i] <= 'Z' ==> text::lowered_ascii(s)[i] as u32 == s[i] as u32 + 32,
        !('A' <= s[i] <= 'Z') ==> text::lowered_ascii(s)[i] == s[i],
{
}

/// Text of ASCII characters is put in lower case letter by letter.
pub proof fn ascii_text_is_lowered_letter_by_letter(s: Seq<char>)
    requires
        forall|i: int| 0 <= i < s.len() ==> '\0' <= #[trigger] s[i] <= '\u{7f}',
    ensures
        text::lowered(s) == text::lowered_ascii(s),
{
    assert(vstd::utf8::is_ascii_chars(s));
}

/// Space is what Unicode calls white space, by code point.
pub proof fn white_space_goes_by_code_point(c: char)
    ensures
        text::is_space(c) <==> {
            let n = c as u32;
            ||| 9 <= n <= 13
            ||| n == 32
            ||| n == 133
            ||| n == 160
            ||| n == 5760
            ||| 8192 <= n <= 8202
            ||| n == 8232
            ||| n == 8233
            ||| n == 8239
            ||| n == 8287
            ||| n == 12288
        },
{
}

} // verus!
