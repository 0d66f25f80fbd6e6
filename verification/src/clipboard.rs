//! Putting text on the system clipboard through the terminal, and wrapping a
//! snippet so it still says where it came from once it has been pasted.
//!
//! OSC 52 rather than a clipboard helper: the escape sequence goes to the
//! terminal, which forwards it to whoever owns the real clipboard, so this needs
//! no display, no helper binary and no temp file.
use crate::armor;
use crate::text;
use vstd::prelude::*;
use vstd::string::StringExecFns;

verus! {

/// Terminals cap how much they will accept in one OSC 52, and the failure mode
/// is silence: an oversized sequence is dropped rather than truncated. Better
/// to refuse out loud than to leave someone pasting whatever was there before.
pub const MAX_BYTES: usize = 65536;

/// Why so many bytes cannot be copied.
pub open spec fn refusal(bytes: nat) -> Seq<char> {
    "too big to copy — "@ + text::decimal(bytes / 1024) + " KB, limit "@ + text::decimal(
        MAX_BYTES as nat / 1024,
    ) + " KB"@
}

/// What puts some text on the clipboard when it is written to the terminal, or
/// why the text cannot be put there: it is refused exactly when it is larger
/// than a terminal is sure to accept.
pub open spec fn copy_sequence(s: Seq<char>) -> Result<Seq<char>, Seq<char>> {
    let bytes = vstd::utf8::encode_utf8(s);
    if bytes.len() > MAX_BYTES {
        Err(refusal(bytes.len()))
    } else {
        Ok("\u{1b}]52;c;"@ + armor::armored(bytes) + "\u{7}"@)
    }
}

/// The escape sequence that puts `text` on the system clipboard. The `c` in it
/// is the clipboard proper, as against `p`, the primary selection.
pub fn copy(content: &str) -> (out: Result<String, String>)
    ensures
        (match out {
            Ok(sequence) => Ok(sequence@),
            Err(why) => Err(why@),
        }) == copy_sequence(content@),
{
    let bytes = content.as_bytes();
    if bytes.len() > MAX_BYTES {
        return Err(
            "too big to copy — ".to_owned().concat(
                text::decimal_text((bytes.len() / 1024) as u64).as_str(),
            ).concat(" KB, limit ").concat(
                text::decimal_text((MAX_BYTES / 1024) as u64).as_str(),
            ).concat(" KB"),
        );
    }
    Ok(
        "\u{1b}]52;c;".to_owned().concat(armor::to_base64(bytes).as_str()).concat("\u{7}"),
    )
}

/// How many backticks some text ends in.
pub open spec fn trailing_ticks(s: Seq<char>) -> nat
    decreases s.len(),
{
    if s.len() > 0 && s.last() == '`' {
        trailing_ticks(s.drop_last()) + 1
    } else {
        0
    }
}

/// The longest run of backticks in some text.
pub open spec fn longest_run(s: Seq<char>) -> nat
    decreases s.len(),
{
    if s.len() == 0 {
        0
    } else if trailing_ticks(s) > longest_run(s.drop_last()) {
        trailing_ticks(s)
    } else {
        longest_run(s.drop_last())
    }
}

/// How many backticks a fence around some text takes: three, or one more than
/// the longest run inside it.
pub open spec fn fence_length(s: Seq<char>) -> nat {
    if longest_run(s) > 2 {
        longest_run(s) + 1
    } else {
        3
    }
}

/// Where a snippet came from: its path, and its lines where it has any.
pub open spec fn reference(path: Seq<char>, lines: Option<(usize, usize)>) -> Seq<char> {
    match lines {
        Some((first, last)) => if first == last {
            path + ":"@ + text::decimal(first as nat)
        } else {
            path + ":"@ + text::decimal(first as nat) + "-"@ + text::decimal(last as nat)
        },
        None => path,
    }
}

/// A snippet in a fence, under the reference to it.
pub open spec fn fenced(
    path: Seq<char>,
    lines: Option<(usize, usize)>,
    language: Seq<char>,
    content: Seq<char>,
) -> Seq<char> {
    let fence = text::run_of('`', fence_length(content));
    reference(path, lines) + "\n"@ + fence + language + "\n"@ + content + "\n"@ + fence + "\n"@
}

/// A snippet wrapped the way a chat expects it: the reference on its own line
/// above a fenced block, so that pasting it carries the file and the lines along
/// with the code.
///
/// The path is absolute on purpose: a relative path that resolves against the
/// wrong root is worse than a long one.
pub fn block(path: &str, lines: Option<(usize, usize)>, language: &str, content: &str) -> (out:
    String)
    requires
        content@.len() < usize::MAX,
    ensures
        out@ == fenced(path@, lines, language@, content@),
{
    let mut out = path.to_owned();
    if let Some((first, last)) = lines {
        out = out.concat(":").concat(text::decimal_text(first as u64).as_str());
        if first != last {
            out = out.concat("-").concat(text::decimal_text(last as u64).as_str());
        }
    }
    let fence = text::repeat('`', fence_width(content));
    out.concat("\n").concat(fence.as_str()).concat(language).concat("\n").concat(content).concat(
        "\n",
    ).concat(fence.as_str()).concat("\n")
}

/// Long enough to survive whatever backticks are inside. A markdown file full of
/// its own code blocks would otherwise close the fence early and the paste would
/// arrive in pieces.
pub fn fence_width(content: &str) -> (width: usize)
    requires
        content@.len() < usize::MAX,
    ensures
        width == fence_length(content@),
{
    let chars = text::chars_of(content);
    let mut longest: usize = 0;
    let mut run: usize = 0;
    let mut i: usize = 0;
    while i < chars.len()
        invariant
            i <= chars@.len(),
            run <= i,
            longest <= i,
            run == trailing_ticks(chars@.take(i as int)),
            longest == longest_run(chars@.take(i as int)),
        decreases chars@.len() - i,
    {
        proof {
            assert(chars@.take(i + 1).drop_last() =~= chars@.take(i as int));
            assert(chars@.take(i + 1).last() == chars@[i as int]);
        }
        run = if chars[i] == '`' {
            run + 1
        } else {
            0
        };
        if run > longest {
            longest = run;
        }
        i += 1;
    }
    assert(chars@.take(i as int) =~= chars@);
    if longest > 2 {
        longest + 1
    } else {
        3
    }
}

/// No run of backticks inside the fence is as long as the fence, so nothing
/// inside it can close it.
pub proof fn nothing_inside_closes_the_fence(s: Seq<char>, from: int, to: int)
    requires
        0 <= from <= to <= s.len(),
        forall|i: int| from <= i < to ==> s[i] == '`',
    ensures
        to - from < fence_length(s),
        fence_length(s) >= 3,
{
    lemma_run_is_counted(s.take(to), from);
    lemma_longest_grows(s, to);
}

/// A run of backticks at the end of some text is counted in full.
proof fn lemma_run_is_counted(s: Seq<char>, from: int)
    requires
        0 <= from <= s.len(),
        forall|i: int| from <= i < s.len() ==> s[i] == '`',
    ensures
        trailing_ticks(s) >= s.len() - from,
        longest_run(s) >= s.len() - from,
    decreases s.len() - from,
{
    if from < s.len() {
        lemma_run_is_counted(s.drop_last(), from);
    }
}

/// What comes after does not make the longest run shorter.
proof fn lemma_longest_grows(s: Seq<char>, to: int)
    requires
        0 <= to <= s.len(),
    ensures
        longest_run(s.take(to)) <= longest_run(s),
    decreases s.len() - to,
{
    if to < s.len() {
        lemma_longest_grows(s, to + 1);
        assert(s.take(to + 1).drop_last() =~= s.take(to));
    } else {
        assert(s.take(to) =~= s);
    }
}

/// Text is refused exactly where its bytes are more than 65536, and the refusal says
/// how many kilobytes it has and how many it may have; any other text goes out whole,
/// in base64, between the escape that names the clipboard and the bell that ends it.
pub proof fn text_is_copied_whole_or_refused(s: Seq<char>)
    ensures
        ({
            let bytes = vstd::utf8::encode_utf8(s);
            &&& bytes.len() <= 65536 ==> copy_sequence(s) == Ok::<Seq<char>, Seq<char>>(
                seq!['\u{1b}', ']', '5', '2', ';', 'c', ';'] + armor::armored(bytes) + seq![
                    '\u{7}',
                ],
            )
            &&& bytes.len() > 65536 ==> copy_sequence(s) == Err::<Seq<char>, Seq<char>>(
                "too big to copy — "@ + text::decimal(bytes.len() / 1024) + " KB, limit "@ + seq![
                    '6',
                    '4',
                ] + " KB"@,
            )
        }),
{
    reveal_strlit("\u{1b}]52;c;");
    reveal_strlit("\u{7}");
    assert("\u{1b}]52;c;"@ =~= seq!['\u{1b}', ']', '5', '2', ';', 'c', ';']);
    assert("\u{7}"@ =~= seq!['\u{7}']);
    reveal_with_fuel(text::decimal, 2);
    assert(text::decimal(64) =~= seq!['6', '4']);
}

/// A snippet comes with where it is from: its path, and its line or its lines where
/// it has them.
pub proof fn a_reference_names_the_lines(path: Seq<char>, first: usize, last: usize)
    ensures
        reference(path, None) == path,
        reference(path, Some((first, first))) == path + seq![':'] + text::decimal(first as nat),
        first != last ==> reference(path, Some((first, last))) == path + seq![':'] + text::decimal(
            first as nat,
        ) + seq!['-'] + text::decimal(last as nat),
{
    reveal_strlit(":");
    reveal_strlit("-");
    assert(":"@ =~= seq![':']);
    assert("-"@ =~= seq!['-']);
}

/// A block is the reference on a line of its own, and the text as it is between two
/// fences of as many backticks, the first with the language.
pub proof fn a_block_holds_the_text_as_it_is(
    path: Seq<char>,
    lines: Option<(usize, usize)>,
    language: Seq<char>,
    content: Seq<char>,
    fence: Seq<char>,
)
    requires
        fence.len() == fence_length(content),
        forall|i: int| 0 <= i < fence.len() ==> #[trigger] fence[i] == '`',
    ensures
        fenced(path, lines, language, content) == reference(path, lines) + seq!['\n'] + fence
            + language + seq!['\n'] + content + seq!['\n'] + fence + seq!['\n'],
{
    reveal_strlit("\n");
    assert("\n"@ =~= seq!['\n']);
    assert(text::run_of('`', fence_length(content)) =~= fence);
}

/// A fence is no longer than it has to be: it is of three backticks, or the text has
/// a run of one less.
pub proof fn a_fence_is_no_longer_than_it_has_to_be(s: Seq<char>)
    ensures
        fence_length(s) == 3 || exists|from: int| #[trigger] is_run(s, from, fence_length(s) - 1),
{
    if fence_length(s) != 3 {
        lemma_longest_run_is_there(s);
        let from = choose|from: int| #[trigger] is_run(s, from, longest_run(s) as int);
        assert(is_run(s, from, fence_length(s) - 1));
    }
}

/// Whether so many characters from `from` are backticks.
pub open spec fn is_run(s: Seq<char>, from: int, count: int) -> bool {
    0 <= from <= from + count <= s.len() && forall|i: int|
        from <= i < from + count ==> #[trigger] s[i] == '`'
}

proof fn lemma_longest_run_is_there(s: Seq<char>)
    ensures
        exists|from: int| #[trigger] is_run(s, from, longest_run(s) as int),
    decreases s.len(),
{
    let n = longest_run(s) as int;
    if s.len() == 0 {
        assert(is_run(s, 0, n));
    } else if trailing_ticks(s) > longest_run(s.drop_last()) {
        lemma_trailing_run(s);
        assert(is_run(s, s.len() - n, n));
    } else {
        lemma_longest_run_is_there(s.drop_last());
        let from = choose|from: int| #[trigger] is_run(s.drop_last(), from, n);
        assert forall|i: int| from <= i < from + n implies #[trigger] s[i] == '`' by {
            assert(s.drop_last()[i] == '`');
        }
        assert(is_run(s, from, n));
    }
}

proof fn lemma_trailing_run(s: Seq<char>)
    ensures
        trailing_ticks(s) <= s.len(),
        forall|i: int| s.len() - trailing_ticks(s) <= i < s.len() ==> #[trigger] s[i] == '`',
    decreases s.len(),
{
    if s.len() > 0 && s.last() == '`' {
        lemma_trailing_run(s.drop_last());
        assert forall|i: int| s.len() - trailing_ticks(s) <= i < s.len() implies #[trigger] s[i]
            == '`' by {
            if i < s.len() - 1 {
                assert(s.drop_last()[i] == '`');
            }
        }
    }
}

} // verus!
