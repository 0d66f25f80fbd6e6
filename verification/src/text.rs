//! Plain text: the handful of string operations everything else is built from,
//! each stated over the sequence of characters it works on.
use vstd::prelude::*;

verus! {

/// Appends one character to a string.
///
/// `String::push`: "Appends the given `char` to the end of this `String`."
pub assume_specification[ String::push ](string: &mut String, ch: char)
    ensures
        final(string)@ == old(string)@.push(ch),
;

/// What `str::to_lowercase` makes of some text: Unicode's lower case of it.
pub uninterp spec fn lowercase(s: Seq<char>) -> Seq<char>;

/// `s` in lower case.
///
/// `str::to_lowercase`: "Returns the lowercase equivalent of this string
/// slice", by Unicode's rules. What those rules make of text outside ASCII is
/// not spelled out here; of ASCII text they change the letters `A` to `Z` and
/// nothing else.
#[verifier::external_body]
pub(crate) fn to_lowercase(s: &str) -> (out: String)
    ensures
        out@ == lowercase(s@),
        vstd::utf8::is_ascii_chars(s@) ==> out@ == lowered_ascii(s@),
{
    s.to_lowercase()
}

/// `s` in lower case: letter by letter in ASCII, and by Unicode's rules otherwise.
pub open spec fn lowered(s: Seq<char>) -> Seq<char> {
    if vstd::utf8::is_ascii_chars(s) {
        lowered_ascii(s)
    } else {
        lowercase(s)
    }
}

// ---------------------------------------------------------------------------
// Models
// ---------------------------------------------------------------------------

/// The characters of a string, where there is one.
pub open spec fn option_view(s: Option<String>) -> Option<Seq<char>> {
    match s {
        Some(s) => Some(s@),
        None => None,
    }
}

/// The characters of each string in a list of strings.
pub open spec fn texts(list: Seq<String>) -> Seq<Seq<char>> {
    Seq::new(list.len(), |i: int| list[i]@)
}

/// Unicode's `White_Space` property.
pub open spec fn is_space(c: char) -> bool {
    ||| '\u{9}' <= c <= '\u{d}'
    ||| c == '\u{20}'
    ||| c == '\u{85}'
    ||| c == '\u{a0}'
    ||| c == '\u{1680}'
    ||| '\u{2000}' <= c <= '\u{200a}'
    ||| c == '\u{2028}'
    ||| c == '\u{2029}'
    ||| c == '\u{202f}'
    ||| c == '\u{205f}'
    ||| c == '\u{3000}'
}

/// `s` without its leading whitespace.
pub open spec fn trimmed_start(s: Seq<char>) -> Seq<char>
    decreases s.len(),
{
    if s.len() > 0 && is_space(s.first()) {
        trimmed_start(s.drop_first())
    } else {
        s
    }
}

/// `s` without its trailing whitespace.
pub open spec fn trimmed_end(s: Seq<char>) -> Seq<char>
    decreases s.len(),
{
    if s.len() > 0 && is_space(s.last()) {
        trimmed_end(s.drop_last())
    } else {
        s
    }
}

/// `s` without the whitespace at either end.
pub open spec fn trimmed(s: Seq<char>) -> Seq<char> {
    trimmed_end(trimmed_start(s))
}

/// Where `c` first occurs in `s`; the length of `s` when it does not.
pub open spec fn position(s: Seq<char>, c: char) -> nat
    decreases s.len(),
{
    if s.len() == 0 || s.first() == c {
        0
    } else {
        1 + position(s.drop_first(), c)
    }
}

/// The pieces of `s` between occurrences of `c`; one more than there are
/// occurrences.
pub open spec fn pieces(s: Seq<char>, c: char) -> Seq<Seq<char>>
    decreases s.len(),
{
    let at = position(s, c) as int;
    if at >= s.len() {
        seq![s]
    } else {
        seq![s.take(at)] + pieces(s.skip(at + 1), c)
    }
}

/// A line without the carriage return that belongs to its line ending.
pub open spec fn without_return(line: Seq<char>) -> Seq<char> {
    if line.len() > 0 && line.last() == '\r' {
        line.drop_last()
    } else {
        line
    }
}

/// The lines of `s`: a line ends in `\n` or `\r\n`, and the last line's ending
/// is optional.
pub open spec fn line_list(s: Seq<char>) -> Seq<Seq<char>>
    decreases s.len(),
{
    let at = position(s, '\n') as int;
    if s.len() == 0 {
        Seq::empty()
    } else if at >= s.len() {
        seq![s]
    } else {
        seq![without_return(s.take(at))] + line_list(s.skip(at + 1))
    }
}

/// The pieces of a list with `sep` between each two of them.
pub open spec fn joined(list: Seq<Seq<char>>, sep: Seq<char>) -> Seq<char>
    decreases list.len(),
{
    if list.len() == 0 {
        Seq::empty()
    } else if list.len() == 1 {
        list[0]
    } else {
        joined(list.drop_last(), sep) + sep + list.last()
    }
}

/// Whether `s` begins with `prefix`.
pub open spec fn begins(s: Seq<char>, prefix: Seq<char>) -> bool {
    prefix.len() <= s.len() && s.take(prefix.len() as int) == prefix
}

/// `c`, `n` times over.
pub open spec fn run_of(c: char, n: nat) -> Seq<char> {
    Seq::new(n, |i: int| c)
}

pub open spec fn is_digit(c: char) -> bool {
    '0' <= c <= '9'
}

/// The digit character of a number below ten.
pub open spec fn digit(n: nat) -> char {
    ('0' as u32 + n) as char
}

/// `n` in decimal, with no leading zeros.
pub open spec fn decimal(n: nat) -> Seq<char>
    decreases n,
{
    if n < 10 {
        seq![digit(n)]
    } else {
        decimal(n / 10).push(digit(n % 10))
    }
}

/// The number that a sequence of decimal digits writes.
pub open spec fn digits_value(s: Seq<char>) -> nat
    decreases s.len(),
{
    if s.len() == 0 {
        0
    } else {
        digits_value(s.drop_last()) * 10 + (s.last() as u32 - '0' as u32) as nat
    }
}

/// Whether `s` is made of decimal digits.
pub open spec fn all_digits(s: Seq<char>) -> bool {
    forall|i: int| 0 <= i < s.len() ==> is_digit(#[trigger] s[i])
}

/// The number that `s` spells: decimal digits and nothing else, at least one of
/// them, and a value that fits in 64 bits.
pub open spec fn parsed_number(s: Seq<char>) -> Option<u64> {
    if s.len() > 0 && all_digits(s) && digits_value(s) <= u64::MAX {
        Some(digits_value(s) as u64)
    } else {
        None
    }
}

/// An ASCII letter in lower case; any other character as it is.
pub open spec fn lower_ascii(c: char) -> char {
    if 'A' <= c <= 'Z' {
        (c as u32 + 32) as char
    } else {
        c
    }
}

/// `s` with its ASCII letters in lower case.
pub open spec fn lowered_ascii(s: Seq<char>) -> Seq<char> {
    Seq::new(s.len(), |i: int| lower_ascii(s[i]))
}

// ---------------------------------------------------------------------------
// Characters in, characters out
// ---------------------------------------------------------------------------

/// The characters of a string.
pub fn chars_of(s: &str) -> (out: Vec<char>)
    ensures
        out@ == s@,
{
    let mut out: Vec<char> = Vec::new();
    for c in it: s.chars()
        invariant
            it.seq() == s@,
            out@ == s@.take(it.index()),
    {
        out.push(c);
        proof {
            assert(s@.take(it.index() + 1) =~= s@.take(it.index()).push(c));
        }
    }
    assert(s@.take(s@.len() as int) =~= s@);
    out
}

/// The string made of the characters `from..to` of a list.
pub fn slice_text(chars: &Vec<char>, from: usize, to: usize) -> (out: String)
    requires
        from <= to <= chars@.len(),
    ensures
        out@ == chars@.subrange(from as int, to as int),
{
    let mut out = String::new();
    let mut i: usize = from;
    while i < to
        invariant
            from <= i <= to <= chars@.len(),
            out@ == chars@.subrange(from as int, i as int),
        decreases to - i,
    {
        out.push(chars[i]);
        i += 1;
        assert(chars@.subrange(from as int, i as int) =~= chars@.subrange(
            from as int,
            i - 1,
        ).push(chars@[i - 1]));
    }
    out
}

/// The string made of a list of characters.
pub fn text_of(chars: &Vec<char>) -> (out: String)
    ensures
        out@ == chars@,
{
    let out = slice_text(chars, 0, chars.len());
    assert(chars@.subrange(0, chars@.len() as int) =~= chars@);
    out
}

/// Whether two strings hold the same characters.
pub fn same_text(a: &str, b: &str) -> (same: bool)
    ensures
        same == (a@ == b@),
{
    let x = chars_of(a);
    let y = chars_of(b);
    same_chars(&x, &y)
}

/// Whether two lists hold the same characters.
pub fn same_chars(x: &Vec<char>, y: &Vec<char>) -> (same: bool)
    ensures
        same == (x@ == y@),
{
    if x.len() != y.len() {
        return false;
    }
    let mut i: usize = 0;
    while i < x.len()
        invariant
            i <= x@.len(),
            x@.len() == y@.len(),
            forall|k: int| 0 <= k < i ==> x@[k] == y@[k],
        decreases x@.len() - i,
    {
        if x[i] != y[i] {
            return false;
        }
        i += 1;
    }
    assert(x@ =~= y@);
    true
}

/// A string holding `c`, `n` times over.
pub fn repeat(c: char, n: usize) -> (out: String)
    ensures
        out@ == run_of(c, n as nat),
{
    let mut out = String::new();
    let mut i: usize = 0;
    while i < n
        invariant
            i <= n,
            out@ == run_of(c, i as nat),
        decreases n - i,
    {
        out.push(c);
        i += 1;
        assert(run_of(c, i as nat) =~= run_of(c, (i - 1) as nat).push(c));
    }
    out
}

// ---------------------------------------------------------------------------
// Searching and cutting
// ---------------------------------------------------------------------------

pub proof fn lemma_position(s: Seq<char>, c: char)
    ensures
        position(s, c) <= s.len(),
        position(s, c) < s.len() ==> s[position(s, c) as int] == c,
        forall|i: int| 0 <= i < position(s, c) ==> s[i] != c,
    decreases s.len(),
{
    if s.len() > 0 && s.first() != c {
        let rest = s.drop_first();
        lemma_position(rest, c);
        assert forall|i: int| 0 <= i < position(s, c) implies s[i] != c by {
            if i > 0 {
                assert(rest[i - 1] == s[i]);
            }
        }
    }
}

/// A first occurrence is where `position` says it is.
pub proof fn lemma_position_is(s: Seq<char>, c: char, at: int)
    requires
        0 <= at <= s.len(),
        forall|i: int| 0 <= i < at ==> s[i] != c,
        at < s.len() ==> s[at] == c,
    ensures
        position(s, c) == at,
    decreases s.len(),
{
    lemma_position(s, c);
    let p = position(s, c) as int;
    if p < at {
        assert(s[p] != c);
    }
    if at < p {
        assert(s[at] != c);
    }
}

/// The first index at or after `from` that holds `c`, or the length.
pub fn find_from(chars: &Vec<char>, from: usize, c: char) -> (at: usize)
    requires
        from <= chars@.len(),
    ensures
        from <= at <= chars@.len(),
        at - from == position(chars@.skip(from as int), c),
        at < chars@.len() ==> chars@[at as int] == c,
        forall|i: int| from <= i < at ==> chars@[i] != c,
{
    let mut at: usize = from;
    while at < chars.len() && chars[at] != c
        invariant
            from <= at <= chars@.len(),
            forall|i: int| from <= i < at ==> chars@[i] != c,
        decreases chars@.len() - at,
    {
        at += 1;
    }
    proof {
        let tail = chars@.skip(from as int);
        assert(forall|i: int| 0 <= i < at - from ==> tail[i] == chars@[from + i]);
        if at < chars@.len() {
            assert(tail[at - from] == chars@[at as int]);
        }
        lemma_position_is(tail, c, at - from);
    }
    at
}

/// The pieces of `s` between occurrences of `c`.
pub fn split(s: &str, c: char) -> (out: Vec<String>)
    ensures
        texts(out@) == pieces(s@, c),
{
    let chars = chars_of(s);
    let mut out: Vec<String> = Vec::new();
    let mut from: usize = 0;
    assert(chars@.skip(0) =~= chars@);
    assert(texts(out@) + pieces(chars@, c) =~= pieces(chars@, c));
    loop
        invariant
            from <= chars@.len(),
            texts(out@) + pieces(chars@.skip(from as int), c) == pieces(chars@, c),
            chars@ == s@,
        decreases chars@.len() - from,
    {
        let at = find_from(&chars, from, c);
        let ghost tail = chars@.skip(from as int);
        let ghost before = texts(out@);
        out.push(slice_text(&chars, from, at));
        proof {
            assert(texts(out@) =~= before.push(chars@.subrange(from as int, at as int)));
            assert(chars@.subrange(from as int, at as int) =~= tail.take(at - from));
        }
        if at >= chars.len() {
            proof {
                assert(tail.take(at - from) =~= tail);
                assert(before + seq![tail] =~= texts(out@));
            }
            return out;
        }
        proof {
            assert(chars@.skip(at + 1) =~= tail.skip(at - from + 1));
            assert(texts(out@) + pieces(chars@.skip(at + 1), c) =~= before + (seq![
                tail.take(at - from),
            ] + pieces(tail.skip(at - from + 1), c)));
        }
        from = at + 1;
    }
}

/// The lines of `s`.
pub fn lines_of(s: &str) -> (out: Vec<String>)
    ensures
        texts(out@) == line_list(s@),
{
    let chars = chars_of(s);
    let mut out: Vec<String> = Vec::new();
    let mut from: usize = 0;
    assert(chars@.skip(0) =~= chars@);
    assert(texts(out@) + line_list(chars@) =~= line_list(chars@));
    while from < chars.len()
        invariant
            from <= chars@.len(),
            texts(out@) + line_list(chars@.skip(from as int)) == line_list(chars@),
            chars@ == s@,
        decreases chars@.len() - from,
    {
        let at = find_from(&chars, from, '\n');
        let ghost tail = chars@.skip(from as int);
        let ghost before = texts(out@);
        if at >= chars.len() {
            out.push(slice_text(&chars, from, at));
            proof {
                assert(texts(out@) =~= before.push(chars@.subrange(from as int, at as int)));
                assert(chars@.subrange(from as int, at as int) =~= tail);
                assert(before + seq![tail] =~= texts(out@));
            }
            return out;
        }
        let end: usize = if at > from && chars[at - 1] == '\r' {
            at - 1
        } else {
            at
        };
        out.push(slice_text(&chars, from, end));
        proof {
            let line = tail.take(at - from);
            assert(line =~= chars@.subrange(from as int, at as int));
            assert(chars@.subrange(from as int, end as int) =~= without_return(line));
            assert(texts(out@) =~= before.push(without_return(line)));
            assert(chars@.skip(at + 1) =~= tail.skip(at - from + 1));
            assert(texts(out@) + line_list(chars@.skip(at + 1)) =~= before + (seq![
                without_return(line),
            ] + line_list(tail.skip(at - from + 1))));
        }
        from = at + 1;
    }
    proof {
        assert(chars@.skip(from as int) =~= Seq::<char>::empty());
        assert(texts(out@) + line_list(Seq::<char>::empty()) =~= texts(out@));
    }
    out
}

/// The strings of a list with `sep` between each two of them.
pub fn join(list: &Vec<String>, sep: &str) -> (out: String)
    ensures
        out@ == joined(texts(list@), sep@),
{
    let mut out = String::new();
    let mut i: usize = 0;
    let ghost all = texts(list@);
    while i < list.len()
        invariant
            i <= list@.len(),
            all == texts(list@),
            out@ == joined(all.take(i as int), sep@),
        decreases list@.len() - i,
    {
        if i > 0 {
            out.append(sep);
        }
        out.append(list[i].as_str());
        i += 1;
        proof {
            assert(all.take(i as int).drop_last() =~= all.take(i - 1));
            assert(all.take(i as int).last() == list@[i - 1]@);
            if i == 1 {
                assert(out@ =~= list@[0]@);
            }
        }
    }
    assert(all.take(list@.len() as int) =~= all);
    out
}

/// Whether `s` begins with `prefix`.
pub fn starts_with(s: &str, prefix: &str) -> (yes: bool)
    ensures
        yes == begins(s@, prefix@),
{
    let x = chars_of(s);
    let y = chars_of(prefix);
    if y.len() > x.len() {
        return false;
    }
    let mut i: usize = 0;
    while i < y.len()
        invariant
            i <= y@.len() <= x@.len(),
            x@ == s@,
            y@ == prefix@,
            forall|k: int| 0 <= k < i ==> x@[k] == y@[k],
        decreases y@.len() - i,
    {
        if x[i] != y[i] {
            assert(s@.take(prefix@.len() as int)[i as int] != prefix@[i as int]);
            return false;
        }
        i += 1;
    }
    assert(s@.take(prefix@.len() as int) =~= prefix@);
    true
}

// ---------------------------------------------------------------------------
// Whitespace
// ---------------------------------------------------------------------------

/// Whether Unicode counts `c` as whitespace.
pub fn is_whitespace(c: char) -> (yes: bool)
    ensures
        yes == is_space(c),
{
    ('\u{9}' <= c && c <= '\u{d}') || c == '\u{20}' || c == '\u{85}' || c == '\u{a0}' || c
        == '\u{1680}' || ('\u{2000}' <= c && c <= '\u{200a}') || c == '\u{2028}' || c == '\u{2029}'
        || c == '\u{202f}' || c == '\u{205f}' || c == '\u{3000}'
}

/// `s` without the whitespace at either end.
pub fn trim(s: &str) -> (out: String)
    ensures
        out@ == trimmed(s@),
{
    let chars = chars_of(s);
    let mut from: usize = 0;
    assert(chars@.skip(0) =~= chars@);
    while from < chars.len() && is_whitespace(chars[from])
        invariant
            from <= chars@.len(),
            trimmed_start(chars@.skip(from as int)) == trimmed_start(chars@),
        decreases chars@.len() - from,
    {
        assert(chars@.skip(from as int).drop_first() =~= chars@.skip(from + 1));
        from += 1;
    }
    let ghost rest = chars@.skip(from as int);
    let mut to: usize = chars.len();
    assert(rest =~= chars@.subrange(from as int, to as int));
    while to > from && is_whitespace(chars[to - 1])
        invariant
            from <= to <= chars@.len(),
            trimmed_end(chars@.subrange(from as int, to as int)) == trimmed_end(rest),
        decreases to,
    {
        assert(chars@.subrange(from as int, to as int).drop_last() =~= chars@.subrange(
            from as int,
            to - 1,
        ));
        to -= 1;
    }
    slice_text(&chars, from, to)
}

// ---------------------------------------------------------------------------
// Numbers
// ---------------------------------------------------------------------------

/// A number written in decimal is made of digits, and spells that number.
pub proof fn lemma_decimal(n: nat)
    ensures
        decimal(n).len() > 0,
        all_digits(decimal(n)),
        digits_value(decimal(n)) == n,
    decreases n,
{
    let last = digit(n % 10);
    assert(is_digit(last) && (last as u32 - '0' as u32) == n % 10);
    if n < 10 {
        let one = seq![digit(n)];
        assert(one.drop_last() =~= Seq::<char>::empty());
        assert(digits_value(one) == n) by {
            reveal_with_fuel(digits_value, 2);
        }
    } else {
        lemma_decimal(n / 10);
        let front = decimal(n / 10);
        assert(decimal(n).drop_last() =~= front);
        assert forall|i: int| 0 <= i < decimal(n).len() implies is_digit(
            #[trigger] decimal(n)[i],
        ) by {
            if i < front.len() {
                assert(decimal(n)[i] == front[i]);
            }
        }
    }
}

/// Reading back a number written in decimal gives that number.
pub proof fn a_written_number_reads_back(n: u64)
    ensures
        parsed_number(decimal(n as nat)) == Some(n),
{
    lemma_decimal(n as nat);
}

/// Text up to the first `c` is the first of its pieces.
pub proof fn lemma_first_piece(head: Seq<char>, c: char, tail: Seq<char>)
    requires
        !head.contains(c),
    ensures
        pieces(head.push(c) + tail, c) == seq![head] + pieces(tail, c),
        pieces(head, c) == seq![head],
{
    let all = head.push(c) + tail;
    lemma_position_is(all, c, head.len() as int);
    assert(all.take(head.len() as int) =~= head);
    assert(all.skip(head.len() as int + 1) =~= tail);
    lemma_position_is(head, c, head.len() as int);
}

/// `n` in decimal.
pub fn decimal_text(n: u64) -> (out: String)
    ensures
        out@ == decimal(n as nat),
    decreases n,
{
    let last = digit_char(n % 10);
    if n < 10 {
        let mut out = String::new();
        out.push(last);
        assert(out@ =~= decimal(n as nat));
        out
    } else {
        let mut out = decimal_text(n / 10);
        out.push(last);
        out
    }
}

/// The digit character of a number below ten.
fn digit_char(n: u64) -> (c: char)
    requires
        n < 10,
    ensures
        c == digit(n as nat),
{
    (48u8 + n as u8) as char
}

/// The number that `s` spells.
pub fn parse_number(s: &str) -> (n: Option<u64>)
    ensures
        n == parsed_number(s@),
{
    let chars = chars_of(s);
    if chars.len() == 0 {
        return None;
    }
    let mut value: u64 = 0;
    let mut over = false;
    let mut i: usize = 0;
    while i < chars.len()
        invariant
            i <= chars@.len(),
            chars@ == s@,
            forall|k: int| 0 <= k < i ==> is_digit(#[trigger] s@[k]),
            over == (digits_value(s@.take(i as int)) > u64::MAX),
            !over ==> value == digits_value(s@.take(i as int)),
        decreases chars@.len() - i,
    {
        let c = chars[i];
        if !('0' <= c && c <= '9') {
            assert(!is_digit(s@[i as int]));
            return None;
        }
        let d = c as u64 - '0' as u64;
        proof {
            let next = s@.take(i + 1);
            assert(next.drop_last() =~= s@.take(i as int));
            assert(next.last() == c);
        }
        if !over {
            match value.checked_mul(10) {
                Some(shifted) => match shifted.checked_add(d) {
                    Some(sum) => {
                        value = sum;
                    },
                    None => {
                        over = true;
                    },
                },
                None => {
                    over = true;
                },
            }
        }
        i += 1;
    }
    assert(s@.take(i as int) =~= s@);
    if over {
        None
    } else {
        Some(value)
    }
}

/// `s` with its ASCII letters in lower case.
pub fn to_lower_ascii(s: &str) -> (out: String)
    ensures
        out@ == lowered_ascii(s@),
{
    let chars = chars_of(s);
    let mut out = String::new();
    let mut i: usize = 0;
    while i < chars.len()
        invariant
            i <= chars@.len(),
            chars@ == s@,
            out@ == lowered_ascii(s@).take(i as int),
        decreases chars@.len() - i,
    {
        let c = chars[i];
        let low = if 'A' <= c && c <= 'Z' {
            (c as u8 + 32) as char
        } else {
            c
        };
        out.push(low);
        i += 1;
        assert(lowered_ascii(s@).take(i as int) =~= lowered_ascii(s@).take(i - 1).push(low));
    }
    assert(lowered_ascii(s@).take(s@.len() as int) =~= lowered_ascii(s@));
    out
}

} // verus!
