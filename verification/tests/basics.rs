//! Text, paths and numbers, held against the standard library.
use grove::order;
use grove::path;
use grove::rounding;
use grove::shift::shift;
use grove::text;
use std::path::{Path, PathBuf};

const PATHS: [&str; 26] = [
    "", "/", ".", "..", "a", "a/", "/a", "a/b", "a//b", "a/./b", "./a", "a/.", "/.", "//", "/./a",
    "a/..", "../a", "a/../b", "/a/b.c", "b.c", ".c", "b.", "a.b.c", "..c", "a b/c d.E", "é/ü.ñ",
];

#[test]
fn paths_read_the_way_the_standard_library_reads_them() {
    for p in PATHS {
        let std_path = Path::new(p);
        let parts: Vec<String> = std_path
            .components()
            .map(|c| c.as_os_str().to_string_lossy().into_owned())
            .collect();
        assert_eq!(path::parts_of(p), parts, "{p:?}");
        let name = std_path.file_name().map(|n| n.to_string_lossy().into_owned());
        assert_eq!(path::file_name(p), name, "{p:?}");
        let ext = std_path.extension().map(|n| n.to_string_lossy().into_owned());
        assert_eq!(path::extension_of(p), ext, "{p:?}");
        let title = name.unwrap_or_else(|| std_path.display().to_string());
        assert_eq!(path::title_of(p), title, "{p:?}");
        assert_eq!(PathBuf::from(path::join(p, "x.y")), std_path.join("x.y"), "{p:?}");
    }
    for a in PATHS {
        for b in PATHS {
            assert_eq!(path::same_path(a, b), Path::new(a) == Path::new(b), "{a:?} {b:?}");
            assert_eq!(path::starts_with(a, b), Path::new(a).starts_with(b), "{a:?} {b:?}");
            assert_eq!(order::path_before(a, b), Path::new(a) < Path::new(b), "{a:?} {b:?}");
            assert_eq!(order::text_before(a, b), a < b, "{a:?} {b:?}");
        }
    }
}

#[test]
fn whitespace_is_what_unicode_says_it_is() {
    for c in '\0'..=char::MAX {
        assert_eq!(text::is_whitespace(c), c.is_whitespace(), "{c:?}");
    }
}

const TEXTS: [&str; 16] = [
    "", " ", "a", " a ", "a\n", "\n", "\r\n", "a\r\nb\rc\n\nd", "\r", "a\r", "\u{3000}x\u{a0}",
    "a,b,,c", ",", "ÀÉ İß", "ABC xyz", "0123",
];

#[test]
fn text_is_taken_apart_the_way_the_standard_library_does_it() {
    for s in TEXTS {
        assert_eq!(text::trim(s), s.trim(), "{s:?}");
        assert_eq!(text::lines_of(s), s.lines().collect::<Vec<&str>>(), "{s:?}");
        assert_eq!(text::split(s, ','), s.split(',').collect::<Vec<&str>>(), "{s:?}");
        assert_eq!(text::to_lower_ascii(s), s.to_ascii_lowercase(), "{s:?}");
        assert_eq!(text::text_of(&text::chars_of(s)), s);
        let pieces: Vec<String> = s.split(',').map(str::to_string).collect();
        assert_eq!(text::join(&pieces, ", "), pieces.join(", "), "{s:?}");
        for t in TEXTS {
            assert_eq!(text::starts_with(s, t), s.starts_with(t), "{s:?} {t:?}");
            assert_eq!(text::same_text(s, t), s == t, "{s:?} {t:?}");
        }
    }
    assert_eq!(text::repeat('é', 3), "ééé");
}

#[test]
fn a_number_reads_back_as_it_was_written() {
    for n in [0u64, 1, 9, 10, 99, 100, 65535, 1 << 53, u64::MAX - 1, u64::MAX] {
        assert_eq!(text::decimal_text(n), n.to_string());
        assert_eq!(text::parse_number(&text::decimal_text(n)), Some(n));
    }
    for s in ["", "-1", "1 ", "0x1", "00", "٣", "18446744073709551616", "99999999999999999999999"] {
        assert_eq!(text::parse_number(s), s.parse::<u64>().ok(), "{s:?}");
    }
    // A sign is no digit.
    for s in ["+", "+1", "++1"] {
        assert_eq!(text::parse_number(s), None, "{s:?}");
    }
}

#[test]
fn moving_a_position_stops_at_both_ends() {
    for n in [0usize, 1, 7, isize::MAX as usize, usize::MAX - 1, usize::MAX] {
        for delta in [isize::MIN, isize::MIN + 1, -8, -7, -1, 0, 1, 7, isize::MAX] {
            assert_eq!(shift(n, delta), n.saturating_add_signed(delta), "{n} {delta}");
        }
    }
}

#[test]
fn whole_numbers_round_to_doubles() {
    let mut seed = 0xDEAD_BEEF_CAFE_F00Du64;
    let mut numbers = vec![0u64, 1, (1 << 53) - 1, 1 << 53, (1 << 53) + 1, (1 << 53) + 2, (1 << 53) + 3, u64::MAX];
    for _ in 0..5000 {
        seed ^= seed << 13;
        seed ^= seed >> 7;
        seed ^= seed << 17;
        numbers.push(seed);
    }
    for n in numbers {
        assert_eq!(rounding::nearest_double(u128::from(n)), (n as f64) as u128, "{n}");
    }
    assert_eq!(rounding::div_half_even(5, 2), 2);
    assert_eq!(rounding::div_half_even(7, 2), 4);
    assert_eq!(rounding::div_half_even(8, 3), 3);
}

#[test]
fn ratios_scale_the_way_doubles_do() {
    let mut seed = 0x0123_4567_89AB_CDEFu64;
    for _ in 0..20_000 {
        let mut roll = || {
            seed ^= seed << 13;
            seed ^= seed >> 7;
            seed ^= seed << 17;
            ((seed >> (seed % 31)) as u32).max(1)
        };
        let (n, a, b) = (roll(), roll(), roll());
        let expected = (f64::from(n) * (f64::from(a) / f64::from(b))).round();
        let got = rounding::scale(n, rounding::divide(a, b));
        assert_eq!(got as f64, expected, "{n} * ({a} / {b})");
    }
}
