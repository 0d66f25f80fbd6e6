//! TIFF files, as far as their header and first directory tell how the samples
//! of a pixel are kept: side by side, or in a plane of their own for each.
use vstd::prelude::*;

verus! {

/// Where the samples of a pixel are kept.
pub const PLANAR_CONFIGURATION: u16 = 284;

/// How many samples a pixel has.
pub const SAMPLES_PER_PIXEL: u16 = 277;

// ---------------------------------------------------------------------------
// Numbers
// ---------------------------------------------------------------------------

/// The number that two bytes write, the lower one first where `little`.
pub open spec fn short_at(bytes: Seq<u8>, at: int, little: bool) -> nat {
    if little {
        bytes[at] as nat + 256 * bytes[at + 1] as nat
    } else {
        256 * bytes[at] as nat + bytes[at + 1] as nat
    }
}

/// The number that four bytes write.
pub open spec fn long_at(bytes: Seq<u8>, at: int, little: bool) -> nat {
    if little {
        short_at(bytes, at, little) + 65536 * short_at(bytes, at + 2, little)
    } else {
        65536 * short_at(bytes, at, little) + short_at(bytes, at + 2, little)
    }
}

/// The number that eight bytes write.
pub open spec fn long8_at(bytes: Seq<u8>, at: int, little: bool) -> nat {
    if little {
        long_at(bytes, at, little) + 4294967296 * long_at(bytes, at + 4, little)
    } else {
        4294967296 * long_at(bytes, at, little) + long_at(bytes, at + 4, little)
    }
}

fn short(bytes: &Vec<u8>, at: usize, little: bool) -> (n: u16)
    requires
        at + 2 <= bytes@.len(),
    ensures
        n == short_at(bytes@, at as int, little),
{
    let size = bytes.len();
    assert(at + 2 <= size);
    if little {
        bytes[at] as u16 + 256 * bytes[at + 1] as u16
    } else {
        256 * bytes[at] as u16 + bytes[at + 1] as u16
    }
}

fn long(bytes: &Vec<u8>, at: usize, little: bool) -> (n: u32)
    requires
        at + 4 <= bytes@.len(),
    ensures
        n == long_at(bytes@, at as int, little),
{
    let size = bytes.len();
    assert(at + 4 <= size);
    let a = short(bytes, at, little) as u32;
    let b = short(bytes, at + 2, little) as u32;
    if little {
        a + 65536 * b
    } else {
        65536 * a + b
    }
}

fn long8(bytes: &Vec<u8>, at: usize, little: bool) -> (n: u64)
    requires
        at + 8 <= bytes@.len(),
    ensures
        n == long8_at(bytes@, at as int, little),
{
    let size = bytes.len();
    assert(at + 8 <= size);
    let a = long(bytes, at, little) as u64;
    let b = long(bytes, at + 4, little) as u64;
    if little {
        a + 4294967296 * b
    } else {
        4294967296 * a + b
    }
}

// ---------------------------------------------------------------------------
// The header
// ---------------------------------------------------------------------------

/// What the header of a TIFF says.
#[derive(Clone, Copy, PartialEq, Eq, Structural, Debug)]
pub struct Header {
    /// Whether the lower bytes of a number come first.
    pub little: bool,
    /// Whether counts and offsets take eight bytes rather than four.
    pub big: bool,
    /// Where the first directory is.
    pub first: u64,
}

/// Which end of a number comes first, where the bytes begin as those of a TIFF.
pub open spec fn byte_order(bytes: Seq<u8>) -> Option<bool> {
    if bytes.len() < 8 {
        None
    } else if bytes[0] == 0x49 && bytes[1] == 0x49 {
        Some(true)
    } else if bytes[0] == 0x4d && bytes[1] == 0x4d {
        Some(false)
    } else {
        None
    }
}

/// The header of a TIFF, if the bytes have one.
pub open spec fn header_of(bytes: Seq<u8>) -> Option<Header> {
    match byte_order(bytes) {
        Some(little) => if short_at(bytes, 2, little) == 42 {
            Some(Header { little, big: false, first: long_at(bytes, 4, little) as u64 })
        } else if short_at(bytes, 2, little) == 43 && bytes.len() >= 16 && short_at(bytes, 4, little)
            == 8 && short_at(bytes, 6, little) == 0 {
            Some(Header { little, big: true, first: long8_at(bytes, 8, little) as u64 })
        } else {
            None
        },
        None => None,
    }
}

fn header(bytes: &Vec<u8>) -> (header: Option<Header>)
    ensures
        header == header_of(bytes@),
{
    if bytes.len() < 8 {
        return None;
    }
    let little = if bytes[0] == 0x49 && bytes[1] == 0x49 {
        true
    } else if bytes[0] == 0x4d && bytes[1] == 0x4d {
        false
    } else {
        return None;
    };
    let version = short(bytes, 2, little);
    if version == 42 {
        Some(Header { little, big: false, first: long(bytes, 4, little) as u64 })
    } else if version == 43 && bytes.len() >= 16 && short(bytes, 4, little) == 8 && short(
        bytes,
        6,
        little,
    ) == 0 {
        Some(Header { little, big: true, first: long8(bytes, 8, little) })
    } else {
        None
    }
}

// ---------------------------------------------------------------------------
// The first directory
// ---------------------------------------------------------------------------

/// How many bytes count the entries of a directory.
pub open spec fn count_width(h: Header) -> int {
    if h.big {
        8
    } else {
        2
    }
}

/// How many bytes an entry takes up.
pub open spec fn entry_width(h: Header) -> int {
    if h.big {
        20
    } else {
        12
    }
}

/// Whether a type of value is one that TIFF has.
pub open spec fn is_type(kind: nat) -> bool {
    1 <= kind <= 13 || 16 <= kind <= 18
}

/// The number that the entry at `at` holds: one of 8, 16, 32 or 64 bits without a
/// sign, in the entry itself where it fits there. `None` for anything else.
pub open spec fn entry_value(bytes: Seq<u8>, h: Header, at: int) -> Option<nat> {
    let kind = short_at(bytes, at + 2, h.little);
    let count = if h.big {
        long8_at(bytes, at + 4, h.little)
    } else {
        long_at(bytes, at + 4, h.little)
    };
    let field = if h.big {
        at + 12
    } else {
        at + 8
    };
    if count != 1 {
        None
    } else if kind == 1 {
        Some(bytes[field] as nat)
    } else if kind == 3 {
        Some(short_at(bytes, field, h.little))
    } else if kind == 4 {
        Some(long_at(bytes, field, h.little))
    } else if kind == 16 && h.big {
        Some(long8_at(bytes, field, h.little))
    } else if kind == 16 && long_at(bytes, field, h.little) + 8 <= bytes.len() {
        Some(long8_at(bytes, long_at(bytes, field, h.little) as int, h.little))
    } else {
        None
    }
}

/// The number under a tag in the next `left` entries from `at`: that of the last
/// entry with the tag, and `found` where none has it. Entries of a type that TIFF
/// does not have are passed over, twelve bytes for each; what does not fit in the
/// file ends the directory.
pub open spec fn value_from(
    bytes: Seq<u8>,
    h: Header,
    at: int,
    left: nat,
    tag: u16,
    found: Option<nat>,
) -> Option<nat>
    decreases left,
{
    if left == 0 || at + 12 > bytes.len() {
        found
    } else if !is_type(short_at(bytes, at + 2, h.little)) {
        value_from(bytes, h, at + 12, (left - 1) as nat, tag, found)
    } else if at + entry_width(h) > bytes.len() {
        found
    } else {
        value_from(
            bytes,
            h,
            at + entry_width(h),
            (left - 1) as nat,
            tag,
            if short_at(bytes, at, h.little) == tag {
                entry_value(bytes, h, at)
            } else {
                found
            },
        )
    }
}

/// The number under a tag in the first directory.
pub open spec fn tag_value(bytes: Seq<u8>, h: Header, tag: u16) -> Option<nat> {
    if h.first + count_width(h) > bytes.len() {
        None
    } else {
        let count = if h.big {
            long8_at(bytes, h.first as int, h.little)
        } else {
            short_at(bytes, h.first as int, h.little)
        };
        value_from(bytes, h, h.first + count_width(h), count, tag, None)
    }
}

/// Whether the bytes are a TIFF or a BigTIFF whose pixels have several samples,
/// each in a plane of its own.
pub open spec fn planes_apart(bytes: Seq<u8>) -> bool {
    match header_of(bytes) {
        Some(h) => tag_value(bytes, h, PLANAR_CONFIGURATION) == Some(2nat) && tag_value(
            bytes,
            h,
            SAMPLES_PER_PIXEL,
        ) != Some(1nat) && tag_value(bytes, h, SAMPLES_PER_PIXEL) is Some,
        None => false,
    }
}

fn value(bytes: &Vec<u8>, h: Header, at: usize) -> (n: Option<u64>)
    requires
        at + entry_width(h) <= bytes@.len(),
    ensures
        match n {
            Some(n) => entry_value(bytes@, h, at as int) == Some(n as nat),
            None => entry_value(bytes@, h, at as int) is None,
        },
{
    let size = bytes.len();
    assert(at + entry_width(h) <= size);
    let kind = short(bytes, at + 2, h.little);
    let count = if h.big {
        long8(bytes, at + 4, h.little)
    } else {
        long(bytes, at + 4, h.little) as u64
    };
    let field = if h.big {
        at + 12
    } else {
        at + 8
    };
    if count != 1 {
        None
    } else if kind == 1 {
        Some(bytes[field] as u64)
    } else if kind == 3 {
        Some(short(bytes, field, h.little) as u64)
    } else if kind == 4 {
        Some(long(bytes, field, h.little) as u64)
    } else if kind == 16 && h.big {
        Some(long8(bytes, field, h.little))
    } else if kind == 16 {
        let there = long(bytes, field, h.little) as u64;
        if there + 8 <= size as u64 {
            Some(long8(bytes, there as usize, h.little))
        } else {
            None
        }
    } else {
        None
    }
}

fn find_value(bytes: &Vec<u8>, h: Header, tag: u16) -> (n: Option<u64>)
    ensures
        match n {
            Some(n) => tag_value(bytes@, h, tag) == Some(n as nat),
            None => tag_value(bytes@, h, tag) is None,
        },
{
    let size = bytes.len();
    let head: usize = if h.big {
        8
    } else {
        2
    };
    let width: usize = if h.big {
        20
    } else {
        12
    };
    if size < head || h.first > (size - head) as u64 {
        return None;
    }
    let start = h.first as usize;
    let mut left: u64 = if h.big {
        long8(bytes, start, h.little)
    } else {
        short(bytes, start, h.little) as u64
    };
    let mut at: usize = start + head;
    let mut found: Option<u64> = None;
    let ghost mut seen: Option<nat> = None;
    while left > 0 && size - at >= 12
        invariant
            size == bytes@.len(),
            at <= size,
            width == entry_width(h),
            match found {
                Some(n) => seen == Some(n as nat),
                None => seen is None,
            },
            tag_value(bytes@, h, tag) == value_from(bytes@, h, at as int, left as nat, tag, seen),
        decreases left,
    {
        let kind = short(bytes, at + 2, h.little);
        let known = (1 <= kind && kind <= 13) || (16 <= kind && kind <= 18);
        if !known {
            at += 12;
        } else if size - at < width {
            return found;
        } else {
            if short(bytes, at, h.little) == tag {
                found = value(bytes, h, at);
                proof {
                    seen = entry_value(bytes@, h, at as int);
                }
            }
            at += width;
        }
        left -= 1;
    }
    found
}

/// Whether the bytes are a TIFF or a BigTIFF whose pixels have several samples,
/// each in a plane of its own.
pub fn has_planes_apart(bytes: &Vec<u8>) -> (yes: bool)
    ensures
        yes == planes_apart(bytes@),
{
    match header(bytes) {
        Some(h) => {
            let planar = match find_value(bytes, h, PLANAR_CONFIGURATION) {
                Some(n) => n == 2,
                None => false,
            };
            let several = match find_value(bytes, h, SAMPLES_PER_PIXEL) {
                Some(n) => n != 1,
                None => false,
            };
            planar && several
        },
        None => false,
    }
}

// ---------------------------------------------------------------------------
// What holds of every TIFF
// ---------------------------------------------------------------------------

/// A number is its bytes in the one order or the other, each worth 256 times as much
/// as the one below it.
pub proof fn a_number_is_its_bytes_in_order(bytes: Seq<u8>, at: int)
    ensures
        short_at(bytes, at, true) == bytes[at] + 256 * bytes[at + 1],
        short_at(bytes, at, false) == bytes[at + 1] + 256 * bytes[at],
        long_at(bytes, at, true) == bytes[at] + 256 * bytes[at + 1] + 65536 * bytes[at + 2]
            + 16777216 * bytes[at + 3],
        long_at(bytes, at, false) == bytes[at + 3] + 256 * bytes[at + 2] + 65536 * bytes[at + 1]
            + 16777216 * bytes[at],
        long8_at(bytes, at, true) == long_at(bytes, at, true) + 0x1_0000_0000 * long_at(
            bytes,
            at + 4,
            true,
        ),
        long8_at(bytes, at, false) == long_at(bytes, at + 4, false) + 0x1_0000_0000 * long_at(
            bytes,
            at,
            false,
        ),
{
}

/// Where the entry with a given index is, counted from the first.
pub open spec fn entry_at(h: Header, start: int, index: int) -> int {
    if h.big {
        start + 20 * index
    } else {
        start + 12 * index
    }
}

/// Whether a directory has `n` entries from `start`, all of them inside the file and of
/// types that TIFF has.
pub open spec fn is_plain_directory(bytes: Seq<u8>, h: Header, start: int, n: int) -> bool {
    &&& 0 <= start
    &&& 0 <= n
    &&& entry_at(h, start, n) <= bytes.len()
    &&& forall|k: int|
        0 <= k < n ==> {
            let kind = short_at(bytes, #[trigger] entry_at(h, start, k) + 2, h.little);
            1 <= kind <= 13 || 16 <= kind <= 18
        }
}

/// Whether the entry with a given index has the tag, and none after it does.
pub open spec fn is_last_with(
    bytes: Seq<u8>,
    h: Header,
    start: int,
    n: int,
    tag: u16,
    index: int,
) -> bool {
    &&& 0 <= index < n
    &&& short_at(bytes, entry_at(h, start, index), h.little) == tag
    &&& forall|k: int|
        index < k < n ==> short_at(bytes, #[trigger] entry_at(h, start, k), h.little) != tag
}

/// In a directory of plain entries a tag has the value of the last entry with it, and
/// none where no entry has it.
pub proof fn the_last_entry_with_a_tag_counts(
    bytes: Seq<u8>,
    h: Header,
    start: int,
    n: int,
    tag: u16,
    index: int,
)
    requires
        is_plain_directory(bytes, h, start, n),
    ensures
        is_last_with(bytes, h, start, n, tag, index) ==> value_from(
            bytes,
            h,
            start,
            n as nat,
            tag,
            None,
        ) == entry_value(bytes, h, entry_at(h, start, index)),
        (forall|k: int|
            0 <= k < n ==> short_at(bytes, #[trigger] entry_at(h, start, k), h.little) != tag)
            ==> value_from(bytes, h, start, n as nat, tag, None) is None,
{
    assert(entry_at(h, start, 0) == start);
    lemma_value_from(bytes, h, start, n, tag, index, 0, None);
}

proof fn lemma_value_from(
    bytes: Seq<u8>,
    h: Header,
    start: int,
    n: int,
    tag: u16,
    index: int,
    k: int,
    found: Option<nat>,
)
    requires
        is_plain_directory(bytes, h, start, n),
        0 <= k <= n,
    ensures
        is_last_with(bytes, h, start, n, tag, index) && k <= index ==> value_from(
            bytes,
            h,
            entry_at(h, start, k),
            (n - k) as nat,
            tag,
            found,
        ) == entry_value(bytes, h, entry_at(h, start, index)),
        (forall|j: int|
            k <= j < n ==> short_at(bytes, #[trigger] entry_at(h, start, j), h.little) != tag)
            ==> value_from(bytes, h, entry_at(h, start, k), (n - k) as nat, tag, found) == found,
    decreases n - k,
{
    if k < n {
        let at = entry_at(h, start, k);
        assert(is_type(short_at(bytes, at + 2, h.little)));
        assert(entry_at(h, start, k + 1) == at + entry_width(h));
        assert(entry_at(h, start, k + 1) <= entry_at(h, start, n));
        let next = if short_at(bytes, at, h.little) == tag {
            entry_value(bytes, h, at)
        } else {
            found
        };
        lemma_value_from(bytes, h, start, n, tag, index, k + 1, next);
    }
}

/// The samples of a TIFF stand apart exactly where its planar configuration is two, and
/// it has a number of samples for each pixel that is not one.
pub proof fn planes_are_apart_by_two_tags(bytes: Seq<u8>, h: Header)
    requires
        header_of(bytes) == Some(h),
    ensures
        planes_apart(bytes) <==> tag_value(bytes, h, 284) == Some(2nat) && match tag_value(
            bytes,
            h,
            277,
        ) {
            Some(samples) => samples != 1,
            None => false,
        },
{
}

/// The header of a TIFF is eight bytes, with the number 42 and where the first directory
/// is; that of a BigTIFF is sixteen, with the number 43, the width of an offset and
/// two zeros before it.
pub proof fn a_header_tells_where_the_first_directory_is(bytes: Seq<u8>, little: bool)
    requires
        bytes.len() >= 8,
        little ==> bytes[0] == 0x49 && bytes[1] == 0x49,
        !little ==> bytes[0] == 0x4d && bytes[1] == 0x4d,
    ensures
        short_at(bytes, 2, little) == 42 ==> header_of(bytes) == Some(
            Header { little, big: false, first: long_at(bytes, 4, little) as u64 },
        ),
        bytes.len() >= 16 && short_at(bytes, 2, little) == 43 && short_at(bytes, 4, little) == 8
            && short_at(bytes, 6, little) == 0 ==> header_of(bytes) == Some(
            Header { little, big: true, first: long8_at(bytes, 8, little) as u64 },
        ),
        short_at(bytes, 2, little) != 42 && short_at(bytes, 2, little) != 43 ==> header_of(bytes)
            is None,
        bytes.len() < 16 && short_at(bytes, 2, little) != 42 ==> header_of(bytes) is None,
{
}

/// An entry has a value where it holds one number of one, two, four or eight bytes: in
/// the entry itself, eight bytes into it or twelve in a BigTIFF, and elsewhere in the
/// file where eight bytes do not fit there.
pub proof fn an_entry_holds_one_number(bytes: Seq<u8>, h: Header, at: int)
    ensures
        ({
            let kind = short_at(bytes, at + 2, h.little);
            let field = if h.big {
                at + 12
            } else {
                at + 8
            };
            let one = if h.big {
                long8_at(bytes, at + 4, h.little) == 1
            } else {
                long_at(bytes, at + 4, h.little) == 1
            };
            let value = entry_value(bytes, h, at);
            let away = long_at(bytes, field, h.little);
            &&& !one ==> value is None
            &&& one && kind == 1 ==> value == Some(bytes[field] as nat)
            &&& one && kind == 3 ==> value == Some(short_at(bytes, field, h.little))
            &&& one && kind == 4 ==> value == Some(long_at(bytes, field, h.little))
            &&& one && kind == 16 && h.big ==> value == Some(long8_at(bytes, field, h.little))
            &&& one && kind == 16 && !h.big && away + 8 <= bytes.len() ==> value == Some(
                long8_at(bytes, away as int, h.little),
            )
            &&& one && kind == 16 && !h.big && away + 8 > bytes.len() ==> value is None
            &&& kind != 1 && kind != 3 && kind != 4 && kind != 16 ==> value is None
        }),
{
}

/// A directory begins with how many entries it has, in two bytes or in eight, and they
/// follow at once.
pub proof fn a_directory_begins_with_its_count(bytes: Seq<u8>, h: Header, tag: u16)
    ensures
        !h.big && h.first + 2 <= bytes.len() ==> tag_value(bytes, h, tag) == value_from(
            bytes,
            h,
            h.first + 2,
            short_at(bytes, h.first as int, h.little),
            tag,
            None,
        ),
        h.big && h.first + 8 <= bytes.len() ==> tag_value(bytes, h, tag) == value_from(
            bytes,
            h,
            h.first + 8,
            long8_at(bytes, h.first as int, h.little),
            tag,
            None,
        ),
{
}

} // verus!
