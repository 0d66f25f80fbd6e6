//! The whole palette. Dark unless the theme setting says `light`, which flips
//! the greys the chrome uses.
use crate::line::Color;
use crate::text;
use vstd::prelude::*;

verus! {

/// Whether a theme setting asks for the light palette.
pub open spec fn asks_for_light(setting: Option<Seq<char>>) -> bool {
    match setting {
        Some(value) => text::lowered_ascii(value) == "light"@,
        None => false,
    }
}

/// Whether the theme setting, if there is one, asks for the light palette. Case
/// does not matter.
pub fn is_light(setting: &Option<String>) -> (light: bool)
    ensures
        light == asks_for_light(text::option_view(*setting)),
{
    match setting {
        Some(value) => text::same_text(text::to_lower_ascii(value.as_str()).as_str(), "light"),
        None => false,
    }
}

/// Behind the selected row.
pub open spec fn selection_color(light: bool) -> Color {
    if light {
        Color::Rgb(0xd6, 0xe4, 0xff)
    } else {
        Color::Rgb(0x09, 0x47, 0x71)
    }
}

pub fn selection_bg(light: bool) -> (color: Color)
    ensures
        color == selection_color(light),
{
    if light {
        Color::Rgb(0xd6, 0xe4, 0xff)
    } else {
        Color::Rgb(0x09, 0x47, 0x71)
    }
}

/// Text that steps back: numbers, captions, files in a listing.
pub open spec fn dim_color(light: bool) -> Color {
    if light {
        Color::Rgb(0x6a, 0x6f, 0x78)
    } else {
        Color::Rgb(0x85, 0x8b, 0x98)
    }
}

pub fn dim(light: bool) -> (color: Color)
    ensures
        color == dim_color(light),
{
    if light {
        Color::Rgb(0x6a, 0x6f, 0x78)
    } else {
        Color::Rgb(0x85, 0x8b, 0x98)
    }
}

/// Text that names things: headers, rows, folders in a listing.
pub open spec fn chrome_color(light: bool) -> Color {
    if light {
        Color::Rgb(0x33, 0x37, 0x3d)
    } else {
        Color::Rgb(0xcc, 0xcc, 0xcc)
    }
}

pub fn chrome(light: bool) -> (color: Color)
    ensures
        color == chrome_color(light),
{
    if light {
        Color::Rgb(0x33, 0x37, 0x3d)
    } else {
        Color::Rgb(0xcc, 0xcc, 0xcc)
    }
}

/// The rule between the two halves.
pub open spec fn rule_color(light: bool) -> Color {
    if light {
        Color::Rgb(0xc8, 0xcc, 0xd2)
    } else {
        Color::Rgb(0x3a, 0x3f, 0x4b)
    }
}

pub fn rule(light: bool) -> (color: Color)
    ensures
        color == rule_color(light),
{
    if light {
        Color::Rgb(0xc8, 0xcc, 0xd2)
    } else {
        Color::Rgb(0x3a, 0x3f, 0x4b)
    }
}

/// Only `light` asks for the light palette, in whatever case it is written.
pub proof fn only_light_asks_for_the_light_palette(setting: Seq<char>)
    ensures
        asks_for_light(Some(setting)) <==> text::lowered_ascii(setting) == seq![
            'l',
            'i',
            'g',
            'h',
            't',
        ],
        !asks_for_light(None),
{
    reveal_strlit("light");
    assert("light"@ =~= seq!['l', 'i', 'g', 'h', 't']);
}

/// Each palette has its own four colours.
pub proof fn each_palette_has_its_own_colors()
    ensures
        selection_color(true) == Color::Rgb(214, 228, 255),
        selection_color(false) == Color::Rgb(9, 71, 113),
        dim_color(true) == Color::Rgb(106, 111, 120),
        dim_color(false) == Color::Rgb(133, 139, 152),
        chrome_color(true) == Color::Rgb(51, 55, 61),
        chrome_color(false) == Color::Rgb(204, 204, 204),
        rule_color(true) == Color::Rgb(200, 204, 210),
        rule_color(false) == Color::Rgb(58, 63, 75),
{
}

} // verus!
