//! Tests of the CP437 glyph table.

use conapp::codepage437::{from_glyph, string_to_glyph, to_glyph};
use conapp::Glyph;

#[test]
fn test_hello() {
    let test: Vec<Glyph> = vec![72, 101, 108, 108, 111];
    let convert = string_to_glyph("Hello");
    assert_eq!(test, convert);
}

#[test]
fn test_fancy() {
    let test: Vec<Glyph> = vec![171, 165, 176, 206, 234, 247];
    let convert = string_to_glyph("½Ñ░╬Ω≈");
    assert_eq!(test, convert);
}

#[test]
fn test_first_group() {
    let test: Vec<Glyph> = vec![1, 2, 3, 4, 5, 6, 7, 8, 9, 10, 11, 12, 13, 14, 15];
    let convert = string_to_glyph("☺☻♥♦♣♠•◘○◙♂♀♪♫☼");
    assert_eq!(test, convert);
}

#[test]
fn glyph_round_trip_table() {
    for g in 1u32..=254u32 {
        let ch = from_glyph(g);
        assert_eq!(to_glyph(ch), g, "glyph {} maps to {:?} and back", g, ch);
    }
}

#[test]
fn glyph_blank_and_ascii() {
    assert_eq!(from_glyph(0), ' ');
    assert_eq!(to_glyph(' '), 32);
    assert_eq!(to_glyph('A'), 65);
    assert_eq!(from_glyph(65), 'A');
    assert_eq!(to_glyph('é'), 130);
    assert_eq!(from_glyph(0x2500), '─');
    assert_eq!(from_glyph(0xD800), ' ');
}
