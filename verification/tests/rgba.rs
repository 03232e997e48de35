//! Tests of color construction and color-string parsing.

use conapp::{parse_color, parse_color_hex, parse_color_rgb, to_rgba, ColorParseErr, RGBA};

const WHITE: RGBA = RGBA(255, 255, 255, 255);
const RED: RGBA = RGBA(255, 0, 0, 255);
const GREEN: RGBA = RGBA(0, 255, 0, 255);
const BLUE: RGBA = RGBA(0, 0, 255, 255);

#[test]
fn parse_hex() {
    assert_eq!(parse_color_hex("#fff").unwrap(), WHITE);
    assert_eq!(parse_color_hex("#ffff").unwrap(), WHITE);
    assert_eq!(parse_color_hex("#ffffff").unwrap(), WHITE);
    assert_eq!(parse_color_hex("#ffffffff").unwrap(), WHITE);

    assert_eq!(parse_color_hex("#f00").unwrap(), RED);
    assert_eq!(parse_color_hex("#0f0f").unwrap(), GREEN);
    assert_eq!(parse_color_hex("#0000ff").unwrap(), BLUE);
    assert_eq!(parse_color_hex("#80808080").unwrap(), RGBA::rgba(128, 128, 128, 128));

    assert_eq!(parse_color_hex("F00").unwrap(), RED);
    assert_eq!(parse_color_hex("0F0F").unwrap(), GREEN);
    assert_eq!(parse_color_hex("0000FF").unwrap(), BLUE);
    assert_eq!(parse_color_hex("80808080").unwrap(), RGBA::rgba(128, 128, 128, 128));

    assert!(parse_color_hex("white").is_err());
    assert!(parse_color_hex("12,34,56").is_err());
}

#[test]
fn parse_rgb() {
    assert_eq!(parse_color_rgb("0,0,0").unwrap(), RGBA::rgba(0, 0, 0, 255));

    assert_eq!(parse_color_rgb("rgb(10,20,30)").unwrap(), RGBA::rgba(10, 20, 30, 255));

    assert_eq!(parse_color_rgb("(255,150,200,25)").unwrap(), RGBA::rgba(255, 150, 200, 25));

    assert_eq!(parse_color_rgb("rgba(10,20,30)").unwrap(), RGBA::rgba(10, 20, 30, 255));

    assert!(parse_color_rgb("FFF").is_err());
    assert!(parse_color_rgb("white").is_err());
}

#[test]
fn parse_test() {
    assert_eq!(parse_color("0,0,0").unwrap(), RGBA::rgba(0, 0, 0, 255));

    assert_eq!(parse_color("rgb(10,20,30)").unwrap(), RGBA::rgba(10, 20, 30, 255));

    assert_eq!(parse_color("(255,150,200,25)").unwrap(), RGBA::rgba(255, 150, 200, 25));

    assert_eq!(parse_color("rgba(10,20,30)").unwrap(), RGBA::rgba(10, 20, 30, 255));

    assert_eq!(parse_color("#f00").unwrap(), RED);
    assert_eq!(parse_color("#0f0f").unwrap(), GREEN);
    assert_eq!(parse_color("#0000ff").unwrap(), BLUE);
    assert_eq!(parse_color("#80808080").unwrap(), RGBA::rgba(128, 128, 128, 128));

    assert_eq!(parse_color("F00").unwrap(), RED);
    assert_eq!(parse_color("0F0F").unwrap(), GREEN);
    assert_eq!(parse_color("0000FF").unwrap(), BLUE);
    assert_eq!(parse_color("0000FF # comment").unwrap(), BLUE);

    assert_eq!(parse_color("80808080").unwrap(), RGBA::rgba(128, 128, 128, 128));

    assert!(parse_color("white").is_err());
    assert!(parse_color("WHITE").is_err());
}

#[test]
fn parse_error_variants() {
    assert_eq!(parse_color_hex("zz0").unwrap_err(), ColorParseErr::NonHexDigit);
    assert_eq!(parse_color_hex("abcde").unwrap_err(), ColorParseErr::WrongHexLen);
    assert_eq!(parse_color_rgb("1,2").unwrap_err(), ColorParseErr::WrongRgbLen);
    assert_eq!(parse_color_rgb("1,2,3,4,5").unwrap_err(), ColorParseErr::WrongRgbLen);
    assert_eq!(parse_color_rgb("1,x,3").unwrap_err(), ColorParseErr::NonAsciiDigit);
    assert_eq!(parse_color_rgb("1,256,3").unwrap_err(), ColorParseErr::NonAsciiDigit);
    assert_eq!(parse_color_rgb("1,,3").unwrap_err(), ColorParseErr::NonAsciiDigit);
}

#[test]
fn parse_trims_and_lowers() {
    assert_eq!(parse_color("  #FFF  ").unwrap(), WHITE);
    assert_eq!(parse_color("\tRGB( 10 , 20 , 30 )\n").unwrap(), RGBA::rgba(10, 20, 30, 255));
}

#[test]
fn to_rgba_option() {
    assert_eq!(to_rgba("#f00"), Some(RED));
    assert_eq!(to_rgba("red"), None);
    assert_eq!(to_rgba("10,20,30"), Some(RGBA::rgba(10, 20, 30, 255)));
}

#[test]
fn components_and_math() {
    let c = RGBA::rgba(10, 20, 30, 40);
    assert_eq!(c.r(), 10);
    assert_eq!(c.g(), 20);
    assert_eq!(c.b(), 30);
    assert_eq!(c.a(), 40);
    assert_eq!(RGBA::new(), RGBA(0, 0, 0, 0));
    assert_eq!(RGBA::rgb(1, 2, 3), RGBA(1, 2, 3, 255));

    assert_eq!(RGBA::multiply(RGBA::rgb(255, 128, 0), RGBA::rgb(255, 255, 255)), RGBA::rgb(255, 128, 0));
    assert_eq!(RGBA::multiply(RGBA::rgb(100, 200, 50), RGBA::rgb(0, 0, 0)), RGBA::rgb(0, 0, 0));
    assert_eq!(RGBA::multiply(RGBA::rgb(100, 100, 100), RGBA::rgb(51, 51, 51)), RGBA::rgb(20, 20, 20));

    assert_eq!(RGBA::mix(RGBA::rgba(0, 100, 30, 0), RGBA::rgba(10, 50, 31, 255)), RGBA::rgba(5, 75, 30, 127));

    assert_eq!(RGBA::distance(RGBA::rgb(0, 0, 0), RGBA::rgb(255, 255, 255)), 3 * 255 * 255);
    assert_eq!(RGBA::distance(RGBA::rgb(10, 20, 30), RGBA::rgb(10, 20, 30)), 0);
    assert_eq!(RGBA::distance(RGBA::rgb(13, 20, 30), RGBA::rgb(10, 24, 30)), 25);
}
