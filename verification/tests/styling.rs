use color_string::Font;
use color_string::FontTool;
use color_string::StyledBuilder;
use color_string::cs;
use color_string::cs_parts;
use color_string::fonts;
use color_string::wcs;
use color_string::wf;

#[test]
fn font_is_work() {
    assert_eq!("\x1b[30m", Font::Black.escape());
    assert_eq!("\x1b[38;2;1;2;3m", Font::Color(1, 2, 3).escape());
}

#[test]
fn aaa() {
    let s = cs(&vec![Font::Red], "hello");
    println!("{s}");
    println!("{}", s.none_font());
    println!("{}456", cs(&vec![Font::Red], "123").no_reset());
}

#[test]
fn bold_red_x() {
    assert_eq!(cs(&vec![Font::Bold, Font::Red], "X"), "\x1b[1;31mX\x1b[0m");
}

#[test]
fn rgb_background_alone() {
    assert_eq!(cs(&vec![Font::BgColor(1, 2, 3)], "Y"), "\x1b[48;2;1;2;3mY\x1b[0m");
}

#[test]
fn two_segments_single_reset() {
    let mut b = StyledBuilder::new();
    b.segment(&vec![Font::Red], "A");
    b.segment(&vec![Font::Green, Font::Bold], "B");
    assert_eq!(b.finish(), "\x1b[31mA\x1b[32;1mB\x1b[0m");
}

#[test]
fn effect_codes() {
    assert_eq!(Font::Reset.as_str(), "0");
    assert_eq!(Font::Bold.as_str(), "1");
    assert_eq!(Font::RBold.as_str(), "0;1");
    assert_eq!(Font::Italic.as_str(), "3");
    assert_eq!(Font::RItalic.as_str(), "0;3");
    assert_eq!(Font::Underline.as_str(), "4");
    assert_eq!(Font::RUnderline.as_str(), "0;4");
    assert_eq!(Font::Reverse.as_str(), "7");
    assert_eq!(Font::RReverse.as_str(), "0;7");
    assert_eq!(Font::Delete.as_str(), "9");
    assert_eq!(Font::RDelete.as_str(), "0;9");
}

#[test]
fn foreground_codes() {
    assert_eq!(Font::Black.as_str(), "30");
    assert_eq!(Font::Red.as_str(), "31");
    assert_eq!(Font::Green.as_str(), "32");
    assert_eq!(Font::Yellow.as_str(), "33");
    assert_eq!(Font::Blue.as_str(), "34");
    assert_eq!(Font::Purple.as_str(), "35");
    assert_eq!(Font::Cyan.as_str(), "36");
    assert_eq!(Font::Grey.as_str(), "37");
    assert_eq!(Font::RBlack.as_str(), "0;30");
    assert_eq!(Font::RGrey.as_str(), "0;37");
}

#[test]
fn background_codes() {
    assert_eq!(Font::BgBlack.as_str(), "40");
    assert_eq!(Font::BgRed.as_str(), "41");
    assert_eq!(Font::BgGreen.as_str(), "42");
    assert_eq!(Font::BgYellow.as_str(), "43");
    assert_eq!(Font::BgBlue.as_str(), "44");
    assert_eq!(Font::BgPurple.as_str(), "45");
    assert_eq!(Font::BgCyan.as_str(), "46");
    assert_eq!(Font::BgGrey.as_str(), "47");
    assert_eq!(Font::RBgBlack.as_str(), "0;40");
    assert_eq!(Font::RBgGrey.as_str(), "0;47");
}

#[test]
fn rgb_codes() {
    assert_eq!(Font::Color(0, 0, 0).as_str(), "38;2;0;0;0");
    assert_eq!(Font::Color(255, 255, 255).as_str(), "38;2;255;255;255");
    assert_eq!(Font::Color(7, 42, 200).as_str(), "38;2;7;42;200");
    assert_eq!(Font::BgColor(12, 34, 56).as_str(), "48;2;12;34;56");
    assert_eq!(Font::RColor(1, 2, 3).as_str(), "0;38;2;1;2;3");
    assert_eq!(Font::RBgColor(255, 0, 10).as_str(), "0;48;2;255;0;10");
}

#[test]
fn fonts_joins_codes_in_order() {
    let fs = vec![Font::Red, Font::Bold, Font::Underline, Font::BgColor(1, 2, 3)];
    assert_eq!(fonts(&fs), "\x1b[31;1;4;48;2;1;2;3m");
}

#[test]
fn wf_appends_escape_sequence() {
    let mut s = String::from("head");
    wf(&mut s, &vec![Font::Red, Font::Bold]);
    assert_eq!(s, "head\x1b[31;1m");
    s.push_str("Hello World!");
    s.reset();
    assert_eq!(s, "head\x1b[31;1mHello World!\x1b[0m");
}

#[test]
fn wcs_appends_styled_fragment() {
    let mut s = String::new();
    wcs(&mut s, &vec![Font::Red, Font::Bold], &format!("{:X}", u32::MAX));
    assert_eq!(s, "\x1b[31;1mFFFFFFFF\x1b[0m");
}

#[test]
fn cs_parts_concatenates_contents() {
    let s = cs_parts(&vec![Font::Red, Font::Bold], &vec!["Hello ", "World!"]);
    assert_eq!(s, "\x1b[31;1mHello World!\x1b[0m");
    let empty = cs_parts(&vec![Font::Green], &vec![]);
    assert_eq!(empty, "\x1b[32m\x1b[0m");
}

#[test]
fn builder_multi_segment() {
    let mut b = StyledBuilder::new();
    b.segment(&vec![Font::Red], &format!("{}\n", 123456));
    b.segment(&vec![Font::Green, Font::Bold], "hello world");
    assert_eq!(b.finish(), "\x1b[31m123456\n\x1b[32;1mhello world\x1b[0m");
}

#[test]
fn builder_empty_is_bare_reset() {
    let b = StyledBuilder::new();
    assert_eq!(b.finish(), "\x1b[0m");
}

#[test]
fn reset_appends_once() {
    let mut s = String::from("abc");
    s.reset();
    assert_eq!(s, "abc\x1b[0m");
    let once = s.clone();
    s.reset();
    assert_eq!(s, once);
}

#[test]
fn reset_on_empty() {
    let mut s = String::new();
    s.reset();
    assert_eq!(s, "\x1b[0m");
    s.reset();
    assert_eq!(s, "\x1b[0m");
}

#[test]
fn no_reset_strips_one_trailing_reset() {
    let s = String::from("abc\x1b[0m");
    assert_eq!(s.no_reset(), "abc");
    let twice = String::from("abc\x1b[0m\x1b[0m");
    assert_eq!(twice.no_reset(), "abc\x1b[0m");
}

#[test]
fn no_reset_leaves_others_alone() {
    let s = String::from("abc");
    assert_eq!(s.no_reset(), "abc");
    let inner = String::from("\x1b[0mabc");
    assert_eq!(inner.no_reset(), "\x1b[0mabc");
}

#[test]
fn strip_then_reset_restores() {
    let orig = cs(&vec![Font::Red], "A");
    let mut back = orig.clone().no_reset();
    assert_eq!(back, "\x1b[31mA");
    back.reset();
    assert_eq!(back, orig);
}

#[test]
fn none_font_returns_content() {
    let s = cs(&vec![Font::Red, Font::Bold], "text");
    assert_eq!(s.none_font(), "text");
    let t = cs(&vec![Font::Color(200, 100, 0)], "with m inside");
    assert_eq!(t.none_font(), "with m inside");
}

#[test]
fn none_font_plain_text() {
    let s = String::from("hello");
    assert_eq!(s.none_font(), "hello");
    let t = String::from("ham\x1b[31mmm");
    assert_eq!(t.none_font(), "hammm");
}

#[test]
fn none_font_unterminated_escape() {
    let s = String::from("ab\x1b[31cd");
    assert_eq!(s.none_font(), "ab");
}

#[test]
fn escape_of_single_attribute() {
    assert_eq!(Font::Red.escape(), "\x1b[31m");
    assert_eq!(Font::Reset.escape(), "\x1b[0m");
    assert_eq!(Font::RBgColor(9, 8, 7).escape(), "\x1b[0;48;2;9;8;7m");
}
