use bozorth::isoparser::{load_iso, MinutiaType, ParseError};
use bozorth::parse;
use bozorth::parsing::{
    lines, parse_kind_line, parse_min, parse_minutia_line, parse_xyt, ListError,
};
use bozorth::text::{parse_integer, split};
use bozorth::types::MinutiaKind;

#[test]
fn whole_numbers_are_read_as_rust_reads_them() {
    for text in [
        "0", "7", "-7", "+7", "007", "-0", "2147483647", "-2147483648", "2147483648",
        "-2147483649", "99999999999999999999", "", "-", "+", "--1", "1-", " 1", "1 ", "1.5",
        "0x10", "１",
    ] {
        let expected = text.parse::<i32>().ok();
        assert_eq!(parse_integer(text.as_bytes(), 0, text.len()), expected, "{:?}", text);
    }
    assert_eq!(parse_integer(b"ab-12cd", 2, 5), Some(-12));
    assert_eq!(parse_integer(b"ab-12cd", 2, 6), None);
    assert_eq!(parse_integer(b"ab-12cd", 3, 3), None);
}

#[test]
fn text_is_split_at_every_separator() {
    assert_eq!(split(b"", b' '), vec![(0, 0)]);
    assert_eq!(split(b"abc", b' '), vec![(0, 3)]);
    assert_eq!(split(b"a b", b' '), vec![(0, 1), (2, 3)]);
    assert_eq!(split(b" a  b ", b' '), vec![(0, 0), (1, 2), (3, 3), (4, 5), (6, 6)]);
    assert_eq!(split(b"a:b", b' '), vec![(0, 3)]);
}

#[test]
fn lines_end_at_line_feeds() {
    assert_eq!(lines(b""), vec![]);
    assert_eq!(lines(b"a"), vec![(0, 1)]);
    assert_eq!(lines(b"a\n"), vec![(0, 1)]);
    assert_eq!(lines(b"a\n\n"), vec![(0, 1), (2, 2)]);
    assert_eq!(lines(b"a\r\nbc\r\n"), vec![(0, 1), (3, 5)]);
    assert_eq!(lines(b"\n"), vec![(0, 0)]);
    assert_eq!(lines(b"a\r"), vec![(0, 1)]);
    assert_eq!(lines(b"a\r\r\nb"), vec![(0, 2), (4, 5)]);
    for text in ["", "a", "a\n", "a\n\nb", "\n\n", "x\r\ny\r\n\r\n", "a\rb\nc"] {
        let expected: Vec<&str> = text.lines().collect();
        let found: Vec<&str> = lines(text.as_bytes())
            .iter()
            .map(|&(start, end)| &text[start..end])
            .collect();
        assert_eq!(found, expected, "{:?}", text);
    }
}

#[test]
fn a_line_of_three_or_four_numbers_is_a_minutia() {
    let full = parse_minutia_line(b"12 -3 181 45").unwrap();
    assert_eq!((full.x, full.y, full.t, full.q), (12, -3, 181, 45));
    let short = parse_minutia_line(b"1 2 3").unwrap();
    assert_eq!((short.x, short.y, short.t, short.q), (1, 2, 3, 0));
    let long = parse_minutia_line(b"1 2 3 4 five").unwrap();
    assert_eq!((long.x, long.y, long.t, long.q), (1, 2, 3, 4));
    assert!(parse_minutia_line(b"").is_none());
    assert!(parse_minutia_line(b"1 2").is_none());
    assert!(parse_minutia_line(b"1  2 3").is_none());
    assert!(parse_minutia_line(b"1 2 3 ").is_none());
    assert!(parse_minutia_line(b"1 2 x 4").is_none());
    assert!(parse_minutia_line(b"1 2 3 x").is_none());
    assert!(parse_minutia_line(b"1\t2\t3").is_none());
    assert!(parse_minutia_line(b"1 2 2147483648").is_none());
}

#[test]
fn a_list_of_minutiae_is_read_line_by_line() {
    let list = parse_xyt(b"1 2 3 4\n5 6 7\r\n-8 -9 -10 -11").unwrap();
    let found: Vec<(i32, i32, i32, i32)> = list.iter().map(|m| (m.x, m.y, m.t, m.q)).collect();
    assert_eq!(found, vec![(1, 2, 3, 4), (5, 6, 7, 0), (-8, -9, -10, -11)]);
    assert_eq!(parse_xyt(b"").unwrap().len(), 0);
    assert_eq!(parse_xyt(b"1 2 3 4\n\n5 6 7").err(), Some(ListError::Minutia { line: 1 }));
    assert_eq!(parse_xyt(b"x\ny").err(), Some(ListError::Minutia { line: 0 }));
    assert_eq!(parse_xyt(b"1 2 3\n1 2 3\n1 2").err(), Some(ListError::Minutia { line: 2 }));
}

const KINDS: &[u8] = b"Image (w,h) 500 500\n\n3 Minutiae Detected\n\n  0 :  12,  34 :  5 : 0.9 :RIG :APP\n  1 :  56,  78 :  6 : 0.8 : BIF: DIS :  1,2\n  2 :  90,  12 :  7 : 0.7 :\tRIG\t:APP\n";

#[test]
fn a_line_names_a_kind_in_its_fifth_column() {
    assert_eq!(parse_kind_line(b"a:b:c:d:RIG:f"), Some(MinutiaKind::Type0));
    assert_eq!(parse_kind_line(b"a:b:c:d: BIF :f"), Some(MinutiaKind::Type1));
    assert_eq!(parse_kind_line(b"a:b:c:d:\t\r\n RIG \x0b\x0c:f:g:h"), Some(MinutiaKind::Type0));
    assert_eq!(parse_kind_line(b"::::BIF:"), Some(MinutiaKind::Type1));
    assert_eq!(parse_kind_line(b"a:b:c:d:RIG"), None);
    assert_eq!(parse_kind_line(b"a:b:c:d:rig:f"), None);
    assert_eq!(parse_kind_line(b"a:b:c:d:RI G:f"), None);
    assert_eq!(parse_kind_line(b"a:b:c:d::f"), None);
    assert_eq!(parse_kind_line(b"a:b:c:d:RIGS:f"), None);
    assert_eq!(parse_kind_line(b"a:b:c:RIG:e:f"), None);
    assert_eq!(parse_kind_line(b""), None);
}

#[test]
fn a_list_of_kinds_is_read_behind_its_header() {
    let kinds: Vec<MinutiaKind> = parse_min(KINDS).unwrap().iter().map(|m| m.kind).collect();
    assert_eq!(kinds, vec![MinutiaKind::Type0, MinutiaKind::Type1, MinutiaKind::Type0]);
    assert_eq!(parse_min(b"").unwrap().len(), 0);
    assert_eq!(parse_min(b"RIG\nno kind\n\n").unwrap().len(), 0);
    assert_eq!(parse_min(b"1\n2\n3\n4\n").unwrap().len(), 0);
    assert_eq!(parse_min(b"1\n2\n3\n4\nx").err(), Some(ListError::Kind { line: 4 }));
    assert_eq!(
        parse_min(b"1\n2\n3\n4\n::::RIG:\n::::XYZ:\n").err(),
        Some(ListError::Kind { line: 5 })
    );
}

#[test]
fn orientations_beyond_half_a_turn_are_taken_a_turn_lower() {
    let list = parse(b"1 2 180 4\n5 6 181 7\n8 9 359\n1 1 -5 1\n1 1 540 1", None).unwrap();
    let found: Vec<(i32, i32, i32, i32, MinutiaKind)> = list.iter().map(|m| (m.x, m.y, m.t, m.q, m.kind)).collect();
    assert_eq!(
        found,
        vec![
            (1, 2, 180, 4, MinutiaKind::Type0),
            (5, 6, -179, 7, MinutiaKind::Type0),
            (8, 9, -1, 0, MinutiaKind::Type0),
            (1, 1, -5, 1, MinutiaKind::Type0),
            (1, 1, 180, 1, MinutiaKind::Type0),
        ]
    );
}

#[test]
fn kinds_go_to_the_minutiae_in_their_order() {
    let list = parse(b"1 1 1\n2 2 2\n3 3 3\n4 4 4", Some(KINDS)).unwrap();
    let kinds: Vec<MinutiaKind> = list.iter().map(|m| m.kind).collect();
    assert_eq!(
        kinds,
        vec![MinutiaKind::Type0, MinutiaKind::Type1, MinutiaKind::Type0, MinutiaKind::Type0]
    );
    let exact = parse(b"1 1 1\n2 2 2\n3 3 3", Some(KINDS)).unwrap();
    assert_eq!(exact[1].kind, MinutiaKind::Type1);
    assert_eq!(exact.len(), 3);
}

#[test]
fn lists_that_cannot_be_read_give_their_error() {
    assert_eq!(parse(b"1 1 1\n2 2", Some(KINDS)).err(), Some(ListError::Minutia { line: 1 }));
    assert_eq!(parse(b"1 1", Some(b"1\n2\n3\n4\nx")).err(), Some(ListError::Minutia { line: 0 }));
    assert_eq!(parse(b"1 1 1", Some(b"1\n2\n3\n4\nx")).err(), Some(ListError::Kind { line: 4 }));
    assert_eq!(parse(b"1 1 1\n2 2 2", Some(KINDS)).err(), Some(ListError::TooManyKinds));
    assert_eq!(parse(b"", Some(KINDS)).err(), Some(ListError::TooManyKinds));
    assert_eq!(parse(b"", None).unwrap().len(), 0);
}

fn record(views: u8, minutiae: &[[u8; 6]]) -> Vec<u8> {
    let mut file = vec![b'F', b'M', b'R', 0, b' ', b'2', b'0', 0, 0, 0, 0, 0];
    file.extend_from_slice(&[0x12, 0x34, 0x01, 0x00, 0x02, 0x00, 0x00, 0xc5, 0x00, 0xc6, views, 0]);
    file.extend_from_slice(&[3, 1, 90, minutiae.len() as u8]);
    for minutia in minutiae {
        file.extend_from_slice(minutia);
    }
    let length = file.len() as u32;
    file[8..12].copy_from_slice(&length.to_be_bytes());
    file
}

#[test]
fn a_record_is_read_from_its_bytes() {
    let file = record(1, &[[0x40, 0x64, 0x00, 0xc8, 128, 77], [0xbf, 0xff, 0xff, 0xff, 255, 0], [0x00, 0x00, 0x40, 0x01, 0, 1]]);
    let found = load_iso(&file).unwrap();
    assert_eq!(found.capture_equipment, 0x1234);
    assert_eq!(found.x_image_size, 256);
    assert_eq!(found.y_image_size, 512);
    assert_eq!(found.x_resolution, 197);
    assert_eq!(found.y_resolution, 198);
    assert_eq!(found.views.len(), 1);
    let view = &found.views[0];
    assert_eq!((view.finger_position, view.impr_type, view.finger_quality), (3, 1, 90));
    let minutiae: Vec<(MinutiaType, u16, u16, u8, u8)> =
        view.minutiae.iter().map(|m| (m.ty, m.x, m.y, m.angle, m.quality)).collect();
    assert_eq!(
        minutiae,
        vec![
            (MinutiaType::RidgeEnding, 100, 200, 128, 77),
            (MinutiaType::RidgeBifurcation, 0x3fff, 0x3fff, 255, 0),
            (MinutiaType::Other, 0, 1, 0, 1),
        ]
    );
}

#[test]
fn every_view_of_a_record_is_read_behind_the_header() {
    let file = record(3, &[[0x40, 0x01, 0x00, 0x02, 3, 4]]);
    let found = load_iso(&file).unwrap();
    assert_eq!(found.views.len(), 3);
    for view in &found.views {
        assert_eq!(view.finger_position, 3);
        assert_eq!(view.minutiae.len(), 1);
        assert_eq!(view.minutiae[0].x, 1);
    }
    let none = load_iso(&record(0, &[])).unwrap();
    assert_eq!(none.views.len(), 0);
    let mut bare = record(0, &[]);
    bare.truncate(24);
    bare[8..12].copy_from_slice(&24u32.to_be_bytes());
    assert_eq!(load_iso(&bare).unwrap().views.len(), 0);
}

#[test]
fn records_that_cannot_be_read_give_their_error() {
    let good = record(1, &[[0x40, 0x01, 0x00, 0x02, 3, 4]]);
    assert_eq!(load_iso(b"").err(), Some(ParseError::InvalidFormat));
    assert_eq!(load_iso(b"FMR").err(), Some(ParseError::InvalidFormat));
    assert_eq!(load_iso(b"FMR\0").err(), Some(ParseError::InvalidLength));
    let mut magic = good.clone();
    magic[3] = b' ';
    assert_eq!(load_iso(&magic).err(), Some(ParseError::InvalidFormat));
    let mut lower = good.clone();
    lower[0] = b'f';
    assert_eq!(load_iso(&lower).err(), Some(ParseError::InvalidFormat));
    let mut length = good.clone();
    length[11] += 1;
    assert_eq!(load_iso(&length).err(), Some(ParseError::InvalidLength));
    let mut longer = good.clone();
    longer.push(0);
    assert_eq!(load_iso(&longer).err(), Some(ParseError::InvalidLength));
    let mut kind = good.clone();
    kind[28] = 0xc0;
    assert_eq!(load_iso(&kind).err(), Some(ParseError::InvalidFormat));
    let mut count = good.clone();
    count[27] = 2;
    assert_eq!(load_iso(&count).err(), Some(ParseError::InvalidLength));
    let mut header_only = record(1, &[]);
    header_only.truncate(24);
    header_only[8..12].copy_from_slice(&24u32.to_be_bytes());
    assert_eq!(load_iso(&header_only).err(), Some(ParseError::InvalidLength));
    let mut bad_then_short = record(1, &[[0xc0, 0, 0, 0, 0, 0]]);
    bad_then_short[27] = 2;
    assert_eq!(load_iso(&bad_then_short).err(), Some(ParseError::InvalidFormat));
}
