use propdump_cell::propdump::{read_fields, read_record, restore_newlines, with_text, Item, Kind, Propdump, Version};

fn restored(text: &[u8]) -> Vec<u8> {
    let mut buffer = text.to_vec();
    restore_newlines(&mut buffer);
    buffer
}

#[test]
fn a_line_mark_becomes_a_line_feed() {
    assert_eq!(restored(b"a\x7fb"), b"a\nb".to_vec());
    assert_eq!(restored(b"\x7f"), b"\n".to_vec());
    assert_eq!(restored(b"\x7fa"), b"\na".to_vec());
    assert_eq!(restored(b"a\x7f"), b"a\n".to_vec());
    assert_eq!(restored(b"\x7f\x7f\x7f"), b"\n\n\n".to_vec());
}

#[test]
fn a_return_mark_before_a_line_mark_becomes_a_carriage_return() {
    assert_eq!(restored(b"a\x80\x7fb"), b"a\r\nb".to_vec());
    assert_eq!(restored(b"\x80\x7f"), b"\r\n".to_vec());
    assert_eq!(restored(b"\x80\x7f\x80\x7f"), b"\r\n\r\n".to_vec());
}

#[test]
fn a_return_mark_elsewhere_stays() {
    assert_eq!(restored(b"a\x80b"), b"a\x80b".to_vec());
    assert_eq!(restored(b"\x80"), b"\x80".to_vec());
    assert_eq!(restored(b"\x7f\x80"), b"\n\x80".to_vec());
    assert_eq!(restored(b"\x80\x80\x7f"), b"\x80\r\n".to_vec());
}

#[test]
fn text_without_marks_stays() {
    assert_eq!(restored(b""), Vec::<u8>::new());
    assert_eq!(restored(b"plain text\r\n"), b"plain text\r\n".to_vec());
}

#[test]
fn the_three_header_lines_are_known() {
    assert_eq!(Propdump::new(b"propdump version 3\r\n").unwrap().version, Version::Three);
    assert_eq!(Propdump::new(b"propdump version 4\r\n").unwrap().version, Version::Four);
    assert_eq!(Propdump::new(b"propdump version 5\r\n").unwrap().version, Version::Five);
}

#[test]
fn any_other_first_line_is_refused() {
    assert!(Propdump::new(b"propdump version 2\r\n").is_none());
    assert!(Propdump::new(b"propdump version 6\r\n").is_none());
    assert!(Propdump::new(b"propdump version 4\n").is_none());
    assert!(Propdump::new(b"propdump version 4\n\r").is_none());
    assert!(Propdump::new(b"propdump version 4").is_none());
    assert!(Propdump::new(b"propdump version 4\r\n ").is_none());
    assert!(Propdump::new(b"Propdump version 4\r\n").is_none());
    assert!(Propdump::new(b"propdump version  4\r\n").is_none());
    assert!(Propdump::new(b"propdump_version 4\r\n").is_none());
    assert!(Propdump::new(b"").is_none());
}

#[test]
fn numbers_are_read_up_to_each_space() {
    let kinds = [Kind::Int, Kind::Short, Kind::Length];
    assert_eq!(read_fields(b"12 -3 7 rest", 0, &kinds), Some((vec![12, -3, 7], 8)));
    assert_eq!(read_fields(b"xx12 +3 +7 ", 2, &kinds), Some((vec![12, 3, 7], 11)));
    assert_eq!(read_fields(b"007 -0 0 ", 0, &kinds), Some((vec![7, 0, 0], 9)));
    assert_eq!(read_fields(b"", 0, &[]), Some((vec![], 0)));
}

#[test]
fn numbers_have_to_fit_their_kind() {
    assert_eq!(
        read_fields(b"2147483647 -2147483648 ", 0, &[Kind::Int, Kind::Int]),
        Some((vec![2147483647, -2147483648], 23))
    );
    assert_eq!(read_fields(b"2147483648 ", 0, &[Kind::Int]), None);
    assert_eq!(read_fields(b"-2147483649 ", 0, &[Kind::Int]), None);
    assert_eq!(
        read_fields(b"32767 -32768 ", 0, &[Kind::Short, Kind::Short]),
        Some((vec![32767, -32768], 13))
    );
    assert_eq!(read_fields(b"32768 ", 0, &[Kind::Short]), None);
    assert_eq!(read_fields(b"-32769 ", 0, &[Kind::Short]), None);
    assert_eq!(read_fields(b"-1 ", 0, &[Kind::Length]), None);
    assert_eq!(read_fields(b"-0 ", 0, &[Kind::Length]), None);
    assert_eq!(read_fields(b"99999999999999999999999999 ", 0, &[Kind::Length]), None);
    assert_eq!(
        read_fields(b"000000000000000000000000000000000000000005 ", 0, &[Kind::Short]),
        Some((vec![5], 43))
    );
}

#[test]
fn what_is_no_number_cannot_be_read() {
    for text in [&b" "[..], b"+ ", b"- ", b"1a ", b"a ", b"1.5 ", b"+-1 ", b"--1 ", b"1- ", b"0x10 "] {
        assert_eq!(read_fields(text, 0, &[Kind::Int]), None);
    }
    assert_eq!(read_fields(b"1  2 ", 0, &[Kind::Int, Kind::Int]), None);
    assert_eq!(read_fields(b"1 ", 0, &[Kind::Int, Kind::Int]), None);
}

#[test]
fn the_last_item_of_a_text_without_a_space_loses_a_byte() {
    assert_eq!(read_fields(b"123", 0, &[Kind::Int]), Some((vec![12], 3)));
    assert_eq!(read_fields(b"1", 0, &[Kind::Int]), None);
    assert_eq!(read_fields(b"", 0, &[Kind::Int]), None);
}

fn sample(version: u8) -> Vec<u8> {
    let mut text = Vec::new();
    text.extend_from_slice(b"42 1000 1500 -2 -2500 10 -20 30 ");
    if version == 4 {
        text.extend_from_slice(b"2 ");
    }
    text.extend_from_slice(b"3 5 4 ");
    if version == 4 {
        text.extend_from_slice(b"3 ");
    }
    text.extend_from_slice(b"abc");
    text.extend_from_slice(b"d\x80\x7fe\x7f");
    text.extend_from_slice(b"f\xe9\x7fh");
    if version == 4 {
        text.extend_from_slice(b"00fF+a");
    }
    text.extend_from_slice(b"\r\n");
    text
}

#[test]
fn a_record_of_the_fourth_version_is_read_as_it_stands() {
    let text = sample(4);
    match read_record(&text, 0, true) {
        Item::Record(o, next) => {
            assert_eq!(next, text.len());
            assert_eq!((o.citnum, o.time, o.x, o.y, o.z), (42, 1000, 1500, -2, -2500));
            assert_eq!((o.yaw, o.tilt, o.roll), (10, -20, 30));
            assert_eq!((o.type_, o.id, o.number), (2, 0, 0));
            assert_eq!(o.name, b"abc".to_vec());
            assert_eq!(o.desc, b"d\x80\x7fe\x7f".to_vec());
            assert_eq!(o.action, b"f\xe9\x7fh".to_vec());
            assert_eq!(o.data, vec![0x00, 0xff, 0x0a]);
        }
        other => panic!("unexpected item {:?}", other),
    }
}

#[test]
fn a_record_of_the_third_version_has_no_type_and_no_data() {
    let text = sample(3);
    match read_record(&text, 0, false) {
        Item::Record(o, next) => {
            assert_eq!(next, text.len());
            assert_eq!((o.citnum, o.time, o.x, o.y, o.z), (42, 1000, 1500, -2, -2500));
            assert_eq!(o.type_, 0);
            assert_eq!(o.name, b"abc".to_vec());
            assert_eq!(o.action, b"f\xe9\x7fh".to_vec());
            assert!(o.data.is_empty());
        }
        other => panic!("unexpected item {:?}", other),
    }
}

#[test]
fn records_follow_one_another() {
    let mut text = sample(4);
    let first_len = text.len();
    text.extend_from_slice(&sample(4));
    let at = match read_record(&text, 0, true) {
        Item::Record(_, next) => next,
        other => panic!("unexpected item {:?}", other),
    };
    assert_eq!(at, first_len);
    let at = match read_record(&text, at, true) {
        Item::Record(o, next) => {
            assert_eq!(o.citnum, 42);
            next
        }
        other => panic!("unexpected item {:?}", other),
    };
    assert_eq!(at, text.len());
    assert!(matches!(read_record(&text, at, true), Item::End));
}

#[test]
fn the_text_ends_where_no_number_begins() {
    assert!(matches!(read_record(b"", 0, true), Item::End));
    assert!(matches!(read_record(b"\r\n", 0, true), Item::End));
    assert!(matches!(read_record(b"x 1 2 3 ", 0, false), Item::End));
    assert!(matches!(read_record(b"99999999999 1 2 3 ", 0, false), Item::End));
}

#[test]
fn a_record_that_breaks_off_is_bad() {
    let text = sample(4);
    for len in [10, 30, text.len() - 9, text.len() - 3] {
        assert!(matches!(read_record(&text[..len], 0, true), Item::Bad));
    }
    assert!(matches!(read_record(b"1 2 3 4 5 6 7 8 x 0 0 ", 0, false), Item::Bad));
    assert!(matches!(read_record(b"1 2 3 4 5 6 7 70000 0 0 0 ", 0, false), Item::Bad));
    assert!(matches!(read_record(b"1 2 3 4 5 6 7 8 0 0 9 short", 0, false), Item::Bad));
    assert!(matches!(
        read_record(b"1 2 3 4 5 6 7 8 0 0 18446744073709551615 ", 0, false),
        Item::Bad
    ));
}

#[test]
fn the_line_end_may_be_missing_at_the_end_of_the_text() {
    let text = sample(3);
    let cut = text.len() - 1;
    match read_record(&text[..cut], 0, false) {
        Item::Record(_, next) => assert_eq!(next, cut),
        other => panic!("unexpected item {:?}", other),
    }
    match read_record(&text[..cut - 1], 0, false) {
        Item::Record(_, next) => assert_eq!(next, cut - 1),
        other => panic!("unexpected item {:?}", other),
    }
}

#[test]
fn data_is_read_from_pairs_of_hexadecimal_digits() {
    match read_record(b"1 2 3 4 5 6 7 8 9 0 0 0 5 0019aFfE+7\r\n", 0, true) {
        Item::Record(o, _) => assert_eq!(o.data, vec![0x00, 0x19, 0xaf, 0xfe, 0x07]),
        other => panic!("unexpected item {:?}", other),
    }
    for pair in [&b"0g"[..], b"-1", b"1+", b" 1", b"++", b"\xc3\xa9"] {
        let mut text = b"1 2 3 4 5 6 7 8 9 0 0 0 1 ".to_vec();
        text.extend_from_slice(pair);
        assert!(matches!(read_record(&text, 0, true), Item::Bad));
    }
}

#[test]
fn texts_replace_name_description_and_action_only() {
    let raw = match read_record(&sample(4), 0, true) {
        Item::Record(o, _) => o,
        other => panic!("unexpected item {:?}", other),
    };
    let o = with_text(raw, b"N".to_vec(), b"D".to_vec(), b"A".to_vec());
    assert_eq!(o.name, b"N".to_vec());
    assert_eq!(o.desc, b"D".to_vec());
    assert_eq!(o.action, b"A".to_vec());
    assert_eq!(o.data, vec![0x00, 0xff, 0x0a]);
    assert_eq!((o.citnum, o.x, o.roll, o.type_), (42, 1500, 30, 2));
}

#[test]
fn the_fourth_version_decodes_windows_1252() {
    let dump = Propdump::new(b"propdump version 4\r\n").unwrap();
    match dump.next(&sample(4), 0) {
        Item::Record(o, next) => {
            assert_eq!(next, sample(4).len());
            assert_eq!(o.name, b"abc".to_vec());
            assert_eq!(o.desc, b"d\r\ne\n".to_vec());
            assert_eq!(o.action, "f\u{e9}\nh".as_bytes().to_vec());
            assert_eq!(o.data, vec![0x00, 0xff, 0x0a]);
            assert_eq!(o.type_, 2);
        }
        other => panic!("unexpected item {:?}", other),
    }
}

#[test]
fn the_third_version_decodes_windows_1252_too() {
    let dump = Propdump::new(b"propdump version 3\r\n").unwrap();
    match dump.next(&sample(3), 0) {
        Item::Record(o, _) => {
            assert_eq!(o.action, "f\u{e9}\nh".as_bytes().to_vec());
            assert!(o.data.is_empty());
        }
        other => panic!("unexpected item {:?}", other),
    }
    match dump.next(b"1 2 3 4 5 6 7 8 2 0 0 \x80\x93", 0) {
        Item::Record(o, _) => assert_eq!(o.name, "\u{20ac}\u{201c}".as_bytes().to_vec()),
        other => panic!("unexpected item {:?}", other),
    }
}

#[test]
fn the_fifth_version_decodes_utf_8_and_has_no_data() {
    let dump = Propdump::new(b"propdump version 5\r\n").unwrap();
    let mut text = b"1 2 3 4 5 6 7 8 3 0 2 ".to_vec();
    text.extend_from_slice("\u{e9}x".as_bytes());
    text.extend_from_slice(b"\xffz\r\n");
    match dump.next(&text, 0) {
        Item::Record(o, next) => {
            assert_eq!(next, text.len());
            assert_eq!(o.name, "\u{e9}x".as_bytes().to_vec());
            assert_eq!(o.action, "\u{fffd}z".as_bytes().to_vec());
            assert_eq!(o.type_, 0);
        }
        other => panic!("unexpected item {:?}", other),
    }
}

#[test]
fn next_ends_and_fails_as_the_reading_does() {
    let dump = Propdump::new(b"propdump version 4\r\n").unwrap();
    assert!(matches!(dump.next(b"", 0), Item::End));
    assert!(matches!(dump.next(b"1 2 3 ", 0), Item::Bad));
    let text = sample(4);
    assert!(matches!(dump.next(&text, text.len()), Item::End));
}
