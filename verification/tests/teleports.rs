use propdump_cell::aw::Object;
use propdump_cell::scan::find_byte;
use propdump_cell::teleports::{bounds, coord_to_num, line_coords, Config, TeleportError, Teleports};

fn object_at(x: i32, z: i32, citnum: i32) -> Object {
    Object {
        type_: 0,
        id: 0,
        number: 0,
        citnum,
        time: 0,
        x,
        y: 0,
        z,
        yaw: 0,
        tilt: 0,
        roll: 0,
        name: vec![],
        desc: vec![],
        action: vec![],
        data: vec![],
    }
}

#[test]
fn bounds_reach_the_radius_to_either_side() {
    assert_eq!(bounds(10, 3), (7, 13));
    assert_eq!(bounds(-10, 3), (-13, -7));
    assert_eq!(bounds(0, 0), (0, 0));
}

#[test]
fn bounds_stop_at_the_ends_of_the_range() {
    assert_eq!(bounds(32_760, 10), (32_750, 32_767));
    assert_eq!(bounds(-32_760, 10), (-32_768, -32_750));
    assert_eq!(bounds(0, i16::MAX), (-32_767, 32_767));
    assert_eq!(bounds(i16::MIN, i16::MAX), (-32_768, -1));
}

#[test]
fn bounds_with_a_negative_radius_turn_around() {
    assert_eq!(bounds(10, -3), (13, 7));
    assert_eq!(bounds(i16::MAX, i16::MIN), (32_767, -1));
}

#[test]
fn north_and_west_keep_the_number() {
    assert_eq!(coord_to_num(b"12N", 12), Ok(12));
    assert_eq!(coord_to_num(b"12.7n", 12), Ok(12));
    assert_eq!(coord_to_num(b"5W", 5), Ok(5));
    assert_eq!(coord_to_num(b"5w", 5), Ok(5));
    assert_eq!(coord_to_num(b"-5W", -5), Ok(-5));
}

#[test]
fn south_and_east_negate_the_number() {
    assert_eq!(coord_to_num(b"12S", 12), Ok(-12));
    assert_eq!(coord_to_num(b"12s", 12), Ok(-12));
    assert_eq!(coord_to_num(b"5E", 5), Ok(-5));
    assert_eq!(coord_to_num(b"5e", 5), Ok(-5));
    assert_eq!(coord_to_num(b"-5E", -5), Ok(5));
    assert_eq!(coord_to_num(b"40000E", i16::MAX), Ok(-32_767));
}

#[test]
fn any_other_letter_is_refused() {
    assert_eq!(coord_to_num(b"12X", 12), Err(TeleportError::BadCoordinate));
    assert_eq!(coord_to_num(b"12", 1), Err(TeleportError::BadCoordinate));
    assert_eq!(coord_to_num(b"N ", 0), Err(TeleportError::BadCoordinate));
    assert_eq!(coord_to_num(&[0x31, 0xc5, 0xbf], 1), Err(TeleportError::BadCoordinate));
}

#[test]
fn a_byte_is_found_where_it_first_stands() {
    assert_eq!(find_byte(b"a b c", b' ', 0, 5), 1);
    assert_eq!(find_byte(b"a b c", b' ', 2, 5), 3);
    assert_eq!(find_byte(b"a b c", b' ', 4, 5), 5);
    assert_eq!(find_byte(b"a b c", b' ', 2, 3), 3);
    assert_eq!(find_byte(b"", b' ', 0, 0), 0);
}

#[test]
fn the_coordinates_are_the_second_and_third_field() {
    let line = b"aw 12.5N 3W 0.0a 90: Ground zero";
    assert_eq!(line_coords(line), Ok(((3, 8), (9, 11))));
    assert_eq!(&line[3..8], b"12.5N");
    assert_eq!(&line[9..11], b"3W");
}

#[test]
fn the_coordinates_end_at_the_colon() {
    assert_eq!(line_coords(b"aw 1N 2E: a b c"), Ok(((3, 5), (6, 8))));
    assert_eq!(line_coords(b"aw 1N 2E"), Ok(((3, 5), (6, 8))));
    assert_eq!(line_coords(b"aw 1N:2E x y"), Err(TeleportError::BadLine));
    assert_eq!(line_coords(b"aw:1N 2E x y"), Err(TeleportError::BadLine));
}

#[test]
fn a_line_with_fewer_than_three_fields_has_no_coordinates() {
    assert_eq!(line_coords(b""), Err(TeleportError::BadLine));
    assert_eq!(line_coords(b"aw"), Err(TeleportError::BadLine));
    assert_eq!(line_coords(b"aw 1N"), Err(TeleportError::BadLine));
    assert_eq!(line_coords(b": aw 1N 2E"), Err(TeleportError::BadLine));
}

#[test]
fn empty_fields_count() {
    assert_eq!(line_coords(b"aw  1N 2E"), Ok(((3, 3), (4, 6))));
    assert_eq!(line_coords(b"aw 1N "), Ok(((3, 5), (6, 6))));
    assert_eq!(line_coords(b"  "), Ok(((1, 1), (2, 2))));
}

#[test]
fn an_empty_list_contains_nothing() {
    let t = Teleports::new();
    assert!(!t.contains(&object_at(0, 0, 1)));
}

#[test]
fn a_region_contains_the_cells_within_the_radius() {
    let mut t = Teleports::new();
    t.insert(10, -20, 2);
    assert!(t.contains(&object_at(10_000, -20_000, 1)));
    assert!(t.contains(&object_at(8_000, -22_999, 1)));
    assert!(t.contains(&object_at(12_999, -18_000, 1)));
    assert!(!t.contains(&object_at(13_000, -20_000, 1)));
    assert!(!t.contains(&object_at(7_999, -20_000, 1)));
    assert!(!t.contains(&object_at(10_000, -23_000, 1)));
    assert!(!t.contains(&object_at(10_000, -17_000, 1)));
}

#[test]
fn any_region_will_do() {
    let mut t = Teleports::new();
    t.insert(0, 0, 0);
    t.insert(100, 100, 1);
    assert!(t.contains(&object_at(999, -999, 1)));
    assert!(t.contains(&object_at(101_500, 99_000, 1)));
    assert!(!t.contains(&object_at(50_000, 50_000, 1)));
}

#[test]
fn without_tests_every_object_is_admitted() {
    let config = Config { teleports: None, citnums: None };
    assert!(config.admits(&object_at(123_456, -7, 99)));
}

#[test]
fn the_citizen_has_to_be_named() {
    let config = Config { teleports: None, citnums: Some(vec![3, 5]) };
    assert!(config.admits(&object_at(0, 0, 5)));
    assert!(config.admits(&object_at(0, 0, 3)));
    assert!(!config.admits(&object_at(0, 0, 4)));
    let nobody = Config { teleports: None, citnums: Some(vec![]) };
    assert!(!nobody.admits(&object_at(0, 0, 4)));
}

#[test]
fn both_tests_have_to_pass() {
    let mut t = Teleports::new();
    t.insert(1, 1, 0);
    let config = Config { teleports: Some(t), citnums: Some(vec![7]) };
    assert!(config.admits(&object_at(1_500, 1_500, 7)));
    assert!(!config.admits(&object_at(1_500, 1_500, 8)));
    assert!(!config.admits(&object_at(2_500, 1_500, 7)));
    assert!(!config.admits(&object_at(2_500, 1_500, 8)));
}
