use pointgen::codec::{format_coord, format_dataset, format_nat, format_point_line, parse_coord, parse_group, parse_point_line};
use pointgen::generator::Point;

#[test]
fn formats_the_reference_line() {
    let p = Point { x: 1234, y: -5678, group: 2 };
    assert_eq!(format_point_line(&p), b"12.34 -56.78 2".to_vec());
}

#[test]
fn formats_edge_coordinates() {
    assert_eq!(format_coord(0), b"0.00".to_vec());
    assert_eq!(format_coord(-30000), b"-300.00".to_vec());
    assert_eq!(format_coord(29999), b"299.99".to_vec());
    assert_eq!(format_coord(-7), b"-0.07".to_vec());
    assert_eq!(format_nat(907), b"907".to_vec());
}

#[test]
fn line_round_trips_through_parse() {
    let cases = [
        Point { x: 1234, y: -5678, group: 2 },
        Point { x: 0, y: 0, group: 0 },
        Point { x: -30000, y: 29999, group: 4 },
        Point { x: -1, y: 1, group: 4294967295 },
    ];
    for p in cases {
        let line = format_point_line(&p);
        assert_eq!(parse_point_line(&line), Some(p));
        assert_eq!(format_point_line(&parse_point_line(&line).unwrap()), line);
    }
}

#[test]
fn parses_the_reference_line() {
    let p = parse_point_line(&b"12.34 -56.78 2".to_vec()).unwrap();
    assert_eq!(p, Point { x: 1234, y: -5678, group: 2 });
}

#[test]
fn rejects_lines_that_no_point_formats_to() {
    let bad: [&[u8]; 10] = [
        b"-0.00 0.00 1",          // negative zero is never written
        b"01.00 0.00 1",          // leading zero in the whole part
        b"1.2 0.00 1",            // one fraction digit
        b"300.00 0.00 1",         // at the excluded upper domain bound
        b"12.34  -5.00 1",        // doubled separator
        b"12.34 -56.78",          // group field missing
        b"12.34 -56.78 2 ",       // trailing separator
        b"0.00 0.00 4294967296",  // group too large for its type
        b"0.00 0.00 02",          // leading zero in the group
        b"",                      // empty line
    ];
    for line in bad {
        assert_eq!(parse_point_line(&line.to_vec()), None);
    }
}

#[test]
fn coord_parser_is_strict() {
    assert_eq!(parse_coord(&b"0.00".to_vec()), Some(0));
    assert_eq!(parse_coord(&b"-300.00".to_vec()), Some(-30000));
    assert_eq!(parse_coord(&b"-0.00".to_vec()), None);
    assert_eq!(parse_coord(&b"-300.01".to_vec()), None);
    assert_eq!(parse_coord(&b"3.5".to_vec()), None);
    assert_eq!(parse_coord(&b"12,34".to_vec()), None);
}

#[test]
fn group_parser_is_strict() {
    assert_eq!(parse_group(&b"0".to_vec()), Some(0));
    assert_eq!(parse_group(&b"4294967295".to_vec()), Some(4294967295));
    assert_eq!(parse_group(&b"4294967296".to_vec()), None);
    assert_eq!(parse_group(&b"00".to_vec()), None);
    assert_eq!(parse_group(&b"".to_vec()), None);
    assert_eq!(parse_group(&b"1x".to_vec()), None);
}

#[test]
fn dataset_text_is_one_line_per_point() {
    let points = vec![
        Point { x: 1234, y: -5678, group: 2 },
        Point { x: 0, y: 0, group: 0 },
        Point { x: -30000, y: 29999, group: 4 },
    ];
    let text = format_dataset(&points);
    assert_eq!(text, b"12.34 -56.78 2\n0.00 0.00 0\n-300.00 299.99 4\n".to_vec());
    let newlines = text.iter().filter(|b| **b == b'\n').count();
    assert_eq!(newlines, points.len());
}
