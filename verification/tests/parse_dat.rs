use sweeper::parse_dat::{line_fields, parse_layout, parse_str, DatError};

const CUBE: &str = "BSPLINE # kind of spline\n\
2 # number of sections\n\
3\n\
0 0\n\
1 0 # a point\n\
0 1\n\
1.5\n\
0.5 0 1 0\n\
0 0 0\n\
0 0\n\
2 0\n\
0 2\n\
1\n\
0 0 1 0\n\
0 1 0\n";

#[test]
fn parse_str_strips_comment_and_whitespace() {
    assert_eq!(parse_str("  BSPLINE  # the kind"), "BSPLINE");
    assert_eq!(parse_str("12"), "12");
    assert_eq!(parse_str("# only a comment"), "");
    assert_eq!(parse_str("a#b#c"), "a");
    assert_eq!(parse_str("\t1 2 3\r"), "1 2 3");
    assert_eq!(parse_str(""), "");
}

#[test]
fn parse_str_agrees_with_std() {
    let inputs = ["  x # y", "#", "", " a b ", "\u{3000}z\u{3000}#q", "no comment"];
    for s in inputs.iter() {
        assert_eq!(parse_str(s), s.split('#').next().unwrap().trim());
    }
}

#[test]
fn parse_str_twice_is_parse_str_once() {
    let inputs = ["  x # y", " a b ", "\tq\t#\t", "###"];
    for s in inputs.iter() {
        assert_eq!(parse_str(parse_str(s)), parse_str(s));
    }
}

#[test]
fn line_fields_examples() {
    assert_eq!(line_fields("0.5 0 1 0 # angle and axis"), vec!["0.5", "0", "1", "0"]);
    assert_eq!(line_fields("1.5"), vec!["1.5"]);
    assert_eq!(line_fields("   "), vec![""]);
}

#[test]
fn fields_join_back_to_the_clean_line() {
    let line = "  1 2  3 # c";
    assert_eq!(line_fields(line).join(" "), parse_str(line));
}

#[test]
fn parses_a_full_object() {
    let layout = parse_layout(CUBE).unwrap();
    assert_eq!(layout.spline_name, "BSPLINE");
    assert_eq!(layout.sect_n, 2);
    assert_eq!(layout.point_n, 3);
    assert_eq!(layout.sections.len(), 2);
    let first = &layout.sections[0];
    assert_eq!(first.points, vec![vec!["0", "0"], vec!["1", "0"], vec!["0", "1"]]);
    assert_eq!(first.scale, vec!["1.5"]);
    assert_eq!(first.rot, vec!["0.5", "0", "1", "0"]);
    assert_eq!(first.pos, vec!["0", "0", "0"]);
    let second = &layout.sections[1];
    assert_eq!(second.points, vec![vec!["0", "0"], vec!["2", "0"], vec!["0", "2"]]);
    assert_eq!(second.scale, vec!["1"]);
    assert_eq!(second.rot, vec!["0", "0", "1", "0"]);
    assert_eq!(second.pos, vec!["0", "1", "0"]);
}

#[test]
fn accepts_windows_line_endings() {
    let text = CUBE.replace('\n', "\r\n");
    let layout = parse_layout(&text).unwrap();
    assert_eq!(layout.sections.len(), 2);
    assert_eq!(layout.sections[1].pos, vec!["0", "1", "0"]);
}

#[test]
fn zero_sections_need_only_the_header() {
    let layout = parse_layout("catmull\n0\n-4\n").unwrap();
    assert_eq!(layout.spline_name, "catmull");
    assert_eq!(layout.sect_n, 0);
    assert_eq!(layout.point_n, -4);
    assert!(layout.sections.is_empty());
}

#[test]
fn zero_points_leave_three_lines_per_section() {
    let layout = parse_layout("x\n1\n0\n2\n0 0 1 0\n1 2 3\n").unwrap();
    assert_eq!(layout.sections.len(), 1);
    assert!(layout.sections[0].points.is_empty());
    assert_eq!(layout.sections[0].scale, vec!["2"]);
}

#[test]
fn missing_lines_are_reported() {
    assert_eq!(parse_layout("").err(), Some(DatError::MissingLine { line: 0 }));
    assert_eq!(parse_layout("BSPLINE").err(), Some(DatError::MissingLine { line: 1 }));
    assert_eq!(parse_layout("BSPLINE\n1\n").err(), Some(DatError::MissingLine { line: 2 }));
    assert_eq!(parse_layout("BSPLINE\n1\n1\n").err(), Some(DatError::MissingLine { line: 3 }));
    let cut: String = CUBE.lines().take(14).collect::<Vec<_>>().join("\n");
    assert_eq!(parse_layout(&cut).err(), Some(DatError::MissingLine { line: 14 }));
}

#[test]
fn bad_counts_are_reported() {
    assert_eq!(parse_layout("B\ntwo\n3\n").err(), Some(DatError::BadCount { line: 1 }));
    assert_eq!(parse_layout("B\n2\n3.0\n").err(), Some(DatError::BadCount { line: 2 }));
    assert_eq!(parse_layout("B\n\n3\n").err(), Some(DatError::BadCount { line: 1 }));
}

#[test]
fn negative_counts_are_reported() {
    assert_eq!(parse_layout("B\n-1\n3\n").err(), Some(DatError::NegativeSections));
    assert_eq!(parse_layout("B\n1\n-3\n").err(), Some(DatError::NegativePoints));
}

#[test]
fn short_lines_are_reported() {
    // A control point with one number.
    let text = CUBE.replacen("1 0 # a point", "1", 1);
    assert_eq!(parse_layout(&text).err(), Some(DatError::TooFewFields { line: 4 }));
    // A rotation with three numbers.
    let text = CUBE.replacen("0.5 0 1 0", "0.5 0 1", 1);
    assert_eq!(parse_layout(&text).err(), Some(DatError::TooFewFields { line: 7 }));
    // A position with two numbers.
    let text = format!("{}0 1\n", &CUBE[..CUBE.len() - "0 1 0\n".len()]);
    assert_eq!(parse_layout(&text).err(), Some(DatError::TooFewFields { line: 14 }));
}

#[test]
fn the_first_problem_wins() {
    // Line 4 is short and the text also ends too early: line 4 comes first.
    let text = "B\n1\n2\n0 0\n5\n";
    assert_eq!(parse_layout(text).err(), Some(DatError::TooFewFields { line: 4 }));
}
