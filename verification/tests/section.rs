use sweeper::section::{closed_windows, swept_header, sweep_windows, transpose, Spline};

#[test]
fn spline_names() {
    assert_eq!(Spline::new("BSPLINE"), Spline::Bspline);
    assert_eq!(Spline::new("bspline"), Spline::Bspline);
    assert_eq!(Spline::new("Catmull_Rom"), Spline::Catmull);
    assert_eq!(Spline::new("catmull"), Spline::Catmull);
    assert_eq!(Spline::new("NatNural"), Spline::Natural);
    assert_eq!(Spline::new("spline"), Spline::Bspline);
    assert_eq!(Spline::new(""), Spline::Bspline);
}

#[test]
fn unknown_names_fall_back_to_bspline() {
    assert_eq!(Spline::from_name("NATURAL"), None);
    assert_eq!(Spline::new("NATURAL"), Spline::Bspline);
    assert_eq!(Spline::from_name("catmull rom"), None);
    assert_eq!(Spline::from_name(" BSPLINE"), None);
    assert_eq!(Spline::from_name("catmull_rom"), Some(Spline::Catmull));
}

#[test]
fn spline_names_ignore_ascii_case_only() {
    assert_eq!(Spline::from_name("bSpLiNe"), Spline::from_name("BSPLINE"));
    // The dotless capital I is no ASCII letter.
    assert_eq!(Spline::from_name("BSPL\u{130}NE"), None);
}

#[test]
fn windows_of_few_sections() {
    assert_eq!(sweep_windows(1), vec![]);
    assert_eq!(sweep_windows(2), vec![(0, 0, 1, 1)]);
    assert_eq!(sweep_windows(3), vec![(0, 0, 1, 2), (0, 1, 2, 2)]);
}

#[test]
fn windows_of_many_sections() {
    assert_eq!(sweep_windows(4), vec![(0, 1, 2, 3)]);
    assert_eq!(sweep_windows(6), vec![(0, 1, 2, 3), (1, 2, 3, 4), (2, 3, 4, 5)]);
    assert_eq!(sweep_windows(0), vec![]);
    assert_eq!(sweep_windows(-5), vec![]);
}

#[test]
fn windows_stay_in_bounds() {
    for n in 1..20 {
        for w in sweep_windows(n) {
            let n = n as usize;
            assert!(w.0 < n && w.1 < n && w.2 < n && w.3 < n);
        }
    }
}

#[test]
fn header_counts() {
    assert_eq!(swept_header(2, 4, 10, 5), Some((11, 20)));
    assert_eq!(swept_header(3, 4, 10, 5), Some((21, 20)));
    assert_eq!(swept_header(1, 0, 7, 7), Some((1, 0)));
    assert_eq!(swept_header(i32::MIN, 1, 1, 1), None);
    assert_eq!(swept_header(3, 1, i32::MAX, 1), None);
    assert_eq!(swept_header(2, 1, i32::MAX, 1), None);
    assert_eq!(swept_header(2, 65536, 10, 65536), None);
}

#[test]
fn header_rows_match_written_rows_up_to_three_sections() {
    let s_part = 6;
    for n in 1..=3 {
        let written = sweep_windows(n).len() as i32 * s_part + 1;
        assert_eq!(swept_header(n, 1, s_part, 1).unwrap().0, written);
    }
    // With four sections the header announces more rows than are written.
    let written = sweep_windows(4).len() as i32 * s_part + 1;
    assert_eq!(written, 7);
    assert_eq!(swept_header(4, 1, s_part, 1).unwrap().0, 19);
}

#[test]
fn closed_windows_wrap_around() {
    assert_eq!(closed_windows(0), vec![]);
    assert_eq!(closed_windows(1), vec![(0, 0, 0, 0)]);
    assert_eq!(closed_windows(2), vec![(0, 1, 0, 1), (1, 0, 1, 0)]);
    assert_eq!(
        closed_windows(4),
        vec![(0, 1, 2, 3), (1, 2, 3, 0), (2, 3, 0, 1), (3, 0, 1, 2)]
    );
}

#[test]
fn closed_windows_agree_with_the_modular_formula() {
    for len in 1usize..9 {
        let w = closed_windows(len);
        assert_eq!(w.len(), len);
        for i in 0..len {
            assert_eq!(
                w[i],
                (i, (len + i + 1) % len, (len + i + 2) % len, (len + i + 3) % len)
            );
        }
    }
}

#[test]
fn transpose_regroups_samples() {
    let curves = vec![vec![1, 2, 3], vec![4, 5, 6]];
    assert_eq!(transpose(&curves, 3), vec![vec![1, 4], vec![2, 5], vec![3, 6]]);
    assert_eq!(transpose(&curves, 3).len(), 3);
    let none: Vec<Vec<i32>> = vec![];
    assert_eq!(transpose(&none, 2), vec![Vec::<i32>::new(), Vec::new()]);
}

#[test]
fn transpose_twice_is_identity() {
    let m = vec![vec![1.5f32, 2.5], vec![3.5, 4.5], vec![5.5, 6.5]];
    let t = transpose(&m, 2);
    assert_eq!(transpose(&t, 3), m);
}
