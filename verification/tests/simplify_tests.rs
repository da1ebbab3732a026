use svg_converter::simplify::{simplify_paths, simplify_svg_path};

fn strings(list: &[&str]) -> Vec<String> {
    list.iter().map(|s| s.to_string()).collect()
}

#[test]
fn level_zero_changes_nothing() {
    let paths = strings(&["M0.0,0.0 L1.0,0.0 L2.0,0.0Z", "", "not a path", "M 1 , 2 L3.14159,-2.5 Z"]);
    assert_eq!(simplify_paths(&paths, 0), paths);
    assert_eq!(simplify_paths(&[], 0), Vec::<String>::new());
}

#[test]
fn levels_map_to_precisions() {
    let paths = strings(&["M1.0,1.0 L2.0,1.0 L3.0,1.0Z", "M10.0,20.0 L30.0,40.0Z"]);
    for level in 1u8..=10 {
        let tenths = 100 - 9 * (level as i32);
        let expected: Vec<String> = paths.iter().map(|p| simplify_svg_path(p, tenths)).collect();
        assert_eq!(simplify_paths(&paths, level), expected);
    }
    assert_eq!(simplify_paths(&paths, 255), vec![
        simplify_svg_path(&paths[0], -2195),
        simplify_svg_path(&paths[1], -2195),
    ]);
}

#[test]
fn points_are_rounded_to_the_grid() {
    // Precision 7.3: 1 -> 7 steps -> 0.96, 2 -> 15 steps -> 2.05, 3 -> 22 steps -> 3.01.
    assert_eq!(simplify_svg_path("M1.0,1.0 L2.0,1.0 L3.0,1.0Z", 73), "M1.0,1.0 L2.1,1.0 L3.0,1.0Z");
    assert_eq!(
        simplify_paths(&strings(&["M1.0,1.0 L2.0,1.0 L3.0,1.0Z"]), 3),
        strings(&["M1.0,1.0 L2.1,1.0 L3.0,1.0Z"])
    );
    // Precision 1.9: 4 -> 8 steps -> 4.21, 10 -> 19 steps -> 10.0, 7 -> 13 steps -> 6.84.
    assert_eq!(simplify_svg_path("M4,10 L7,4", 19), "M4.2,10.0 L6.8,4.2");
    // Precision 10: tenths stay, hundredths are rounded.
    assert_eq!(simplify_svg_path("M3.14159,2.71828 L0.04,0.06", 100), "M3.1,2.7 L0.0,0.1");
    // Precision 2: halves.
    assert_eq!(simplify_svg_path("M0.3,0.7 L5.0,5.0Z", 20), "M0.5,0.5 L5.0,5.0Z");
}

#[test]
fn close_line_points_are_dropped() {
    // Precision 1: only points more than one unit from the last kept point stay.
    assert_eq!(
        simplify_svg_path("M0.0,0.0 L1.0,0.0 L2.0,0.0 L2.0,1.0 L5.0,5.0Z", 10),
        "M0.0,0.0 L2.0,0.0 L5.0,5.0Z"
    );
    assert_eq!(
        simplify_svg_path("M0.0,0.0 L1.0,0.0 L2.0,0.0 L3.0,0.0 L4.0,0.0Z", 10),
        "M0.0,0.0 L2.0,0.0 L4.0,0.0Z"
    );
    assert_eq!(
        simplify_paths(&strings(&["M5.0,5.0 L6.0,5.0 L7.0,5.0 L7.0,6.0 L7.0,7.0Z"]), 10),
        strings(&["M5.0,5.0 L7.0,5.0 L7.0,7.0Z"])
    );
    // One axis is enough.
    assert_eq!(simplify_svg_path("M0,0 L0,2 L1,3 L1,5 L-1,5", 10), "M0.0,0.0 L0.0,2.0 L1.0,5.0 L-1.0,5.0");
}

#[test]
fn dropped_points_leave_nothing_behind() {
    assert_eq!(simplify_svg_path("M0,0 L1,0 Z", 10), "M0.0,0.0 Z");
    assert_eq!(simplify_svg_path("M0,0L1,0L1,1L2,2Z", 10), "M0.0,0.0L2.0,2.0Z");
    assert_eq!(simplify_svg_path("M0,0 , ,\tL1,0,L3,3", 10), "M0.0,0.0,L3.0,3.0");
    assert_eq!(simplify_svg_path("M3.0,3.0 L4.0,3.0 L3.0,4.0 L4.0,4.0Z", 10), "M3.0,3.0Z");
}

#[test]
fn first_point_is_kept_whichever_command_gives_it() {
    assert_eq!(simplify_svg_path("L1,1 L2,2", 10), "L1.0,1.0");
    assert_eq!(simplify_svg_path("L1,1 L3,1", 10), "L1.0,1.0 L3.0,1.0");
    assert_eq!(simplify_svg_path("L3,0", 10), "L3.0,0.0");
    assert_eq!(simplify_svg_path("L0,0 L0.4,0.4", 10), "L0.0,0.0");
    assert_eq!(simplify_svg_path("  L0.2,0.2Z", 10), "  L0.0,0.0Z");
}

#[test]
fn move_points_are_always_kept() {
    assert_eq!(
        simplify_svg_path("M5,5 M5,5 M5.2,5.1 L5,5 L9,9", 10),
        "M5.0,5.0 M5.0,5.0 M5.0,5.0 L9.0,9.0"
    );
    assert_eq!(simplify_svg_path("M0.5,1.5", 10), "M1.0,2.0");
}

#[test]
fn kept_points_are_far_apart() {
    let path = "M0,0 L1,0 L2,1 L3,1 L3,2 L4,4 L5,4 L6,5 L40,40 L41,41 L42,42 L43,43";
    let out = simplify_svg_path(path, 10);
    assert_eq!(out, "M0.0,0.0 L2.0,1.0 L4.0,4.0 L6.0,5.0 L40.0,40.0 L42.0,42.0");
    let kept = [(0, 0), (2, 1), (4, 4), (6, 5), (40, 40), (42, 42)];
    for pair in kept.windows(2) {
        let (ax, ay): (i32, i32) = pair[0];
        let (bx, by): (i32, i32) = pair[1];
        assert!((ax - bx).abs() > 1 || (ay - by).abs() > 1);
    }
}

#[test]
fn halves_are_rounded_away_from_zero_on_the_grid() {
    assert_eq!(simplify_svg_path("M0.5,1.5", 10), "M1.0,2.0");
    assert_eq!(simplify_svg_path("M2.5,-2.5", 10), "M3.0,-3.0");
    assert_eq!(simplify_svg_path("M0.49,-0.51", 10), "M0.0,-1.0");
}

#[test]
fn halves_are_rounded_to_even_in_the_text() {
    // Precision 6.4: 1.25 -> 8 steps -> exactly 1.25; 3.75 -> 24 steps -> exactly 3.75.
    assert_eq!(simplify_svg_path("M1.25,3.75", 64), "M1.2,3.8");
    // Precision 0.8: 3 and 4 round to 2 and 3 steps, which are 2.5 and 3.75.
    assert_eq!(simplify_svg_path("M3,4", 8), "M2.5,3.8");
}

#[test]
fn sign_is_kept() {
    assert_eq!(simplify_svg_path("M-1.5,2.5 L-10,-20", 10), "M-2.0,3.0 L-10.0,-20.0");
    assert_eq!(simplify_svg_path("M-0.01,-0 L0.2,-0.3", 100), "M-0.0,-0.0 L0.2,-0.3");
}

#[test]
fn negative_precision_keeps_every_point() {
    // Precision -0.8: the threshold is negative.
    assert_eq!(simplify_svg_path("M0,0 L0,0 L0.1,0 L4,4", -8), "M0.0,0.0 L0.0,0.0 L0.0,0.0 L3.8,3.8");
    assert_eq!(
        simplify_paths(&strings(&["M0,0 L0,0 L0.1,0 L4,4"]), 12),
        strings(&["M0.0,0.0 L0.0,0.0 L0.0,0.0 L3.8,3.8"])
    );
}

#[test]
fn commands_that_are_no_numbers_are_copied() {
    assert_eq!(simplify_svg_path("M1.0,abc", 10), "M1.0,abc");
    assert_eq!(simplify_svg_path("Lx,y", 10), "Lx,y");
    assert_eq!(simplify_svg_path("M1.2.3,4 L5,6", 10), "M1.2.3,4 L5.0,6.0");
    assert_eq!(simplify_svg_path("M-,. L.,5 L5,-", 10), "M-,. L.,5 L5,-");
    assert_eq!(simplify_svg_path("M1-2,3 L--1,2 L1,2-", 10), "M1-2,3 L--1,2 L1,2-");
    assert_eq!(simplify_svg_path("M5 L6,6", 10), "M5 L6.0,6.0");
    assert_eq!(simplify_svg_path("M \t 7 ,\n,x", 10), "M \t 7 ,\n,x");
    assert_eq!(simplify_svg_path("M,1,2", 10), "M,1,2");
    assert_eq!(simplify_svg_path("M", 10), "M");
    assert_eq!(simplify_svg_path("MZ", 10), "MZ");
}

#[test]
fn failed_commands_leave_the_last_point() {
    assert_eq!(simplify_svg_path("M5,5 L9,x L5,6 L7,7", 10), "M5.0,5.0 L9,x L7.0,7.0");
}

#[test]
fn numbers_may_lack_a_part() {
    assert_eq!(simplify_svg_path("M5.,.5 L-.5,-5. L007,0.70", 100), "M5.0,0.5 L-0.5,-5.0 L7.0,0.7");
}

#[test]
fn numbers_of_any_size_are_rounded() {
    assert_eq!(
        simplify_svg_path("M1234567890123456789,1 L0.123456789012345678,2", 10),
        "M1234567890123456789.0,1.0 L0.0,2.0"
    );
    assert_eq!(
        simplify_svg_path("M99999999999999999999999999999.5,0.049999999999999999999999999999", 10),
        "M100000000000000000000000000000.0,0.0"
    );
    assert_eq!(
        simplify_svg_path("M123456789012345678901234567890.123456789,340282366920938463463374607431768211456", 73),
        "M123456789012345678901234567890.1,340282366920938463463374607431768211456.0"
    );
    assert_eq!(
        simplify_svg_path("M340282366920938463463374607431768211456,-0.000000000000000000000000000049", 19),
        "M340282366920938463463374607431768211455.8,-0.0"
    );
    assert_eq!(
        simplify_svg_path("M-77777777777777777777.77777777777777777777,0.05", -8),
        "M-77777777777777777777.5,0.0"
    );
}

#[test]
fn large_points_are_compared_exactly() {
    // One step apart at precision 1, however large: the second point goes.
    assert_eq!(
        simplify_svg_path("M99999999999999999999999999999,0 L100000000000000000000000000000,1 L100000000000000000000000000001,0", 10),
        "M99999999999999999999999999999.0,0.0 L100000000000000000000000000001.0,0.0"
    );
    assert_eq!(
        simplify_svg_path("M-1,0 L1,0 L0,0 L-1,0 L-3,0 L-2,-1", 10),
        "M-1.0,0.0 L1.0,0.0 L-1.0,0.0 L-3.0,0.0"
    );
    assert_eq!(simplify_svg_path("M0,0 L1,1 L-1,-1 L2,0", 10), "M0.0,0.0 L2.0,0.0");
}

#[test]
fn coordinates_are_written_in_one_form() {
    assert_eq!(simplify_svg_path("M 1 2 L\t3\n4L5 , 6 7 8", 10), "M1.0,2.0 L3.0,4.0L5.0,6.0 7 8");
    assert_eq!(simplify_svg_path("M\u{a0}\u{2003}1\u{3000},\u{2028}2", 10), "M1.0,2.0");
    assert_eq!(simplify_svg_path("M1,,, ,2", 10), "M1.0,2.0");
}

#[test]
fn other_characters_pass_through() {
    assert_eq!(simplify_svg_path("hello M1,1Z, ,L2,2 world", 10), "hello M1.0,1.0Z world");
    assert_eq!(simplify_svg_path("hello M1,1Z, ,L3,3 world", 10), "hello M1.0,1.0Z, ,L3.0,3.0 world");
    assert_eq!(simplify_svg_path("a b,c\td\u{e9}Z z", 10), "a b,c\td\u{e9}Z z");
    assert_eq!(simplify_svg_path(" , ", 10), " , ");
    assert_eq!(simplify_svg_path("", 10), "");
    assert_eq!(simplify_svg_path("ZZ", 10), "ZZ");
}

#[test]
fn traced_path_stays_a_path() {
    let path = "M3.0,3.0 L4.0,3.0 L3.0,4.0 L4.0,4.0Z";
    assert_eq!(simplify_svg_path(path, 91), "M3.0,3.0 L4.0,3.0 L3.0,4.0 L4.0,4.0Z");
    assert_eq!(simplify_svg_path(path, 19), "M3.2,3.2 L4.2,3.2 L3.2,4.2 L4.2,4.2Z");
    assert_eq!(simplify_svg_path(path, 10), "M3.0,3.0Z");
    assert_eq!(
        simplify_svg_path("M7.0,4.0 L8.0,4.0 L9.0,4.0 L10.0,5.0 L12.0,5.0 L12.0,6.0Z", 10),
        "M7.0,4.0 L9.0,4.0 L12.0,5.0Z"
    );
}
