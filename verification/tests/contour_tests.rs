use svg_converter::contour::{trace_contour_points, Point};
use svg_converter::pathtext::{contour_path, prune_short_paths, trace_contours};
use svg_converter::raster::{GrayImage, Raster};

fn edge_map(rows: &[&str]) -> GrayImage {
    let height = rows.len() as u32;
    let width = rows[0].len() as u32;
    let mut cells = Vec::new();
    for row in rows {
        for c in row.chars() {
            cells.push(match c {
                '#' => 255,
                'w' => 128,
                'x' => 254,
                _ => 0,
            });
        }
    }
    Raster::from_cells(width, height, cells).unwrap()
}

fn points(list: &[(u32, u32)]) -> Vec<Point> {
    list.iter().map(|(x, y)| Point { x: *x, y: *y }).collect()
}

#[test]
fn four_pixel_cluster_is_one_contour() {
    let edges = edge_map(&["........", "........", "........", "...##...", "...##...", "........", "........"]);
    let found = trace_contour_points(&edges);
    assert_eq!(found, vec![points(&[(3, 3), (4, 3), (3, 4), (4, 4)])]);
    assert_eq!(trace_contours(&edges), vec!["M3.0,3.0 L4.0,3.0 L3.0,4.0 L4.0,4.0Z".to_string()]);
}

#[test]
fn walks_of_fewer_than_three_points_are_dropped() {
    let edges = edge_map(&["#....", ".....", "..##.", ".....", "....#"]);
    assert!(trace_contour_points(&edges).is_empty());
    assert!(trace_contours(&edges).is_empty());
}

#[test]
fn walk_takes_the_first_neighbour_in_scan_order() {
    // From the start at (2, 1) the neighbours are tried row by row: the
    // upper row has none, the same row has (3, 1), so the walk goes right
    // before it goes down.
    let edges = edge_map(&[".....", "..##.", ".##..", "....."]);
    assert_eq!(trace_contour_points(&edges), vec![points(&[(2, 1), (3, 1), (2, 2), (1, 2)])]);
}

#[test]
fn walk_prefers_the_upper_row() {
    let edges = edge_map(&["...#.", "..#..", "...#.", "....."]);
    // The scan meets (3, 0) first; its only neighbour is (2, 1); from there
    // the row above holds only the visited start, so the walk goes down.
    assert_eq!(trace_contour_points(&edges), vec![points(&[(3, 0), (2, 1), (3, 2)])]);
}

#[test]
fn walk_stops_where_no_neighbour_is_left() {
    // The walk from (0, 0) runs along the upper row and then has to choose:
    // it steps down to the left and leaves the pixels to the right behind
    // for a second walk.
    let edges = edge_map(&["####.##", "..#....", ".#.....", "......."]);
    assert_eq!(
        trace_contour_points(&edges),
        vec![points(&[(0, 0), (1, 0), (2, 0), (3, 0), (2, 1), (1, 2)])]
    );
}

#[test]
fn separate_clusters_give_separate_contours() {
    let edges = edge_map(&["###......", ".........", "......###", ".........", "#.#.#.#.#"]);
    assert_eq!(
        trace_contour_points(&edges),
        vec![points(&[(0, 0), (1, 0), (2, 0)]), points(&[(6, 2), (7, 2), (8, 2)])]
    );
}

#[test]
fn only_strong_pixels_are_walked() {
    let edges = edge_map(&["wwwww", "xxxxx", "#w#x#"]);
    assert!(trace_contour_points(&edges).is_empty());
    let edges = edge_map(&["wwwww", "x###x", "wwwww"]);
    assert_eq!(trace_contour_points(&edges), vec![points(&[(1, 1), (2, 1), (3, 1)])]);
}

#[test]
fn no_point_occurs_twice() {
    let rows = [
        "##########",
        "#.##..#..#",
        "###.##.###",
        "#..####..#",
        "##.#..#.##",
        "##########",
    ];
    let edges = edge_map(&rows);
    let found = trace_contour_points(&edges);
    assert!(!found.is_empty());
    let mut seen = Vec::new();
    for contour in found.iter() {
        assert!(contour.len() >= 3);
        for p in contour.iter() {
            assert_eq!(edges.get_pixel(p.x, p.y), 255);
            assert!(!seen.contains(p));
            seen.push(*p);
        }
    }
}

#[test]
fn walk_is_capped() {
    let width = 10_010u32;
    let mut edges: GrayImage = Raster::filled(width, 3, 0);
    for x in 2..10_008 {
        edges.put_pixel(x, 1, 255);
    }
    let found = trace_contour_points(&edges);
    assert_eq!(found.len(), 2);
    assert_eq!(found[0].len(), 10_001);
    assert_eq!(found[0][0], Point { x: 2, y: 1 });
    assert_eq!(found[0][10_000], Point { x: 10_002, y: 1 });
    assert_eq!(found[1], points(&[(10_003, 1), (10_004, 1), (10_005, 1), (10_006, 1), (10_007, 1)]));
}

#[test]
fn empty_edge_maps_have_no_contours() {
    let edges: GrayImage = Raster::filled(0, 0, 0);
    assert!(trace_contours(&edges).is_empty());
    let edges: GrayImage = Raster::filled(7, 5, 0);
    assert!(trace_contours(&edges).is_empty());
    let edges: GrayImage = Raster::filled(1, 3, 255);
    assert_eq!(trace_contours(&edges), vec!["M0.0,0.0 L0.0,1.0 L0.0,2.0Z".to_string()]);
}

#[test]
fn path_has_one_decimal_place_and_is_closed() {
    assert_eq!(contour_path(&points(&[(0, 0)])), "M0.0,0.0Z");
    assert_eq!(contour_path(&points(&[(12, 7), (13, 8)])), "M12.0,7.0 L13.0,8.0Z");
    assert_eq!(
        contour_path(&points(&[(0, 0), (10, 200), (4_294_967_295, 7), (1_000_000, 99)])),
        "M0.0,0.0 L10.0,200.0 L4294967295.0,7.0 L1000000.0,99.0Z"
    );
}

#[test]
fn short_paths_are_pruned() {
    let paths = vec![
        "M0.0,0.0 L1.0,1.0Z".to_string(),
        "12345678901234567890".to_string(),
        "123456789012345678901".to_string(),
        String::new(),
        "M0.0,0.0 L1.0,0.0 L2.0,0.0Z".to_string(),
    ];
    assert_eq!(
        prune_short_paths(&paths),
        vec!["123456789012345678901".to_string(), "M0.0,0.0 L1.0,0.0 L2.0,0.0Z".to_string()]
    );
}

#[test]
fn contours_are_chains_in_scan_order() {
    let rows = [
        "##########",
        "#.##..#..#",
        "###.##.###",
        "....#.....",
        "##.#..#.##",
        "##########",
        "..........",
        "###....###",
    ];
    let edges = edge_map(&rows);
    let found = trace_contour_points(&edges);
    assert!(found.len() >= 2);
    let place = |p: &Point| (p.y, p.x);
    for contour in found.iter() {
        for pair in contour.windows(2) {
            let dx = (pair[0].x as i64 - pair[1].x as i64).abs();
            let dy = (pair[0].y as i64 - pair[1].y as i64).abs();
            assert!(dx <= 1 && dy <= 1 && (dx, dy) != (0, 0));
        }
        for p in contour.iter().skip(1) {
            assert!(place(&contour[0]) < place(p));
        }
    }
    for pair in found.windows(2) {
        assert!(place(&pair[0][0]) < place(&pair[1][0]));
    }
}
