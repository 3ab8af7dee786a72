use algorithms::grid::{clean_test_input, str_to_char_grid, str_to_char_map};
use algorithms::hull::convex_hull;
use algorithms::hull::polar::{candidates, farthest_per_ray, precedes, select_pivot, sort_by_angle};
use algorithms::hull::scan::scan;
use algorithms::hull::turn::{ccw, farther, turn_sign};

const SMALL_INPUT: &str = "
        ####..####
        #........#
        ###....###
        #........#
        ####..####
    ";

const SMALL_INPUT_EXPECTED: &str = "
        ####..####
        #.######.#
        ##########
        #.######.#
        ####..####
    ";

const LARGE_INPUT: &str = "
        ##############################
        ##############..##############
        ###########........###########
        ####......................####
        #####....................#####
        #............................#
        ####......................####
        #............................#
        #########..##....##..#########
        #####..##.....##.....##..#####
        ############..##..############
    ";

const LARGE_INPUT_EXPECTED: &str = "
        ##############################
        ##############..##############
        ##############################
        ####.####################.####
        ##############################
        #.##########################.#
        ##############################
        #.##########################.#
        ##############################
        #####.##################.#####
        ############.####.############
    ";

fn res_to_grid(res: &Vec<(usize, usize)>, width: usize, height: usize) -> Vec<Vec<char>> {
    let mut res = res.to_owned();
    res.sort();
    let mut chars: Vec<Vec<char>> = (0..height)
        .map(|_| (0..width).map(|_| '#').collect())
        .collect();
    for (x, y) in res {
        chars[x][y] = '.';
    }
    chars
}

/// Twice the signed area of a triangle, computed apart from the library.
fn cross(a: (usize, usize), b: (usize, usize), c: (usize, usize)) -> i128 {
    let (ax, ay) = (a.0 as i128, a.1 as i128);
    let (bx, by) = (b.0 as i128, b.1 as i128);
    let (cx, cy) = (c.0 as i128, c.1 as i128);
    (bx - ax) * (cy - ay) - (by - ay) * (cx - ax)
}

fn assert_is_hull(points: &Vec<(usize, usize)>, hull: &Vec<(usize, usize)>) {
    let n = hull.len();
    assert!(n >= 3);
    for p in hull.iter() {
        assert!(points.contains(p));
    }
    assert_eq!(hull[0], *points.iter().min().unwrap());
    for i in 0..n {
        let (a, b, c) = (hull[i], hull[(i + 1) % n], hull[(i + 2) % n]);
        assert!(cross(a, b, c) > 0);
        for q in points.iter() {
            assert!(cross(a, b, *q) >= 0);
        }
    }
}

#[test]
fn test_convex_hull_small() {
    let contents = clean_test_input(SMALL_INPUT);
    let test_input = str_to_char_grid(contents.as_str());
    let input = str_to_char_map(contents.as_str());
    let filtered = input
        .iter()
        .filter(|(_, &v)| v != '#')
        .map(|(k, _)| *k)
        .collect::<Vec<(usize, usize)>>();
    let result = convex_hull(&filtered);
    let result_grid = res_to_grid(&result, test_input[0].len(), test_input.len());

    let expected = clean_test_input(SMALL_INPUT_EXPECTED);
    let expected = str_to_char_grid(expected.as_str());
    assert_eq!(expected, result_grid);
    assert_eq!(
        vec![
            (0, 4),
            (1, 1),
            (3, 1),
            (4, 4),
            (4, 5),
            (3, 8),
            (1, 8),
            (0, 5)
        ],
        result
    );
}

#[test]
fn test_convex_hull_large() {
    let contents = clean_test_input(LARGE_INPUT);
    let test_input = str_to_char_grid(contents.as_str());
    let input = str_to_char_map(contents.as_str());
    let filtered = input
        .iter()
        .filter(|(_, &v)| v != '#')
        .map(|(k, _)| *k)
        .collect::<Vec<(usize, usize)>>();
    let result = convex_hull(&filtered);
    let result_grid = res_to_grid(&result, test_input[0].len(), test_input.len());

    result_grid.iter().for_each(|row| {
        println!("{}", row.into_iter().collect::<String>());
    });

    let expected = clean_test_input(LARGE_INPUT_EXPECTED);
    let expected = str_to_char_grid(expected.as_str());
    assert_eq!(expected, result_grid);
    assert_eq!(
        vec![
            (1, 14),
            (3, 4),
            (5, 1),
            (7, 1),
            (9, 5),
            (10, 12),
            (10, 17),
            (9, 24),
            (7, 28),
            (5, 28),
            (3, 25),
            (1, 15)
        ],
        result
    );
}

#[test]
fn hull_of_rectangle_with_centre_is_the_four_corners() {
    let points = vec![(0, 0), (0, 4), (4, 0), (4, 4), (2, 2)];
    let hull = convex_hull(&points);
    assert_eq!(hull, vec![(0, 0), (4, 0), (4, 4), (0, 4)]);
    assert_is_hull(&points, &hull);
}

#[test]
fn hull_of_three_collinear_points_drops_the_middle() {
    let hull = convex_hull(&vec![(0, 0), (1, 1), (2, 2)]);
    assert_eq!(hull, vec![(0, 0), (2, 2)]);
    let hull = convex_hull(&vec![(2, 2), (0, 0), (1, 1)]);
    assert_eq!(hull, vec![(0, 0), (2, 2)]);
}

#[test]
fn hull_of_fewer_than_three_points_is_the_input() {
    assert_eq!(convex_hull(&vec![]), vec![]);
    assert_eq!(convex_hull(&vec![(3, 7)]), vec![(3, 7)]);
    assert_eq!(convex_hull(&vec![(5, 1), (2, 9)]), vec![(5, 1), (2, 9)]);
    assert_eq!(convex_hull(&vec![(4, 4), (4, 4)]), vec![(4, 4), (4, 4)]);
}

#[test]
fn hull_holds_no_point_twice() {
    let points = vec![(0, 0), (0, 0), (3, 0), (3, 0), (0, 3), (0, 3), (0, 0), (1, 1)];
    let hull = convex_hull(&points);
    assert_eq!(hull, vec![(0, 0), (3, 0), (0, 3)]);
    assert_eq!(convex_hull(&vec![(1, 1), (1, 1), (1, 1)]), vec![(1, 1)]);
    assert_eq!(convex_hull(&vec![(0, 5), (1, 1), (2, 0)]), vec![(0, 5), (1, 1), (2, 0)]);
}

#[test]
fn hull_drops_points_on_its_edges() {
    let points = vec![(0, 0), (0, 1), (0, 2), (1, 2), (2, 2), (2, 1), (2, 0), (1, 0), (1, 1)];
    let hull = convex_hull(&points);
    assert_eq!(hull, vec![(0, 0), (2, 0), (2, 2), (0, 2)]);
    assert_is_hull(&points, &hull);
}

#[test]
fn hull_points_come_from_the_input_and_enclose_it() {
    let mut points: Vec<(usize, usize)> = Vec::new();
    let mut s: usize = 12345;
    for _ in 0..200 {
        s = (s * 1103515245 + 12345) % 2147483648;
        let x = (s >> 8) % 50;
        s = (s * 1103515245 + 12345) % 2147483648;
        let y = (s >> 8) % 50;
        points.push((x, y));
    }
    let hull = convex_hull(&points);
    assert_is_hull(&points, &hull);
    for i in 0..hull.len() {
        for j in 0..i {
            assert_ne!(hull[i], hull[j]);
        }
    }
}

#[test]
fn hull_of_a_hull_is_that_hull() {
    let points = vec![(5, 5), (1, 9), (9, 1), (0, 0), (3, 3), (9, 9), (4, 0), (0, 4), (7, 8)];
    let hull = convex_hull(&points);
    let again = convex_hull(&hull);
    assert_eq!(hull, again);
    let line = convex_hull(&vec![(1, 1), (3, 3), (2, 2), (5, 5)]);
    assert_eq!(line, vec![(1, 1), (5, 5)]);
    assert_eq!(convex_hull(&line), line);
}

#[test]
fn hull_is_exact_at_the_largest_coordinates() {
    let m = usize::MAX;
    let points = vec![(0, 0), (m, 0), (m, m), (0, m), (m / 2, m / 2), (m - 1, m - 1)];
    assert_eq!(convex_hull(&points), vec![(0, 0), (m, 0), (m, m), (0, m)]);
    let nearly = vec![(0, 0), (m, m - 1), (m - 1, m - 2), (1, 1)];
    assert_eq!(convex_hull(&nearly), vec![(0, 0), (m - 1, m - 2), (m, m - 1), (1, 1)]);
    let flat = vec![(0, 0), (m, m - 1), (m - 1, m - 2), (1, 0)];
    assert_eq!(convex_hull(&flat), vec![(0, 0), (1, 0), (m, m - 1)]);
}

#[test]
fn ccw_is_the_signed_area() {
    assert_eq!(ccw((0, 2), (1, 0), (2, 3)), 5);
    assert_eq!(ccw((0, 2), (2, 3), (1, 0)), -5);
    assert_eq!(ccw((0, 0), (1, 0), (1, 1)), 1);
    assert_eq!(ccw((0, 0), (1, 1), (1, 0)), -1);
    assert_eq!(ccw((0, 0), (1, 1), (2, 2)), 0);
    assert_eq!(ccw((2, 3), (2, 3), (7, 1)), 0);
    assert_eq!(ccw((0, 4), (1, 1), (3, 1)), 6);
    assert_eq!(ccw((0, 0), (4, 0), (0, 4)), 16);
    let m = i64::MAX as usize;
    assert_eq!(ccw((0, 0), (m, 0), (0, m)), (m as i128) * (m as i128));
    assert_eq!(ccw((m, m), (0, m), (m, 0)), (m as i128) * (m as i128));
    assert_eq!(ccw((m, m), (m, 0), (0, m)), -(m as i128) * (m as i128));
    assert_eq!(ccw((0, m), (m, 0), (m, m)), (m as i128) * (m as i128));
    assert_eq!(ccw((0, 0), (m, m - 1), (m - 1, m - 2)), -1);
    for a in [(0usize, 0usize), (3, 1), (1 << 25, 7)] {
        for b in [(5usize, 5usize), (1 << 25, 1 << 25), (2, 9)] {
            for c in [(9usize, 0usize), (0, 1 << 25), (4, 4)] {
                assert_eq!(ccw(a, b, c), cross(a, b, c));
                assert_eq!(ccw(a, c, b), -ccw(a, b, c));
                assert_eq!(turn_sign(a, b, c) as i128, ccw(a, b, c).signum());
            }
        }
    }
}

#[test]
fn turn_sign_is_the_sign_of_the_turn() {
    assert_eq!(turn_sign((0, 2), (1, 0), (2, 3)), 1);
    assert_eq!(turn_sign((0, 0), (1, 0), (1, 1)), 1);
    assert_eq!(turn_sign((0, 0), (1, 1), (1, 0)), -1);
    assert_eq!(turn_sign((0, 0), (1, 1), (2, 2)), 0);
    assert_eq!(turn_sign((2, 3), (2, 3), (7, 1)), 0);
    assert_eq!(turn_sign((0, 4), (1, 1), (3, 1)), 1);
    let m = usize::MAX;
    assert_eq!(turn_sign((0, 0), (m, m - 1), (m - 1, m - 2)), -1);
    assert_eq!(turn_sign((0, 0), (m - 1, m - 2), (m, m - 1)), 1);
    assert_eq!(turn_sign((m, m), (0, 0), (m, 0)), 1);
    assert_eq!(turn_sign((0, m), (m, 0), (m, m)), 1);
    assert_eq!(turn_sign((m, 0), (0, m), (m, m)), -1);
}

#[test]
fn farther_compares_squared_distances() {
    assert!(farther((0, 0), (3, 4), (4, 4)));
    assert!(!farther((0, 0), (3, 4), (4, 3)));
    assert!(!farther((0, 0), (5, 0), (3, 4)));
    assert!(farther((2, 2), (2, 2), (2, 3)));
    let m = usize::MAX;
    assert!(farther((0, 0), (m, m - 1), (m, m)));
    assert!(!farther((0, 0), (m, m), (m, m)));
    assert!(farther((m, m), (m, 0), (0, 0)));
}

#[test]
fn pivot_is_the_lexicographic_minimum() {
    assert_eq!(select_pivot(&vec![(3, 1), (1, 9), (1, 2), (2, 0)]), (1, 2));
    assert_eq!(select_pivot(&vec![(7, 7)]), (7, 7));
    assert_eq!(candidates(&vec![(1, 2), (3, 1), (1, 2), (1, 9)], (1, 2)), vec![(3, 1), (1, 9)]);
}

#[test]
fn sort_is_by_angle_then_distance() {
    let p0 = (0, 4);
    let sorted = sort_by_angle(p0, &vec![(0, 5), (4, 4), (2, 4), (1, 1), (3, 8), (3, 1), (1, 8)]);
    assert_eq!(sorted, vec![(1, 1), (3, 1), (2, 4), (4, 4), (3, 8), (1, 8), (0, 5)]);
    assert!(precedes(p0, (2, 4), (4, 4)));
    assert!(!precedes(p0, (4, 4), (2, 4)));
    assert!(precedes(p0, (1, 1), (0, 5)));
    assert!(precedes(p0, (2, 4), (2, 4)));
}

#[test]
fn each_ray_keeps_its_farthest_point() {
    let p0 = (0, 0);
    let sorted = sort_by_angle(p0, &vec![(2, 2), (1, 0), (3, 3), (2, 0), (0, 1), (0, 3), (1, 1)]);
    assert_eq!(farthest_per_ray(p0, &sorted), vec![(2, 0), (3, 3), (0, 3)]);
    assert_eq!(farthest_per_ray(p0, &vec![]), vec![]);
}

#[test]
fn scan_pops_what_does_not_turn_left() {
    let p0 = (0, 0);
    assert_eq!(scan(p0, &vec![]), vec![(0, 0)]);
    assert_eq!(scan(p0, &vec![(4, 1)]), vec![(0, 0), (4, 1)]);
    assert_eq!(
        scan(p0, &vec![(4, 0), (3, 1), (4, 4), (1, 3), (0, 4)]),
        vec![(0, 0), (4, 0), (4, 4), (0, 4)]
    );
}
