use algorithms::grid::str_to_char_grid;
use algorithms::subregions::{
    find_properties_of_subregions, get_adjacent, get_diagonal, is_same_region, RegionProperties,
};

const SMALL_INPUT: &str = "
        BBA
        AAA
        AAA
    ";

const COMPLEX_SMALL_INPUT: &str = "
        AAAAA
        ABBBA
        ABCBA
        ABBBA
        AAAAA
    ";

const LARGE_INPUT: &str = "
        AAAAAAAAAAAAAAAA
        AAAAAAAAAAAAAAAA
        AAAAAAAAAAAAAAAA
        AAAAAAAAAAAAAAAA
        AAAAAAAAAAAAAAAA
        AAAAAAAAAAAAAAAA
        AAAAAABBBBAAAAAA
        AAAAAABBBBAAAAAA
        AAAAAABBBBAAAAAA
        AAAAAABBBBAAAAAA
        AAAAAAAAAACCCAAA
        AAAAAAAAAACCCAAA
        AAAAAAAAAACCCAAA
        AAAAAAAAAAAAADDA
        AAAAAAAAAAAAADDA
        AAAAAAAAAAAAAAAE
    ";

#[test]
fn find_properties_of_sub_regions_small() {
    let contents = SMALL_INPUT
        .trim()
        .lines()
        .map(str::trim)
        .collect::<Vec<&str>>()
        .join("\n");
    let grid = str_to_char_grid(contents.as_str());
    let properties = find_properties_of_subregions(grid);

    assert_eq!(properties.len(), 2);
    assert_ne!(properties.get(&'A'), None);
    assert_ne!(properties.get(&'B'), None);

    let region_a = properties.get(&'A').unwrap();
    let region_b = properties.get(&'B').unwrap();

    assert_eq!(region_a.area, 7);
    assert_eq!(region_a.perimeter, 12);
    assert_eq!(region_a.sides, 6);

    assert_eq!(region_b.area, 2);
    assert_eq!(region_b.perimeter, 6);
    assert_eq!(region_b.sides, 4);
}

#[test]
fn find_properties_of_sub_regions_complex_small() {
    let contents = COMPLEX_SMALL_INPUT
        .trim()
        .lines()
        .map(str::trim)
        .collect::<Vec<&str>>()
        .join("\n");
    let grid = str_to_char_grid(contents.as_str());
    let properties = find_properties_of_subregions(grid);

    assert_eq!(properties.len(), 3);
    assert_ne!(properties.get(&'A'), None);
    assert_ne!(properties.get(&'B'), None);
    assert_ne!(properties.get(&'C'), None);

    let region_a = properties.get(&'A').unwrap();
    let region_b = properties.get(&'B').unwrap();
    let region_c = properties.get(&'C').unwrap();

    assert_eq!(region_a.area, 16);
    assert_eq!(region_a.perimeter, 32);
    assert_eq!(region_a.sides, 8);

    assert_eq!(region_b.area, 8);
    assert_eq!(region_b.perimeter, 16);
    assert_eq!(region_b.sides, 8);

    assert_eq!(region_c.area, 1);
    assert_eq!(region_c.perimeter, 4);
    assert_eq!(region_c.sides, 4);
}

#[test]
fn find_properties_of_sub_regions_large() {
    let contents = LARGE_INPUT
        .trim()
        .lines()
        .map(str::trim)
        .collect::<Vec<&str>>()
        .join("\n");
    let grid = str_to_char_grid(contents.as_str());
    let properties = find_properties_of_subregions(grid);

    assert_eq!(properties.len(), 5);
    assert_ne!(properties.get(&'A'), None);
    assert_ne!(properties.get(&'B'), None);
    assert_ne!(properties.get(&'C'), None);
    assert_ne!(properties.get(&'D'), None);
    assert_ne!(properties.get(&'E'), None);

    let region_a = properties.get(&'A').unwrap();
    let region_b = properties.get(&'B').unwrap();
    let region_c = properties.get(&'C').unwrap();
    let region_d = properties.get(&'D').unwrap();
    let region_e = properties.get(&'E').unwrap();

    assert_eq!(region_a.area, 226);
    assert_eq!(region_a.perimeter, 100);
    assert_eq!(region_a.sides, 18);

    assert_eq!(region_b.area, 16);
    assert_eq!(region_b.perimeter, 16);
    assert_eq!(region_b.sides, 4);

    assert_eq!(region_c.area, 9);
    assert_eq!(region_c.perimeter, 12);
    assert_eq!(region_c.sides, 4);

    assert_eq!(region_d.area, 4);
    assert_eq!(region_d.perimeter, 8);
    assert_eq!(region_d.sides, 4);

    assert_eq!(region_e.area, 1);
    assert_eq!(region_e.perimeter, 4);
    assert_eq!(region_e.sides, 4);
}

#[test]
fn new_region_properties_are_zero() {
    let p = RegionProperties::new();
    assert_eq!(p, RegionProperties { area: 0, perimeter: 0, sides: 0 });
}

#[test]
fn empty_grids_have_no_regions() {
    assert_eq!(find_properties_of_subregions(Vec::<Vec<u8>>::new()).len(), 0);
    assert_eq!(find_properties_of_subregions(vec![Vec::<u8>::new(), Vec::<u8>::new()]).len(), 0);
}

#[test]
fn the_region_read_last_is_the_one_reported() {
    let grid = vec![vec![1u64, 2, 1, 1], vec![2, 2, 2, 1], vec![1, 1, 2, 2]];
    let properties = find_properties_of_subregions(grid);
    assert_eq!(properties.len(), 2);
    assert_eq!(properties.get(&1), Some(&RegionProperties { area: 2, perimeter: 6, sides: 4 }));
    assert_eq!(properties.get(&2), Some(&RegionProperties { area: 6, perimeter: 14, sides: 12 }));
}

#[test]
fn cells_beyond_the_width_are_not_read() {
    let grid = vec![vec!['x', 'x'], vec!['x', 'y', 'z', 'z']];
    let properties = find_properties_of_subregions(grid);
    assert_eq!(properties.len(), 2);
    assert_eq!(properties.get(&'x'), Some(&RegionProperties { area: 3, perimeter: 8, sides: 6 }));
    assert_eq!(properties.get(&'y'), Some(&RegionProperties { area: 1, perimeter: 4, sides: 4 }));
    assert_eq!(properties.get(&'z'), None);
}

#[test]
fn neighbours_wrap_below_zero() {
    assert_eq!(get_adjacent(1, 1), [(0, 1), (1, 0), (2, 1), (1, 2)]);
    assert_eq!(get_adjacent(0, 0), [(usize::MAX, 0), (0, usize::MAX), (1, 0), (0, 1)]);
    assert_eq!(get_diagonal(1, 1), [(0, 0), (2, 0), (2, 2), (0, 2)]);
    assert_eq!(
        get_diagonal(0, 0),
        [(usize::MAX, usize::MAX), (1, usize::MAX), (1, 1), (usize::MAX, 1)]
    );
}

#[test]
fn same_region_needs_a_cell_and_its_label() {
    let grid = vec![vec!['a', 'b'], vec!['b', 'a']];
    assert!(is_same_region(&grid, 0, 0, &'a'));
    assert!(!is_same_region(&grid, 0, 1, &'a'));
    assert!(is_same_region(&grid, 1, 0, &'b'));
    assert!(!is_same_region(&grid, 2, 0, &'a'));
    assert!(!is_same_region(&grid, 0, 2, &'a'));
    assert!(!is_same_region(&grid, usize::MAX, 0, &'a'));
}
