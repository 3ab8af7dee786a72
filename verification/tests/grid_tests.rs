use algorithms::grid::{clean_test_input, str_to_char_cells, str_to_char_grid, str_to_char_map};

#[test]
fn grid_rows_are_the_lines() {
    assert_eq!(
        str_to_char_grid("ab\ncd"),
        vec![vec!['a', 'b'], vec!['c', 'd']]
    );
    assert_eq!(str_to_char_grid(""), Vec::<Vec<char>>::new());
    assert_eq!(str_to_char_grid("abc"), vec![vec!['a', 'b', 'c']]);
}

#[test]
fn grid_lines_end_as_std_lines_do() {
    let texts = [
        "",
        "\n",
        "a",
        "a\n",
        "a\n\n",
        "a\r\n",
        "a\r",
        "a\r\nb\r\n",
        "\r\n",
        "\r",
        "a\n\rb",
        "a\r\r\nb",
        "\n\n\n",
        "x\ny\n\nz",
        "é\nß\r\n✓",
    ];
    for text in texts.iter() {
        let expected: Vec<Vec<char>> = text.lines().map(|l| l.chars().collect()).collect();
        assert_eq!(str_to_char_grid(text), expected);
    }
}

#[test]
fn map_holds_each_cell_under_row_and_column() {
    let map = str_to_char_map("ab\nc\n\ndef");
    assert_eq!(map.len(), 6);
    assert_eq!(map.get(&(0, 0)), Some(&'a'));
    assert_eq!(map.get(&(0, 1)), Some(&'b'));
    assert_eq!(map.get(&(1, 0)), Some(&'c'));
    assert_eq!(map.get(&(3, 0)), Some(&'d'));
    assert_eq!(map.get(&(3, 2)), Some(&'f'));
    assert_eq!(map.get(&(2, 0)), None);
    assert_eq!(map.get(&(1, 1)), None);
    assert_eq!(str_to_char_map("").len(), 0);
}

#[test]
fn cells_come_in_reading_order() {
    assert_eq!(
        str_to_char_cells("ab\nc\n\ndef"),
        vec![
            ((0, 0), 'a'),
            ((0, 1), 'b'),
            ((1, 0), 'c'),
            ((3, 0), 'd'),
            ((3, 1), 'e'),
            ((3, 2), 'f')
        ]
    );
    assert_eq!(str_to_char_cells(""), vec![]);
    assert_eq!(str_to_char_cells("\n\n"), vec![]);
    assert_eq!(str_to_char_cells("x\r\n"), vec![((0, 0), 'x')]);
    let text = "#..#\n.##.\n#";
    let cells = str_to_char_cells(text);
    let map = str_to_char_map(text);
    assert_eq!(cells.len(), map.len());
    for (key, value) in cells.iter() {
        assert_eq!(map.get(key), Some(value));
    }
}

#[test]
fn clean_test_input_trims_the_text_and_each_line() {
    assert_eq!(clean_test_input("\n    ab\n    cd\n  "), "ab\ncd");
    assert_eq!(clean_test_input(""), "");
    assert_eq!(clean_test_input("   \n \t "), "");
    assert_eq!(clean_test_input("x"), "x");
    assert_eq!(clean_test_input(" a \r\n b "), "a\nb");
    assert_eq!(clean_test_input("a\n\n  b"), "a\n\nb");
    assert_eq!(clean_test_input("\u{a0}a\u{3000}\n\u{2003}b\u{85}"), "a\nb");
}

#[test]
fn clean_test_input_agrees_with_std() {
    let texts = [
        "\n        ####..####\n        #........#\n    ",
        "  a b  \n\tc\t\n",
        "one\r\n  two  \r\n three",
        " \u{1680}x\u{2028}y\u{205f} ",
        "\u{feff}a ",
        "a\u{b}b\u{c}\n c",
    ];
    for text in texts.iter() {
        let expected = text
            .trim()
            .lines()
            .map(str::trim)
            .collect::<Vec<&str>>()
            .join("\n");
        assert_eq!(clean_test_input(text), expected);
    }
}
