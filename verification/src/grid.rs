//! Text to grids of characters: the lines of a text as rows, the cells by
//! their coordinates, and the tidying of indented text.
use vstd::prelude::*;
use std::collections::HashMap;
use vstd::std_specs::hash::obeys_key_model;

verus! {

/// `std::string::String::push`: appends one character to the string.
pub assume_specification[ String::push ](s: &mut String, c: char)
    ensures
        final(s)@ == old(s)@.push(c),
;

/// The number of characters before the first line feed of `s`, or its length
/// where it holds none.
pub open spec fn line_end(s: Seq<char>) -> nat
    decreases s.len(),
{
    if s.len() == 0 || s[0] == '\n' {
        0
    } else {
        1 + line_end(s.drop_first())
    }
}

/// `line` without the carriage return at its end, if it has one.
pub open spec fn without_cr(line: Seq<char>) -> Seq<char> {
    if line.len() > 0 && line.last() == '\r' {
        line.drop_last()
    } else {
        line
    }
}

/// The lines of `s`. A line ends at a line feed, or at a carriage return
/// followed by one, and neither belongs to the line; the last line may end
/// with the text, and an empty last line does not count.
pub open spec fn lines_of(s: Seq<char>) -> Seq<Seq<char>>
    decreases s.len(),
{
    if s.len() == 0 {
        Seq::empty()
    } else {
        let k = line_end(s);
        if k >= s.len() {
            seq![s]
        } else {
            seq![without_cr(s.take(k as int))] + lines_of(s.skip(k as int + 1))
        }
    }
}

/// The rows of a grid as sequences.
pub open spec fn rows_of(grid: Seq<Vec<char>>) -> Seq<Seq<char>> {
    Seq::new(grid.len(), |i: int| grid[i]@)
}

/// White space as Unicode defines it.
pub open spec fn is_space(c: char) -> bool {
    let u = c as u32;
    ||| 0x9 <= u <= 0xd
    ||| u == 0x20
    ||| u == 0x85
    ||| u == 0xa0
    ||| u == 0x1680
    ||| 0x2000 <= u <= 0x200a
    ||| u == 0x2028
    ||| u == 0x2029
    ||| u == 0x202f
    ||| u == 0x205f
    ||| u == 0x3000
}

/// `s` without the white space at its start.
pub open spec fn trim_start_of(s: Seq<char>) -> Seq<char>
    decreases s.len(),
{
    if s.len() > 0 && is_space(s[0]) {
        trim_start_of(s.drop_first())
    } else {
        s
    }
}

/// `s` without the white space at its end.
pub open spec fn trim_end_of(s: Seq<char>) -> Seq<char>
    decreases s.len(),
{
    if s.len() > 0 && is_space(s.last()) {
        trim_end_of(s.drop_last())
    } else {
        s
    }
}

/// `s` without the white space at its start and at its end.
pub open spec fn trim_of(s: Seq<char>) -> Seq<char> {
    trim_end_of(trim_start_of(s))
}

/// The lines joined into one text, a line feed between each two.
pub open spec fn joined(lines: Seq<Seq<char>>) -> Seq<char>
    decreases lines.len(),
{
    if lines.len() == 0 {
        Seq::empty()
    } else if lines.len() == 1 {
        lines[0]
    } else {
        joined(lines.drop_last()) + seq!['\n'] + lines.last()
    }
}

/// The text that `clean_test_input` makes of `s`: the lines of the trimmed
/// text, each trimmed, joined by line feeds.
pub open spec fn cleaned(s: Seq<char>) -> Seq<char> {
    joined(lines_of(trim_of(s)).map_values(|line: Seq<char>| trim_of(line)))
}

/// The cells of a grid by coordinates: row, then column.
pub open spec fn cells_of(rows: Seq<Seq<char>>) -> Map<(usize, usize), char> {
    Map::new(
        |k: (usize, usize)| k.0 < rows.len() && k.1 < rows[k.0 as int].len(),
        |k: (usize, usize)| rows[k.0 as int][k.1 as int],
    )
}

/// Where the first line feed stands at index `k`, the first line ends there.
proof fn lemma_line_end(s: Seq<char>, k: int)
    requires
        0 <= k <= s.len(),
        forall|j: int| 0 <= j < k ==> s[j] != '\n',
        k < s.len() ==> s[k] == '\n',
    ensures
        line_end(s) == k,
    decreases k,
{
    if k > 0 {
        lemma_line_end(s.drop_first(), k - 1);
    }
}

/// The characters of a text.
fn chars_of(input: &str) -> (v: Vec<char>)
    ensures
        v@ == input@,
{
    let mut v: Vec<char> = Vec::new();
    for c in it: input.chars()
        invariant
            v@ == it.seq().take(it.index() as int),
            it.seq() == input@,
    {
        v.push(c);
        assert(it.seq().take(it.index() + 1) =~= it.seq().take(it.index() as int).push(c));
    }
    assert(input@.take(input@.len() as int) =~= input@);
    v
}

/// The text that holds the characters `v`.
fn text_of(v: &Vec<char>) -> (s: String)
    ensures
        s@ == v@,
{
    let mut s = String::new();
    let mut i: usize = 0;
    while i < v.len()
        invariant
            i <= v.len(),
            s@ == v@.take(i as int),
        decreases v.len() - i,
    {
        s.push(v[i]);
        assert(v@.take(i + 1) =~= v@.take(i as int).push(v[i as int]));
        i += 1;
    }
    assert(v@.take(i as int) =~= v@);
    s
}

/// Whether `c` is white space.
fn space(c: char) -> (r: bool)
    ensures
        r == is_space(c),
{
    let u = c as u32;
    (0x9 <= u && u <= 0xd) || u == 0x20 || u == 0x85 || u == 0xa0 || u == 0x1680 || (0x2000 <= u
        && u <= 0x200a) || u == 0x2028 || u == 0x2029 || u == 0x202f || u == 0x205f || u == 0x3000
}

/// The stretch `lo..hi` of `v`.
fn stretch(v: &Vec<char>, lo: usize, hi: usize) -> (out: Vec<char>)
    requires
        lo <= hi <= v.len(),
    ensures
        out@ == v@.subrange(lo as int, hi as int),
{
    let mut out: Vec<char> = Vec::new();
    let mut i = lo;
    while i < hi
        invariant
            lo <= i <= hi <= v.len(),
            out@ == v@.subrange(lo as int, i as int),
        decreases hi - i,
    {
        out.push(v[i]);
        assert(v@.subrange(lo as int, i + 1) =~= v@.subrange(lo as int, i as int).push(
            v[i as int],
        ));
        i += 1;
    }
    out
}

/// `v` without the white space at its start and at its end.
fn trim(v: &Vec<char>) -> (out: Vec<char>)
    ensures
        out@ == trim_of(v@),
{
    let mut lo: usize = 0;
    assert(v@.skip(0) =~= v@);
    while lo < v.len() && space(v[lo])
        invariant
            lo <= v.len(),
            trim_start_of(v@) == trim_start_of(v@.skip(lo as int)),
        decreases v.len() - lo,
    {
        assert(v@.skip(lo as int).drop_first() =~= v@.skip(lo + 1));
        lo += 1;
    }
    let mut hi: usize = v.len();
    assert(v@.skip(lo as int) =~= v@.subrange(lo as int, hi as int));
    while hi > lo && space(v[hi - 1])
        invariant
            lo <= hi <= v.len(),
            trim_of(v@) == trim_end_of(v@.subrange(lo as int, hi as int)),
        decreases hi,
    {
        assert(v@.subrange(lo as int, hi as int).drop_last() =~= v@.subrange(lo as int, hi - 1));
        hi -= 1;
    }
    stretch(v, lo, hi)
}

/// The lines of the text `chars`.
fn split_lines(chars: &Vec<char>) -> (grid: Vec<Vec<char>>)
    ensures
        rows_of(grid@) == lines_of(chars@),
{
    let mut grid: Vec<Vec<char>> = Vec::new();
    let mut start: usize = 0;
    let mut i: usize = 0;
    assert(chars@.skip(0) =~= chars@);
    assert(rows_of(grid@) =~= Seq::<Seq<char>>::empty());
    while i < chars.len()
        invariant
            start <= i <= chars.len(),
            forall|j: int| start <= j < i ==> chars[j] != '\n',
            lines_of(chars@) == rows_of(grid@) + lines_of(chars@.skip(start as int)),
        decreases chars.len() - i,
    {
        if chars[i] == '\n' {
            let end = if i > start && chars[i - 1] == '\r' {
                i - 1
            } else {
                i
            };
            let line = stretch(chars, start, end);
            proof {
                let rest = chars@.skip(start as int);
                lemma_line_end(rest, i - start);
                assert(rest.take(i - start) =~= chars@.subrange(start as int, i as int));
                assert(line@ =~= without_cr(rest.take(i - start)));
                assert(rest.skip(i - start + 1) =~= chars@.skip(i + 1));
                assert(rows_of(grid@.push(line)) =~= rows_of(grid@) + seq![line@]);
            }
            grid.push(line);
            start = i + 1;
        }
        i += 1;
    }
    if start < chars.len() {
        let line = stretch(chars, start, chars.len());
        proof {
            let rest = chars@.skip(start as int);
            lemma_line_end(rest, rest.len() as int);
            assert(line@ =~= rest);
            assert(rows_of(grid@.push(line)) =~= rows_of(grid@) + seq![line@]);
        }
        grid.push(line);
    } else {
        assert(rows_of(grid@) + Seq::<Seq<char>>::empty() =~= rows_of(grid@));
    }
    grid
}

/// The lines of `input` as rows of characters.
pub fn str_to_char_grid(input: &str) -> (grid: Vec<Vec<char>>)
    ensures
        rows_of(grid@) == lines_of(input@),
{
    let chars = chars_of(input);
    split_lines(&chars)
}

/// A cell as the lists hold it: its coordinates, row first, and its character.
pub type CharCell = ((usize, usize), char);

/// The cell of `rows` in row `i` and column `j`.
pub open spec fn cell_at(rows: Seq<Seq<char>>, i: int, j: int) -> CharCell {
    ((i as usize, j as usize), rows[i][j])
}

/// The cells of row `i`, from the left.
pub open spec fn row_cells(rows: Seq<Seq<char>>, i: int) -> Seq<CharCell> {
    Seq::new(rows[i].len(), |j: int| cell_at(rows, i, j))
}

/// The cells of a grid in reading order: row by row, each from the left.
pub open spec fn cell_list(rows: Seq<Seq<char>>) -> Seq<CharCell>
    decreases rows.len(),
{
    if rows.len() == 0 {
        Seq::empty()
    } else {
        cell_list(rows.drop_last()) + row_cells(rows, rows.len() - 1)
    }
}

/// The map that holds each entry of `list` under its key; of two entries with
/// one key the later stays.
pub open spec fn map_of(list: Seq<CharCell>) -> Map<(usize, usize), char>
    decreases list.len(),
{
    if list.len() == 0 {
        Map::empty()
    } else {
        map_of(list.drop_last()).insert(list.last().0, list.last().1)
    }
}

/// `c` is a cell of `rows`: its coordinates lie in the grid and its character
/// is the one that stands there.
pub open spec fn is_cell(rows: Seq<Seq<char>>, c: CharCell) -> bool {
    let (i, j) = (c.0.0 as int, c.0.1 as int);
    i < rows.len() && j < rows[i].len() && c.1 == rows[i][j]
}

/// The rows and the columns of `rows` can be counted in a `usize`.
pub open spec fn countable(rows: Seq<Seq<char>>) -> bool {
    &&& rows.len() <= usize::MAX
    &&& forall|i: int| 0 <= i < rows.len() ==> (#[trigger] rows[i]).len() <= usize::MAX
}

/// Some entry of `list` stands under `key`.
pub open spec fn has_key(list: Seq<CharCell>, key: (usize, usize)) -> bool {
    exists|k: int| 0 <= k < list.len() && (#[trigger] list[k]).0 == key
}

/// The list of cells holds cells of the grid only, and each of them.
pub proof fn lemma_cell_list(rows: Seq<Seq<char>>)
    requires
        countable(rows),
    ensures
        forall|k: int|
            0 <= k < cell_list(rows).len() ==> is_cell(rows, #[trigger] cell_list(rows)[k]),
        forall|i: int, j: int|
            0 <= i < rows.len() && 0 <= j < rows[i].len() ==> cell_list(rows).contains(
                #[trigger] cell_at(rows, i, j),
            ),
    decreases rows.len(),
{
    if rows.len() > 0 {
        let n = rows.len() as int;
        let before = rows.drop_last();
        let head = cell_list(before);
        let tail = row_cells(rows, n - 1);
        let list = cell_list(rows);
        lemma_cell_list(before);
        assert forall|k: int| 0 <= k < list.len() implies is_cell(rows, #[trigger] list[k]) by {
            if k < head.len() {
                assert(is_cell(before, head[k]));
            } else {
                assert(list[k] == cell_at(rows, n - 1, k - head.len()));
            }
        }
        assert forall|i: int, j: int| 0 <= i < n && 0 <= j < rows[i].len() implies list.contains(
            #[trigger] cell_at(rows, i, j),
        ) by {
            if i < n - 1 {
                assert(head.contains(cell_at(before, i, j)));
                let k = head.index_of(cell_at(before, i, j));
                assert(list[k] == cell_at(rows, i, j));
            } else {
                assert(list[head.len() + j] == cell_at(rows, i, j));
            }
        }
    }
}

/// The map of a list of cells of a grid holds the keys of the list, each with
/// the character that stands there.
proof fn lemma_map_of_cells(rows: Seq<Seq<char>>, list: Seq<CharCell>)
    requires
        forall|k: int| 0 <= k < list.len() ==> is_cell(rows, #[trigger] list[k]),
    ensures
        forall|key: (usize, usize)| #[trigger]
            map_of(list).contains_key(key) <==> has_key(list, key),
        forall|key: (usize, usize)| #[trigger]
            map_of(list).contains_key(key) ==> map_of(list)[key] == rows[key.0 as int][key.1
                as int],
    decreases list.len(),
{
    if list.len() > 0 {
        let before = list.drop_last();
        let n = list.len() as int;
        assert forall|k: int| 0 <= k < before.len() implies is_cell(rows, #[trigger] before[k]) by {
            assert(before[k] == list[k]);
        }
        lemma_map_of_cells(rows, before);
        assert(is_cell(rows, list[n - 1]));
        assert(map_of(list) == map_of(before).insert(list[n - 1].0, list[n - 1].1));
        assert forall|key: (usize, usize)| #[trigger]
            map_of(list).contains_key(key) <==> has_key(list, key) by {
            if map_of(list).contains_key(key) && key != list[n - 1].0 {
                assert(has_key(before, key));
                let k = choose|k: int| 0 <= k < before.len() && (#[trigger] before[k]).0 == key;
                assert(list[k].0 == key);
            }
            if key == list[n - 1].0 {
                assert(list[n - 1].0 == key);
            }
            if has_key(list, key) {
                let k = choose|k: int| 0 <= k < list.len() && (#[trigger] list[k]).0 == key;
                if k < n - 1 {
                    assert(before[k].0 == key);
                    assert(has_key(before, key));
                }
            }
        }
    }
}

/// Filled from the cells in reading order, the map is that of the grid.
pub proof fn lemma_cells_fill_the_map(rows: Seq<Seq<char>>)
    requires
        countable(rows),
    ensures
        map_of(cell_list(rows)) == cells_of(rows),
{
    let list = cell_list(rows);
    lemma_cell_list(rows);
    lemma_map_of_cells(rows, list);
    assert forall|key: (usize, usize)| #[trigger]
        map_of(list).contains_key(key) <==> cells_of(rows).contains_key(key) by {
        if map_of(list).contains_key(key) {
            assert(has_key(list, key));
            let k = choose|k: int| 0 <= k < list.len() && (#[trigger] list[k]).0 == key;
            assert(is_cell(rows, list[k]));
        }
        if cells_of(rows).contains_key(key) {
            let c = cell_at(rows, key.0 as int, key.1 as int);
            assert(list.contains(c));
            let k = list.index_of(c);
            assert(list[k].0 == key);
            assert(has_key(list, key));
        }
    }
    assert(map_of(list) =~= cells_of(rows));
}

/// The cells of the lines of `input` in reading order: row by row, each from
/// the left, every cell with its row, its column and its character.
pub fn str_to_char_cells(input: &str) -> (cells: Vec<((usize, usize), char)>)
    ensures
        cells@ == cell_list(lines_of(input@)),
        countable(lines_of(input@)),
{
    let grid = str_to_char_grid(input);
    let ghost rows = rows_of(grid@);
    let mut cells: Vec<((usize, usize), char)> = Vec::new();
    let mut i: usize = 0;
    assert(rows.take(0) =~= Seq::<Seq<char>>::empty());
    while i < grid.len()
        invariant
            i <= grid.len(),
            rows == rows_of(grid@),
            cells@ == cell_list(rows.take(i as int)),
        decreases grid.len() - i,
    {
        let mut j: usize = 0;
        let ghost done = cells@;
        let ghost upto = rows.take(i + 1);
        proof {
            assert(upto.drop_last() =~= rows.take(i as int));
            assert(row_cells(upto, i as int).take(0) =~= Seq::<CharCell>::empty());
            assert(done + Seq::<CharCell>::empty() =~= done);
        }
        while j < grid[i].len()
            invariant
                i < grid.len(),
                j <= grid[i as int].len(),
                rows == rows_of(grid@),
                upto == rows.take(i + 1),
                cells@ == done + row_cells(upto, i as int).take(j as int),
            decreases grid[i as int].len() - j,
        {
            cells.push(((i, j), grid[i][j]));
            proof {
                let row = row_cells(upto, i as int);
                assert(row[j as int] == cell_at(upto, i as int, j as int));
                assert(row.take(j + 1) =~= row.take(j as int).push(row[j as int]));
                assert(cells@ =~= done + row.take(j + 1));
            }
            j += 1;
        }
        proof {
            let row = row_cells(upto, i as int);
            assert(row.take(j as int) =~= row);
        }
        i += 1;
    }
    proof {
        assert(rows.take(i as int) =~= rows);
        assert forall|a: int| 0 <= a < rows.len() implies (#[trigger] rows[a]).len()
            <= usize::MAX by {
            assert(rows[a] == grid@[a]@);
            assert(grid@[a]@.len() == grid@[a].len());
        }
    }
    cells
}

/// The characters of `input` by row and column: the cell `(i, j)` holds the
/// `j`-th character of the `i`-th line. The map is filled from the cells in
/// reading order.
pub fn str_to_char_map(input: &str) -> (map: HashMap<(usize, usize), char>)
    ensures
        obeys_key_model::<(usize, usize)>() ==> map@ == map_of(cell_list(lines_of(input@))),
        obeys_key_model::<(usize, usize)>() ==> map@ == cells_of(lines_of(input@)),
{
    let cells = str_to_char_cells(input);
    let mut map: HashMap<(usize, usize), char> = HashMap::new();
    let mut k: usize = 0;
    assert(cells@.take(0) =~= Seq::<CharCell>::empty());
    while k < cells.len()
        invariant
            k <= cells.len(),
            obeys_key_model::<(usize, usize)>() ==> map@ == map_of(cells@.take(k as int)),
        decreases cells.len() - k,
    {
        let (key, value) = cells[k];
        map.insert(key, value);
        proof {
            let upto = cells@.take(k + 1);
            assert(upto.drop_last() =~= cells@.take(k as int));
            assert(upto.last() == cells@[k as int]);
        }
        k += 1;
    }
    proof {
        assert(cells@.take(k as int) =~= cells@);
        lemma_cells_fill_the_map(lines_of(input@));
    }
    map
}

/// Trims `input`, trims each of its lines, and joins them by line feeds: what
/// an indented block of text stands for.
pub fn clean_test_input(input: &str) -> (out: String)
    ensures
        out@ == cleaned(input@),
{
    let chars = chars_of(input);
    let body = trim(&chars);
    let lines = split_lines(&body);
    let ghost rows = rows_of(lines@).map_values(|line: Seq<char>| trim_of(line));
    let mut text: Vec<char> = Vec::new();
    let mut k: usize = 0;
    assert(rows.take(0) =~= Seq::<Seq<char>>::empty());
    while k < lines.len()
        invariant
            k <= lines.len(),
            rows == rows_of(lines@).map_values(|line: Seq<char>| trim_of(line)),
            text@ == joined(rows.take(k as int)),
        decreases lines.len() - k,
    {
        let line = trim(&lines[k]);
        let ghost before = text@;
        if k > 0 {
            text.push('\n');
        }
        let mut j: usize = 0;
        let ghost head = text@;
        while j < line.len()
            invariant
                j <= line.len(),
                text@ == head + line@.take(j as int),
            decreases line.len() - j,
        {
            text.push(line[j]);
            assert(line@.take(j + 1) =~= line@.take(j as int).push(line[j as int]));
            j += 1;
        }
        proof {
            assert(line@.take(j as int) =~= line@);
            let upto = rows.take(k + 1);
            assert(upto.drop_last() =~= rows.take(k as int));
            assert(upto.last() == line@);
            if k == 0 {
                assert(text@ =~= line@);
            } else {
                assert(text@ =~= before + seq!['\n'] + line@);
            }
        }
        k += 1;
    }
    assert(rows.take(k as int) =~= rows);
    text_of(&text)
}

} // verus!
