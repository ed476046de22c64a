use dirview::columns::{longest_entry, print_entries, render_entries};
use dirview::config::Config;
use dirview::entry::FormattedEntry;

const GRID: Config = Config { show_hidden: false, one_per_line: false, show_color: false };
const LINES: Config = Config { show_hidden: false, one_per_line: true, show_color: false };
const COLOR: Config = Config { show_hidden: false, one_per_line: false, show_color: true };
const COLOR_LINES: Config = Config { show_hidden: false, one_per_line: true, show_color: true };

fn plain(name: &str) -> FormattedEntry {
    FormattedEntry {
        raw_output: String::from(name),
        colored_output: format!("\x1b[0m{}\x1b[0m", name),
        is_hidden: name.starts_with('.'),
    }
}

fn blue(name: &str) -> FormattedEntry {
    FormattedEntry {
        raw_output: String::from(name),
        colored_output: format!("\x1b[34;1m{}\x1b[0m", name),
        is_hidden: name.starts_with('.'),
    }
}

fn plains(names: &[&str]) -> Vec<FormattedEntry> {
    names.iter().map(|n| plain(n)).collect()
}

#[test]
fn no_entries_no_output() {
    let none: Vec<FormattedEntry> = Vec::new();
    assert_eq!(render_entries(&none, &GRID, 80), "");
    assert_eq!(render_entries(&none, &LINES, 80), "");
    assert_eq!(render_entries(&none, &COLOR, 80), "");
    assert_eq!(render_entries(&none, &GRID, 0), "");
}

#[test]
fn longest_entry_is_the_longest_raw_name_in_bytes() {
    assert_eq!(longest_entry(&Vec::new()), 0);
    assert_eq!(longest_entry(&plains(&["a", "abc", "ab"])), 3);
    assert_eq!(longest_entry(&plains(&["\u{e9}\u{e9}", "abc"])), 4);
    // the colored text does not count
    assert_eq!(longest_entry(&vec![blue("ab")]), 2);
}

#[test]
fn two_names_share_one_row_of_a_wide_terminal() {
    let entries = vec![blue("Zebra"), plain("apple")];
    assert_eq!(render_entries(&entries, &GRID, 80), "Zebra   apple   \n");
}

#[test]
fn every_cell_is_as_wide_as_the_longest_name_and_the_gutter() {
    let entries = plains(&["a", "abcd", "ab"]);
    assert_eq!(render_entries(&entries, &GRID, 80), "a      abcd   ab     \n");
}

#[test]
fn a_row_ends_where_no_further_column_fits() {
    let entries = plains(&["aa", "bb", "cc", "dd", "ee"]);
    assert_eq!(render_entries(&entries, &GRID, 12), "aa   bb   \ncc   dd   \nee   \n");
    assert_eq!(render_entries(&entries, &GRID, 14), "aa   bb   \ncc   dd   \nee   \n");
    assert_eq!(render_entries(&entries, &GRID, 15), "aa   bb   cc   \ndd   ee   \n");
}

#[test]
fn columns_that_fill_the_terminal_exactly() {
    let entries = plains(&["aa", "bb", "cc", "dd"]);
    assert_eq!(render_entries(&entries, &GRID, 10), "aa   bb   \ncc   dd   \n");
}

#[test]
fn a_full_last_row_ends_with_one_newline() {
    let entries = plains(&["aa", "bb", "cc", "dd"]);
    assert_eq!(render_entries(&entries, &GRID, 11), "aa   bb   \ncc   dd   \n");
    let one_row = plains(&["aa", "bb"]);
    assert_eq!(render_entries(&one_row, &GRID, 10), "aa   bb   \n");
}

#[test]
fn one_column_where_two_do_not_fit() {
    let entries = plains(&["aa", "bb", "cc"]);
    assert_eq!(render_entries(&entries, &GRID, 9), "aa   \nbb   \ncc   \n");
    assert_eq!(render_entries(&entries, &GRID, 5), "aa   \nbb   \ncc   \n");
}

#[test]
fn a_cell_is_never_padded_beyond_the_terminal() {
    let entries = plains(&["aa", "b"]);
    assert_eq!(render_entries(&entries, &GRID, 4), "aa  \nb   \n");
    assert_eq!(render_entries(&entries, &GRID, 2), "aa\nb \n");
    assert_eq!(render_entries(&entries, &GRID, 1), "aa\nb\n");
}

#[test]
fn a_name_wider_than_the_terminal_is_printed_bare() {
    let entries = plains(&["abcdef", "x"]);
    assert_eq!(render_entries(&entries, &GRID, 3), "abcdef\nx  \n");
}

#[test]
fn a_terminal_of_no_width() {
    let entries = plains(&["a", "bc"]);
    assert_eq!(render_entries(&entries, &GRID, 0), "a\nbc\n");
}

#[test]
fn the_widest_terminal() {
    let entries = plains(&["a", "bc"]);
    assert_eq!(render_entries(&entries, &GRID, u16::MAX), "a    bc   \n");
}

#[test]
fn width_is_counted_in_bytes_of_the_raw_name() {
    // two bytes for the accented letter: four spaces bring it to six
    let entries = plains(&["\u{e9}", "abc"]);
    assert_eq!(render_entries(&entries, &GRID, 80), "\u{e9}    abc   \n");
}

#[test]
fn color_does_not_count_toward_the_width() {
    let entries = vec![blue("ab"), plain("c")];
    assert_eq!(
        render_entries(&entries, &COLOR, 80),
        "\x1b[34;1mab\x1b[0m   \x1b[0mc\x1b[0m    \n"
    );
    // the same cells, each on its own row
    assert_eq!(
        render_entries(&entries, &COLOR, 9),
        "\x1b[34;1mab\x1b[0m   \n\x1b[0mc\x1b[0m    \n"
    );
}

#[test]
fn colored_cells_are_capped_by_their_visible_width() {
    let entries = vec![blue("ab"), plain("c")];
    assert_eq!(
        render_entries(&entries, &COLOR, 4),
        "\x1b[34;1mab\x1b[0m  \n\x1b[0mc\x1b[0m   \n"
    );
}

#[test]
fn one_per_line_prints_bare_names() {
    let entries = vec![blue("Zebra"), plain("apple"), plain("b")];
    assert_eq!(render_entries(&entries, &LINES, 80), "Zebra\napple\nb\n");
    assert_eq!(render_entries(&entries, &LINES, 0), "Zebra\napple\nb\n");
}

#[test]
fn one_per_line_in_color() {
    let entries = vec![blue("Zebra"), plain("apple")];
    assert_eq!(
        render_entries(&entries, &COLOR_LINES, 80),
        "\x1b[34;1mZebra\x1b[0m\n\x1b[0mapple\x1b[0m\n"
    );
}

#[test]
fn lines_of_a_grid_are_whole_columns_long() {
    let entries = plains(&["a", "bbbb", "cc", "ddd", "e", "ff", "g"]);
    let out = render_entries(&entries, &GRID, 30);
    // a column is 7 wide; four of them fit
    let rows: Vec<&str> = out.lines().collect();
    assert_eq!(rows.len(), 2);
    for row in rows.iter() {
        assert_eq!(row.len() % 7, 0);
        assert!(row.len() <= 30);
    }
    assert_eq!(rows[0].len(), 28);
    assert_eq!(rows[1].len(), 21);
}

#[test]
fn rendering_twice_gives_the_same_text() {
    let entries = plains(&["a", "bbbb", "cc", "ddd"]);
    assert_eq!(render_entries(&entries, &GRID, 20), render_entries(&entries, &GRID, 20));
    assert_eq!(render_entries(&entries, &COLOR, 20), render_entries(&entries, &COLOR, 20));
}

#[test]
fn print_entries_one_per_line() {
    let entries = vec![blue("Zebra"), plain("apple")];
    assert_eq!(print_entries(entries, LINES), "Zebra\napple\n");
}

#[test]
fn print_entries_lays_out_for_the_terminal() {
    let width = match termsize::get() {
        Some(size) => size.cols,
        None => 80,
    };
    let entries = plains(&["a", "bbbb", "cc", "ddd", "e", "ff", "g"]);
    let expected = render_entries(&entries, &GRID, width);
    assert_eq!(print_entries(entries, GRID), expected);
}

#[test]
fn terminal_width_falls_back_to_eighty_columns() {
    assert_eq!(dirview::terminal::terminal_width(None), 80);
    assert_eq!(dirview::terminal::terminal_width(Some(132)), 132);
    assert_eq!(dirview::terminal::terminal_width(Some(0)), 0);
    assert_eq!(dirview::terminal::DEFAULT_TERMINAL_WIDTH, 80);
}

/// The grid written as a stream: each cell is put out as it comes, and a
/// running count of columns says when the line is full.
fn streamed(names: &[&str], width: usize) -> String {
    let longest = names.iter().map(|n| n.len()).max().unwrap_or(0);
    let column = longest + 3;
    let mut out = String::new();
    let mut used = 0;
    for name in names {
        out.push_str(name);
        let target = if width < column { width } else { column };
        for _ in name.len()..target {
            out.push(' ');
        }
        used += column;
        if width < used || width - used < column {
            out.push('\n');
            used = 0;
        }
    }
    if used != 0 {
        out.push('\n');
    }
    out
}

#[test]
fn the_grid_agrees_with_a_stream_of_cells() {
    let pool =
        ["a", "bb", "ccc", "dddd", "eeeee", "ffffff", "g", "hh", "\u{e9}t\u{e9}", "iiiiiiii"];
    for count in 0..=pool.len() {
        for start in 0..3 {
            let names: Vec<&str> = pool.iter().cycle().skip(start).take(count).copied().collect();
            for width in 0..=48u16 {
                assert_eq!(
                    render_entries(&plains(&names), &GRID, width),
                    streamed(&names, width as usize),
                    "{:?} at width {}",
                    names,
                    width
                );
            }
        }
    }
}
