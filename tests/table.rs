use table_widget::block::{Block, Borders};
use table_widget::buffer::{Buffer, Rect};
use table_widget::layout::Constraint::{self, Length, Max, Min, Percentage, Ratio};
use table_widget::layout::SegmentSize;
use table_widget::row::Row;
use table_widget::style::{Color, Modifier, Style};
use table_widget::table::{HighlightSpacing, Table, TableState};
use table_widget::text::{Alignment, Cell, Line};

fn row(cells: &[&str]) -> Row {
    Row::new(cells.iter().map(|c| Cell::from(*c)).collect())
}

#[test]
fn new() {
    let rows = vec![Row::new(vec![Cell::from("")])];
    let widths = vec![Constraint::Percentage(100)];
    let table = Table::new(rows.clone(), widths.clone());
    assert_eq!(table.rows, rows);
    assert_eq!(table.widths, widths);
}

#[test]
fn widths() {
    let table = Table::default().widths(vec![Constraint::Length(100)]);
    assert_eq!(table.widths, [Constraint::Length(100)]);

    let table = Table::default().widths([Constraint::Length(100)].to_vec());
    assert_eq!(table.widths, [Constraint::Length(100)]);

    let table = Table::default().widths(vec![Constraint::Length(100)]);
    assert_eq!(table.widths, [Constraint::Length(100)]);

    let given = vec![Constraint::Length(100)];
    let table = Table::default().widths(given.clone());
    assert_eq!(table.widths, [Constraint::Length(100)]);

    let table = Table::default().widths([100].into_iter().map(Constraint::Length).collect());
    assert_eq!(table.widths, [Constraint::Length(100)]);
}

#[test]
fn rows() {
    let rows = vec![Row::new(vec![Cell::from("")])];
    let table = Table::default().rows(rows.clone());
    assert_eq!(table.rows, rows);
}

#[test]
fn column_spacing() {
    let table = Table::default().column_spacing(2);
    assert_eq!(table.column_spacing, 2);
}

#[test]
fn block() {
    let block = Block::default().title("Table").borders(Borders::ALL);
    let table = Table::default().block(block.clone());
    assert_eq!(table.block, Some(block));
}

#[test]
fn header() {
    let header = Row::new(vec![Cell::from("")]);
    let table = Table::default().header(header.clone());
    assert_eq!(table.header, Some(header));
}

#[test]
fn footer() {
    let footer = Row::new(vec![Cell::from("")]);
    let table = Table::default().footer(footer.clone());
    assert_eq!(table.footer, Some(footer));
}

#[test]
fn highlight_style() {
    let style = Style::default().red().italic();
    let table = Table::default().highlight_style(style);
    assert_eq!(table.highlight_style, style);
}

#[test]
fn highlight_symbol() {
    let table = Table::default().highlight_symbol(">>");
    assert_eq!(table.highlight_symbol, Some(">>".to_string()));
}

#[test]
fn highlight_spacing() {
    let table = Table::default().highlight_spacing(HighlightSpacing::Always);
    assert_eq!(table.highlight_spacing, HighlightSpacing::Always);
}

#[test]
fn widths_conversions() {
    let array = [Constraint::Percentage(100)];
    let table = Table::new(vec![], array.to_vec());
    assert_eq!(table.widths, vec![Constraint::Percentage(100)], "array");

    let array_ref = &[Constraint::Percentage(100)];
    let table = Table::new(vec![], array_ref.to_vec());
    assert_eq!(table.widths, vec![Constraint::Percentage(100)], "array ref");

    let vec = vec![Constraint::Percentage(100)];
    let slice = vec.as_slice();
    let table = Table::new(vec![], slice.to_vec());
    assert_eq!(table.widths, vec![Constraint::Percentage(100)], "slice");

    let vec = vec![Constraint::Percentage(100)];
    let table = Table::new(vec![], vec);
    assert_eq!(table.widths, vec![Constraint::Percentage(100)], "vec");

    let vec_ref = &vec![Constraint::Percentage(100)];
    let table = Table::new(vec![], vec_ref.clone());
    assert_eq!(table.widths, vec![Constraint::Percentage(100)], "vec ref");
}

#[test]
fn render_empty_area() {
    let mut buf = Buffer::empty(Rect::new(0, 0, 15, 3));
    let rows = vec![row(&["Cell1", "Cell2"])];
    let table = Table::new(rows, vec![Constraint::Length(5); 2]);
    table.render(Rect::new(0, 0, 0, 0), &mut buf);
    assert_eq!(buf, Buffer::empty(Rect::new(0, 0, 15, 3)));
}

#[test]
fn render_default() {
    let mut buf = Buffer::empty(Rect::new(0, 0, 15, 3));
    let table = Table::default();
    table.render(Rect::new(0, 0, 15, 3), &mut buf);
    assert_eq!(buf, Buffer::empty(Rect::new(0, 0, 15, 3)));
}

#[test]
fn render_with_block() {
    let mut buf = Buffer::empty(Rect::new(0, 0, 15, 3));
    let rows = vec![row(&["Cell1", "Cell2"]), row(&["Cell3", "Cell4"])];
    let block = Block::new().borders(Borders::ALL).title("Block");
    let table = Table::new(rows, vec![Constraint::Length(5); 2]).block(block);
    table.render(Rect::new(0, 0, 15, 3), &mut buf);
    let expected = Buffer::with_lines(vec!["┌Block────────┐", "│Cell1 Cell2  │", "└─────────────┘"]);
    assert_eq!(buf, expected);
}

#[test]
fn render_with_header() {
    let mut buf = Buffer::empty(Rect::new(0, 0, 15, 3));
    let header = row(&["Head1", "Head2"]);
    let rows = vec![row(&["Cell1", "Cell2"]), row(&["Cell3", "Cell4"])];
    let table = Table::new(rows, vec![Constraint::Length(5); 2]).header(header);
    table.render(Rect::new(0, 0, 15, 3), &mut buf);
    let expected = Buffer::with_lines(vec!["Head1 Head2    ", "Cell1 Cell2    ", "Cell3 Cell4    "]);
    assert_eq!(buf, expected);
}

#[test]
fn render_with_footer() {
    let mut buf = Buffer::empty(Rect::new(0, 0, 15, 3));
    let footer = row(&["Foot1", "Foot2"]);
    let rows = vec![row(&["Cell1", "Cell2"]), row(&["Cell3", "Cell4"])];
    let table = Table::new(rows, vec![Constraint::Length(5); 2]).footer(footer);
    table.render(Rect::new(0, 0, 15, 3), &mut buf);
    let expected = Buffer::with_lines(vec!["Cell1 Cell2    ", "Cell3 Cell4    ", "Foot1 Foot2    "]);
    assert_eq!(buf, expected);
}

#[test]
fn render_with_header_and_footer() {
    let mut buf = Buffer::empty(Rect::new(0, 0, 15, 3));
    let header = row(&["Head1", "Head2"]);
    let footer = row(&["Foot1", "Foot2"]);
    let rows = vec![row(&["Cell1", "Cell2"])];
    let table = Table::new(rows, vec![Constraint::Length(5); 2]).header(header).footer(footer);
    table.render(Rect::new(0, 0, 15, 3), &mut buf);
    let expected = Buffer::with_lines(vec!["Head1 Head2    ", "Cell1 Cell2    ", "Foot1 Foot2    "]);
    assert_eq!(buf, expected);
}

#[test]
fn render_with_header_margin() {
    let mut buf = Buffer::empty(Rect::new(0, 0, 15, 3));
    let header = row(&["Head1", "Head2"]).bottom_margin(1);
    let rows = vec![row(&["Cell1", "Cell2"]), row(&["Cell3", "Cell4"])];
    let table = Table::new(rows, vec![Constraint::Length(5); 2]).header(header);
    table.render(Rect::new(0, 0, 15, 3), &mut buf);
    let expected = Buffer::with_lines(vec!["Head1 Head2    ", "               ", "Cell1 Cell2    "]);
    assert_eq!(buf, expected);
}

#[test]
fn render_with_footer_margin() {
    let mut buf = Buffer::empty(Rect::new(0, 0, 15, 3));
    let footer = row(&["Foot1", "Foot2"]).top_margin(1);
    let rows = vec![row(&["Cell1", "Cell2"])];
    let table = Table::new(rows, vec![Constraint::Length(5); 2]).footer(footer);
    table.render(Rect::new(0, 0, 15, 3), &mut buf);
    let expected = Buffer::with_lines(vec!["Cell1 Cell2    ", "               ", "Foot1 Foot2    "]);
    assert_eq!(buf, expected);
}

#[test]
fn render_with_row_margin() {
    let mut buf = Buffer::empty(Rect::new(0, 0, 15, 3));
    let rows = vec![row(&["Cell1", "Cell2"]).bottom_margin(1), row(&["Cell3", "Cell4"])];
    let table = Table::new(rows, vec![Constraint::Length(5); 2]);
    table.render(Rect::new(0, 0, 15, 3), &mut buf);
    let expected = Buffer::with_lines(vec!["Cell1 Cell2    ", "               ", "Cell3 Cell4    "]);
    assert_eq!(buf, expected);
}

#[test]
fn render_with_alignment() {
    let mut buf = Buffer::empty(Rect::new(0, 0, 15, 3));
    let rows = vec![
        Row::new(vec![Cell::from(Line::from("Left").alignment(Alignment::Left))]),
        Row::new(vec![Cell::from(Line::from("Center").alignment(Alignment::Center))]),
        Row::new(vec![Cell::from(Line::from("Right").alignment(Alignment::Right))]),
    ];
    let table = Table::new(rows, vec![Percentage(100)]);
    table.render(Rect::new(0, 0, 15, 3), &mut buf);
    let expected = Buffer::with_lines(vec!["Left           ", "    Center     ", "          Right"]);
    assert_eq!(buf, expected);
}

#[test]
fn render_with_overflow_does_not_panic() {
    let mut buf = Buffer::empty(Rect::new(0, 0, 20, 3));
    let table = Table::new(vec![], vec![Constraint::Min(20); 1])
        .header(Row::new(vec![Cell::from(Line::from("").alignment(Alignment::Right))]))
        .footer(Row::new(vec![Cell::from(Line::from("").alignment(Alignment::Right))]));
    table.render(Rect::new(0, 0, 20, 3), &mut buf);
}

#[test]
fn render_with_selected() {
    let mut buf = Buffer::empty(Rect::new(0, 0, 15, 3));
    let rows = vec![row(&["Cell1", "Cell2"]), row(&["Cell3", "Cell4"])];
    let table = Table::new(rows, vec![Constraint::Length(5); 2])
        .highlight_style(Style::new().red())
        .highlight_symbol(">>");
    let mut state = TableState::new().with_selected(Some(0));
    table.render_stateful(Rect::new(0, 0, 15, 3), &mut buf, &mut state);
    let mut expected = Buffer::with_lines(vec![">>Cell1 Cell2  ", "  Cell3 Cell4  ", "               "]);
    expected.set_style(Rect::new(0, 0, 15, 1), Style::new().red());
    assert_eq!(buf, expected);
}

/// Builds a table with the given constraints and spare-width policy and checks
/// the `(x, width)` of its columns.
fn check_columns(
    constraints: &[Constraint],
    segment_size: SegmentSize,
    available_width: u16,
    selection_width: u16,
    expected: &[(u16, u16)],
) {
    let table = Table::new(vec![], constraints.to_vec()).segment_size(segment_size);
    let widths = table.get_columns_widths(available_width, selection_width);
    assert_eq!(widths, expected);
}

#[test]
fn length_constraint() {
    check_columns(&[Length(4), Length(4)], SegmentSize::Exact, 20, 0, &[(0, 4), (5, 4)]);
    check_columns(&[Length(4), Length(4)], SegmentSize::Exact, 20, 3, &[(3, 4), (8, 4)]);
    check_columns(&[Length(4), Length(4)], SegmentSize::Exact, 7, 0, &[(0, 4), (5, 2)]);
    check_columns(&[Length(4), Length(4)], SegmentSize::Exact, 7, 3, &[(3, 4), (7, 0)]);
}

#[test]
fn max_constraint() {
    check_columns(&[Max(4), Max(4)], SegmentSize::Exact, 20, 0, &[(0, 4), (5, 4)]);
    check_columns(&[Max(4), Max(4)], SegmentSize::Exact, 20, 3, &[(3, 4), (8, 4)]);
    check_columns(&[Max(4), Max(4)], SegmentSize::Exact, 7, 0, &[(0, 4), (5, 2)]);
    check_columns(&[Max(4), Max(4)], SegmentSize::Exact, 7, 3, &[(3, 3), (7, 0)]);
}

#[test]
fn min_constraint() {
    check_columns(&[Min(4), Min(4)], SegmentSize::Exact, 20, 0, &[(0, 4), (5, 4)]);
    check_columns(&[Min(4), Min(4)], SegmentSize::Exact, 20, 3, &[(3, 4), (8, 4)]);
    check_columns(&[Min(4), Min(4)], SegmentSize::Exact, 7, 0, &[(0, 4), (4, 3)]);
    check_columns(&[Min(4), Min(4)], SegmentSize::Exact, 7, 3, &[(0, 4), (4, 3)]);
}

#[test]
fn percentage_constraint() {
    check_columns(&[Percentage(30), Percentage(30)], SegmentSize::Exact, 20, 0, &[(0, 6), (7, 6)]);
    check_columns(&[Percentage(30), Percentage(30)], SegmentSize::Exact, 20, 3, &[(3, 6), (10, 6)]);
    check_columns(&[Percentage(30), Percentage(30)], SegmentSize::Exact, 7, 0, &[(0, 2), (3, 2)]);
    check_columns(&[Percentage(30), Percentage(30)], SegmentSize::Exact, 7, 3, &[(3, 2), (6, 1)]);
}

#[test]
fn ratio_constraint() {
    check_columns(&[Ratio(1, 3), Ratio(1, 3)], SegmentSize::Exact, 20, 0, &[(0, 7), (8, 6)]);
    check_columns(&[Ratio(1, 3), Ratio(1, 3)], SegmentSize::Exact, 20, 3, &[(3, 7), (11, 6)]);
    check_columns(&[Ratio(1, 3), Ratio(1, 3)], SegmentSize::Exact, 7, 0, &[(0, 2), (3, 3)]);
    check_columns(&[Ratio(1, 3), Ratio(1, 3)], SegmentSize::Exact, 7, 3, &[(3, 2), (6, 1)]);
}

#[test]
fn underconstrained() {
    let widths = [Min(10), Min(10), Min(1)];
    check_columns(&widths[..], SegmentSize::Exact, 62, 0, &[(0, 10), (11, 10), (22, 1)]);
    check_columns(&widths[..], SegmentSize::LastTakesRemainder, 62, 0, &[(0, 10), (11, 10), (22, 40)]);
    check_columns(&widths[..], SegmentSize::EvenDistribution, 62, 0, &[(0, 20), (21, 20), (42, 20)]);
}

#[test]
fn no_constraint_with_rows() {
    let table = Table::default()
        .rows(vec![row(&["a", "b"]), row(&["c", "d", "e"])])
        .header(row(&["f", "g"]))
        .footer(row(&["h", "i"]))
        .column_spacing(0);
    assert_eq!(table.get_columns_widths(30, 0), &[(0, 10), (10, 10), (20, 10)])
}

#[test]
fn no_constraint_with_header() {
    let table = Table::default().rows(vec![]).header(row(&["f", "g"])).column_spacing(0);
    assert_eq!(table.get_columns_widths(10, 0), &[(0, 5), (5, 5)])
}

#[test]
fn no_constraint_with_footer() {
    let table = Table::default().rows(vec![]).footer(row(&["h", "i"])).column_spacing(0);
    assert_eq!(table.get_columns_widths(10, 0), &[(0, 5), (5, 5)])
}

#[test]
fn stylize() {
    assert_eq!(
        Table::new(vec![Row::new(vec![Cell::from("")])], vec![Percentage(100)])
            .black()
            .on_white()
            .bold()
            .not_crossed_out()
            .style,
        Style::default()
            .fg(Color::Black)
            .bg(Color::White)
            .add_modifier(Modifier::BOLD)
            .remove_modifier(Modifier::CROSSED_OUT)
    )
}
