use table_widget::buffer::{Buffer, Rect};
use table_widget::layout::Constraint::{Length, Max, Min, Percentage, Ratio};
use table_widget::layout::{split, SegmentSize};
use table_widget::row::Row;
use table_widget::style::Style;
use table_widget::table::{aligned_offset, check_widths, gutter_width, HighlightSpacing, Table, TableState};
use table_widget::text::{Alignment, Cell};
use table_widget::viewport::row_bounds;

fn rows_of_heights(heights: &[u16]) -> Vec<Row> {
    heights.iter().map(|h| Row::new(vec![Cell::from("x")]).height(*h)).collect()
}

#[test]
fn split_stays_within_extent() {
    let cases = vec![
        vec![Length(10), Min(10), Max(10), Percentage(60), Ratio(2, 3)],
        vec![Min(30), Min(30)],
        vec![Length(0)],
        vec![],
    ];
    for cs in cases {
        for policy in [SegmentSize::Exact, SegmentSize::LastTakesRemainder, SegmentSize::EvenDistribution] {
            let segments = split(40, &cs, policy);
            assert_eq!(segments.len(), cs.len());
            let total: u32 = segments.iter().map(|s| s.1 as u32).sum();
            assert!(total <= 40);
            let mut offset = 0;
            for s in &segments {
                assert_eq!(s.0, offset);
                offset += s.1;
            }
        }
    }
}

#[test]
fn split_exact_leaves_slack_unused() {
    assert_eq!(split(10, &vec![Length(2), Length(3)], SegmentSize::Exact), vec![(0, 2), (2, 3)]);
}

#[test]
fn split_last_takes_all_slack() {
    assert_eq!(split(10, &vec![Length(2), Length(3)], SegmentSize::LastTakesRemainder), vec![(0, 2), (2, 8)]);
}

#[test]
fn split_even_levels_segments() {
    assert_eq!(split(10, &vec![Length(2), Length(2), Length(2)], SegmentSize::EvenDistribution), vec![(0, 4), (4, 3), (7, 3)]);
    assert_eq!(split(10, &vec![Min(2), Length(1), Min(2)], SegmentSize::EvenDistribution), vec![(0, 5), (5, 1), (6, 4)]);
}

#[test]
fn split_percent_rounds_boundaries() {
    assert_eq!(split(7, &vec![Percentage(30), Percentage(30)], SegmentSize::Exact), vec![(0, 2), (2, 2)]);
}

#[test]
fn split_rounds_ties_to_even() {
    assert_eq!(split(5, &vec![Percentage(50), Percentage(50)], SegmentSize::Exact), vec![(0, 2), (2, 3)]);
}

#[test]
fn split_floors_come_first() {
    assert_eq!(split(7, &vec![Min(4), Min(4)], SegmentSize::Exact), vec![(0, 4), (4, 3)]);
    assert_eq!(split(7, &vec![Min(4), Length(1), Min(4)], SegmentSize::Exact), vec![(0, 4), (4, 0), (4, 3)]);
}

#[test]
fn split_zero_denominator_counts_as_one() {
    assert_eq!(split(10, &vec![Ratio(1, 0)], SegmentSize::Exact), vec![(0, 10)]);
}

#[test]
fn widths_check() {
    assert!(check_widths(&vec![Percentage(100), Ratio(1, 3)]));
    assert!(!check_widths(&vec![Percentage(110)]));
    assert!(!check_widths(&vec![Ratio(1, 4294967291), Ratio(1, 4294967279), Ratio(1, 4294967231)]));
    assert!(check_widths(&vec![Ratio(1, 4_000_000_000), Ratio(1, 3_000_000_000), Ratio(1, 3_500_000_000)]));
}

#[test]
fn window_keeps_selection_visible() {
    let rows = rows_of_heights(&[1, 1, 1, 1, 1, 1]);
    for selected in 0..6 {
        for offset in 0..6 {
            let (start, end) = row_bounds(&rows, Some(selected), offset, 3);
            assert!(start <= selected && selected < end);
            assert!(end - start <= 3);
        }
    }
}

#[test]
fn window_moves_forward_minimally() {
    let rows = rows_of_heights(&[1, 1, 1, 1, 1, 1]);
    assert_eq!(row_bounds(&rows, Some(2), 0, 3), (0, 3));
    assert_eq!(row_bounds(&rows, Some(3), 0, 3), (1, 4));
    let tall = rows_of_heights(&[1, 2, 1, 1, 1]);
    assert_eq!(row_bounds(&tall, Some(2), 0, 3), (1, 3));
    assert_eq!(row_bounds(&tall, Some(3), 0, 3), (2, 4));
}

#[test]
fn window_moves_back_to_selection() {
    let rows = rows_of_heights(&[1, 1, 1, 1, 1, 1]);
    assert_eq!(row_bounds(&rows, Some(1), 4, 3), (1, 4));
    assert_eq!(row_bounds(&rows, None, 4, 3), (4, 6));
}

#[test]
fn window_offset_is_remembered() {
    let rows: Vec<Row> = (0..6).map(|_| Row::new(vec![Cell::from("x")])).collect();
    let table = Table::new(rows, vec![Length(3)]);
    let mut buf = Buffer::empty(Rect::new(0, 0, 3, 3));
    let mut state = TableState::new().with_selected(Some(4));
    table.render_stateful(Rect::new(0, 0, 3, 3), &mut buf, &mut state);
    assert_eq!(state.offset, 2);
    state.selected = Some(5);
    table.render_stateful(Rect::new(0, 0, 3, 3), &mut buf, &mut state);
    assert_eq!(state.offset, 3);
}

#[test]
fn gutter_follows_spacing_policy() {
    assert_eq!(gutter_width(HighlightSpacing::Always, false, 2), 2);
    assert_eq!(gutter_width(HighlightSpacing::WhenSelected, false, 2), 0);
    assert_eq!(gutter_width(HighlightSpacing::WhenSelected, true, 2), 2);
    assert_eq!(gutter_width(HighlightSpacing::Never, true, 2), 0);
}

#[test]
fn alignment_offsets() {
    assert_eq!(aligned_offset(Some(Alignment::Center), 15, 6), 4);
    assert_eq!(aligned_offset(Some(Alignment::Right), 15, 5), 10);
    assert_eq!(aligned_offset(Some(Alignment::Left), 15, 5), 0);
    assert_eq!(aligned_offset(Some(Alignment::Right), 3, 5), 0);
}

#[test]
fn wide_symbols_take_their_width() {
    let buf = Buffer::with_lines(vec!["日本"]);
    assert_eq!(buf.area.width, 4);
    assert_eq!(buf.get(0, 0).symbol, '日');
    assert_eq!(buf.get(1, 0).symbol, ' ');
    assert_eq!(buf.get(2, 0).symbol, '本');
}

#[test]
fn highlight_symbol_width_reserves_gutter() {
    let rows = vec![Row::new(vec![Cell::from("ab")])];
    let table = Table::new(rows, vec![Length(2)]).highlight_symbol("→→→").highlight_spacing(HighlightSpacing::Always);
    let mut buf = Buffer::empty(Rect::new(0, 0, 6, 1));
    table.render(Rect::new(0, 0, 6, 1), &mut buf);
    assert_eq!(buf, Buffer::with_lines(vec!["   ab "]));
}

#[test]
fn selected_row_is_highlighted() {
    let rows = vec![Row::new(vec![Cell::from("a")]), Row::new(vec![Cell::from("b")])];
    let table = Table::new(rows, vec![Length(1)]).highlight_symbol(">").highlight_style(Style::new().red());
    let mut buf = Buffer::empty(Rect::new(0, 0, 3, 2));
    let mut state = TableState::new().with_selected(Some(1));
    table.render_stateful(Rect::new(0, 0, 3, 2), &mut buf, &mut state);
    let mut expected = Buffer::with_lines(vec![" a ", ">b "]);
    expected.set_style(Rect::new(0, 1, 3, 1), Style::new().red());
    assert_eq!(buf, expected);
}

#[test]
fn split_even_levels_equal_percentages() {
    assert_eq!(
        split(10, &vec![Percentage(30), Percentage(30), Percentage(30)], SegmentSize::EvenDistribution),
        vec![(0, 4), (4, 3), (7, 3)]
    );
}

#[test]
fn split_even_cannot_level_an_overfull_extent() {
    assert_eq!(split(7, &vec![Length(5), Length(5)], SegmentSize::EvenDistribution), vec![(0, 5), (5, 2)]);
}

#[test]
fn window_stays_at_offset_without_selection() {
    let rows = rows_of_heights(&[1, 1, 1]);
    assert_eq!(row_bounds(&rows, None, 2, 10), (2, 3));
}

#[test]
fn window_rows_fit_without_selection() {
    let rows = rows_of_heights(&[2, 2, 2, 2]);
    for offset in 0..4 {
        let (start, end) = row_bounds(&rows, None, offset, 5);
        assert!(2 * (end - start) <= 5);
    }
}

#[test]
fn highlight_changes_only_the_selected_row() {
    let rows = vec![
        Row::new(vec![Cell::from("a")]),
        Row::new(vec![Cell::from("b")]),
        Row::new(vec![Cell::from("c")]),
    ];
    let base = Table::new(rows, vec![Length(1)]).header(Row::new(vec![Cell::from("h")]));
    let mut first = Buffer::empty(Rect::new(0, 0, 3, 4));
    let mut second = Buffer::empty(Rect::new(0, 0, 3, 4));
    let mut s1 = TableState::new().with_selected(Some(1));
    let mut s2 = TableState::new().with_selected(Some(1));
    base.clone().highlight_style(Style::new().red()).render_stateful(Rect::new(0, 0, 3, 4), &mut first, &mut s1);
    base.highlight_style(Style::new().blue()).render_stateful(Rect::new(0, 0, 3, 4), &mut second, &mut s2);
    for y in 0..4 {
        for x in 0..3 {
            if y == 2 {
                assert_ne!(first.get(x, y), second.get(x, y));
            } else {
                assert_eq!(first.get(x, y), second.get(x, y));
            }
        }
    }
}
