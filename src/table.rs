//! The table widget: configuration, column planning, bands and drawing.
use vstd::prelude::*;
use crate::block::Block;
use crate::buffer::{
    inside, lemma_same_outside, lemma_string_local, lemma_styled_local, same_outside, str_width, str_width_of,
    string_written, styled_over, Buffer, BufferCell, Rect,
};
use crate::layout::{
    common_den, den_of, fits_exact, lemma_common_den_unit, prefix_sum, split, split_lengths, Constraint,
    SegmentSize,
};
use crate::row::Row;
use crate::style::{Color, Modifier, Style};
use crate::text::{Alignment, Cell, Line};
use crate::viewport::{heights, lemma_range_longer, lemma_window_fits, range_sum, row_bounds, window};

verus! {

/// When the column for the selection symbol is reserved.
#[derive(Debug, Clone, Copy, PartialEq, Eq, Hash)]
pub enum HighlightSpacing {
    /// Always, so the columns never move.
    Always,
    /// Only while a row is selected.
    WhenSelected,
    /// Never; the symbol is not drawn.
    Never,
}

impl HighlightSpacing {
    pub open spec fn spec_should_add(self, has_selection: bool) -> bool {
        match self {
            HighlightSpacing::Always => true,
            HighlightSpacing::WhenSelected => has_selection,
            HighlightSpacing::Never => false,
        }
    }

    /// Whether to reserve the selection column, given whether a row is selected.
    pub fn should_add(self, has_selection: bool) -> (r: bool)
        ensures
            r == self.spec_should_add(has_selection),
    {
        match self {
            HighlightSpacing::Always => true,
            HighlightSpacing::WhenSelected => has_selection,
            HighlightSpacing::Never => false,
        }
    }
}

impl Default for HighlightSpacing {
    fn default() -> (r: HighlightSpacing)
        ensures
            r == HighlightSpacing::WhenSelected,
    {
        HighlightSpacing::WhenSelected
    }
}

/// What a table remembers between frames: the first row shown and the selected row.
#[derive(Debug, Clone, Copy, PartialEq, Eq, Hash)]
pub struct TableState {
    pub offset: usize,
    pub selected: Option<usize>,
}

impl Default for TableState {
    fn default() -> (r: TableState)
        ensures
            r == (TableState { offset: 0, selected: None }),
    {
        TableState::new()
    }
}

impl TableState {
    /// Nothing scrolled, nothing selected.
    pub fn new() -> (r: TableState)
        ensures
            r == (TableState { offset: 0, selected: None }),
    {
        TableState { offset: 0, selected: None }
    }

    /// Sets the first row shown.
    pub fn with_offset(self, offset: usize) -> (r: TableState)
        ensures
            r == (TableState { offset, ..self }),
    {
        TableState { offset, ..self }
    }

    /// Sets the selected row.
    pub fn with_selected(self, selected: Option<usize>) -> (r: TableState)
        ensures
            r == (TableState { selected, ..self }),
    {
        TableState { selected, ..self }
    }

    /// The first row shown.
    pub fn offset(&self) -> (r: usize)
        ensures
            r == self.offset,
    {
        self.offset
    }

    /// The selected row, if any.
    pub fn selected(&self) -> (r: Option<usize>)
        ensures
            r == self.selected,
    {
        self.selected
    }

    /// Selects a row; clearing the selection also scrolls back to the top.
    pub fn select(&mut self, index: Option<usize>)
        ensures
            final(self).selected == index,
            final(self).offset == if index is None { 0 } else { old(self).offset },
    {
        self.selected = index;
        if index.is_none() {
            self.offset = 0;
        }
    }
}

/// A percentage constraint asks for at most the whole extent.
pub open spec fn percent_ok(c: Constraint) -> bool {
    match c {
        Constraint::Percentage(p) => p <= 100,
        _ => true,
    }
}

/// Column constraints a table accepts: percentages within `[0, 100]`, and
/// fractions whose positions can be computed exactly.
pub open spec fn widths_ok(ws: Seq<Constraint>) -> bool {
    fits_exact(ws) && forall|i: int| 0 <= i < ws.len() ==> percent_ok(#[trigger] ws[i])
}

/// Checks the column constraints that a table accepts.
pub fn check_widths(ws: &Vec<Constraint>) -> (r: bool)
    ensures
        r == widths_ok(ws@),
{
    percentages_within_100(ws) && common_den_fits(ws)
}

/// Demands that every percentage constraint lie within `[0, 100]`; a
/// configuration that breaks this is rejected before it is built.
pub fn ensure_percentages_less_than_100(ws: &Vec<Constraint>)
    requires
        forall|i: int| 0 <= i < ws@.len() ==> percent_ok(#[trigger] ws@[i]),
{
}

/// Whether every percentage constraint lies within `[0, 100]`.
pub fn percentages_within_100(ws: &Vec<Constraint>) -> (r: bool)
    ensures
        r == forall|i: int| 0 <= i < ws@.len() ==> percent_ok(#[trigger] ws@[i]),
{
    let mut i: usize = 0;
    while i < ws.len()
        invariant
            i <= ws.len(),
            forall|m: int| 0 <= m < i ==> percent_ok(#[trigger] ws@[m]),
        decreases ws.len() - i,
    {
        if let Constraint::Percentage(p) = ws[i] {
            if p > 100 {
                return false;
            }
        }
        i = i + 1;
    }
    true
}

fn common_den_fits(ws: &Vec<Constraint>) -> (r: bool)
    ensures
        r == fits_exact(ws@),
{
    let mut d: u128 = 1;
    let mut i: usize = 0;
    while i < ws.len()
        invariant
            i <= ws.len(),
            d as nat == common_den(ws@.take(i as int)),
            d <= 0xffff_ffff_ffff_ffff,
        decreases ws.len() - i,
    {
        let b: u128 = match ws[i] {
            Constraint::Percentage(_) => 100,
            Constraint::Ratio(_, q) => if q == 0 { 1 } else { q as u128 },
            _ => 1,
        };
        proof {
            assert(ws@.take(i as int + 1).drop_last() == ws@.take(i as int));
            assert(ws@.take(i as int + 1).last() == ws@[i as int]);
        }
        proof {
            crate::layout::lemma_den_positive(ws@[i as int]);
            crate::layout::lemma_gcd(d as nat, b as nat);
            vstd::arithmetic::div_mod::lemma_div_is_ordered_by_denominator(d as int, 1, crate::layout::gcd(d as nat, b as nat) as int);
            assert(b <= 0xffff_ffff);
        }
        let g = crate::layout::gcd_exec(d, b);
        let q = d / g;
        proof {
            assert(q * b <= 0xffff_ffff_ffff_ffffu128 * 0xffff_ffffu128) by (nonlinear_arith)
                requires q <= 0xffff_ffff_ffff_ffffu128, b <= 0xffff_ffffu128;
        }
        d = q * b;
        if d > 0xffff_ffff_ffff_ffff {
            proof {
                crate::layout::lemma_common_den_grows(ws@, i as int + 1);
            }
            return false;
        }
        i = i + 1;
    }
    proof {
        assert(ws@.take(ws@.len() as int) == ws@);
    }
    true
}

/// The constraints in order with `sep` between each two.
pub open spec fn spread(ws: Seq<Constraint>, sep: Constraint) -> Seq<Constraint> {
    Seq::new(
        if ws.len() == 0 { 0 } else { (2 * ws.len() - 1) as nat },
        |j: int| if j % 2 == 0 { ws[j / 2] } else { sep },
    )
}

/// Relies on itertools' `Itertools::intersperse`: the items in order with a
/// copy of `sep` between each two.
#[verifier::external_body]
fn intersperse(ws: &Vec<Constraint>, sep: Constraint) -> (r: Vec<Constraint>)
    ensures
        r@ == spread(ws@, sep),
{
    itertools::Itertools::intersperse(ws.iter().copied(), sep).collect()
}

/// Whole-unit separators leave the common denominator as it is.
proof fn lemma_spread_den(ws: Seq<Constraint>, first: Constraint, sep: Constraint)
    requires
        den_of(first) == 1,
        den_of(sep) == 1,
    ensures
        common_den(seq![first] + spread(ws, sep)) == common_den(ws),
    decreases ws.len(),
{
    let all = seq![first] + spread(ws, sep);
    let none = Seq::<Constraint>::empty();
    assert(common_den(none) == 1);
    assert(seq![first].drop_last() =~= none);
    crate::layout::lemma_lcm(1, 1);
    assert(common_den(seq![first]) == 1);
    if ws.len() == 0 {
        assert(all =~= seq![first]);
    } else if ws.len() == 1 {
        assert(all.drop_last() =~= seq![first]);
        assert(ws.drop_last() =~= none);
        assert(all.last() == ws.last());
        assert(common_den(ws) == common_den(all));
    } else {
        let pre = ws.drop_last();
        let inner = seq![first] + spread(pre, sep);
        lemma_spread_den(pre, first, sep);
        assert(all.drop_last() =~= inner.push(sep));
        assert(inner.push(sep).drop_last() =~= inner);
        assert(all.last() == ws.last());
        assert(inner.push(sep).last() == sep);
        crate::layout::lemma_common_den(inner);
        crate::layout::lemma_lcm(common_den(inner), 1);
        assert(common_den(inner.push(sep)) == common_den(inner));
    }
}

/// The most cells in any of the first `n` rows.
pub open spec fn max_cells(rows: Seq<Row>, n: int) -> int
    decreases n,
{
    if n <= 0 {
        0
    } else if rows[n - 1].cells@.len() > max_cells(rows, n - 1) {
        rows[n - 1].cells@.len() as int
    } else {
        max_cells(rows, n - 1)
    }
}

pub open spec fn optional_cells(row: Option<Row>) -> int {
    match row {
        Some(r) => r.cells@.len() as int,
        None => 0,
    }
}

/// The width of each of `count` equal columns over `max_width`, `spacing` apart.
pub open spec fn equal_width(max_width: int, spacing: int, count: int) -> int {
    let gaps = if count > 0 { spacing * (count - 1) } else { 0 };
    let room = if max_width > gaps { max_width - gaps } else { 0 };
    room / if count > 1 { count } else { 1 }
}

/// How many columns to show the selection symbol in, given its width.
pub open spec fn spec_gutter_width(spacing: HighlightSpacing, has_selection: bool, symbol_width: usize) -> int {
    if spacing.spec_should_add(has_selection) {
        if symbol_width > 0xffff { 0xffff } else { symbol_width as int }
    } else {
        0
    }
}

/// How many columns to reserve for the selection symbol, given the symbol's width.
pub fn gutter_width(spacing: HighlightSpacing, has_selection: bool, symbol_width: usize) -> (r: u16)
    ensures
        r as int == spec_gutter_width(spacing, has_selection, symbol_width),
{
    if spacing.should_add(has_selection) {
        if symbol_width > 0xffff { 0xffff } else { symbol_width as u16 }
    } else {
        0
    }
}

/// Where a line of `line_width` columns starts within `width` columns.
pub open spec fn spec_aligned_offset(alignment: Option<Alignment>, width: u16, line_width: usize) -> int {
    let spare = if line_width < width { width - line_width } else { 0 };
    match alignment {
        Some(Alignment::Center) => spare / 2,
        Some(Alignment::Right) => spare,
        _ => 0,
    }
}

/// Where a line of `line_width` columns starts within `width` columns.
pub fn aligned_offset(alignment: Option<Alignment>, width: u16, line_width: usize) -> (r: u16)
    ensures
        r as int == spec_aligned_offset(alignment, width, line_width),
        r <= width,
{
    let spare: u16 = if line_width < width as usize { width - line_width as u16 } else { 0 };
    match alignment {
        Some(Alignment::Center) => spare / 2,
        Some(Alignment::Right) => spare,
        _ => 0,
    }
}

fn sat_add(a: u16, b: u16) -> (r: u16)
    ensures
        r as int == if a + b > 0xffff { 0xffff } else { a + b },
{
    if a as u32 + b as u32 > 0xffff { 0xffff } else { a + b }
}

pub open spec fn top_margin_of(row: Option<Row>) -> u16 {
    match row {
        Some(r) => r.top_margin,
        None => 0,
    }
}

pub open spec fn height_of(row: Option<Row>) -> u16 {
    match row {
        Some(r) => r.height,
        None => 0,
    }
}

pub open spec fn bottom_margin_of(row: Option<Row>) -> u16 {
    match row {
        Some(r) => r.bottom_margin,
        None => 0,
    }
}

/// The lines of a cell from the `i`-th on drawn in `area`, one per line of
/// the area: each line's style over its line, then its text, aligned.
pub open spec fn lines_drawn(c: Seq<BufferCell>, grid: Rect, lines: Seq<Line>, area: Rect, i: int) -> Seq<BufferCell>
    decreases lines.len() - i,
{
    if i < 0 || i >= lines.len() || i >= area.height {
        c
    } else {
        let line = lines[i];
        let y = area.y + i;
        let lead = spec_aligned_offset(line.alignment, area.width, str_width_of(line.content@));
        let styled = styled_over(c, grid, Rect { x: area.x, y: y as u16, width: area.width, height: 1 }, line.style);
        lines_drawn(
            string_written(styled, grid, area.x + lead, y, line.content@, area.width - lead, Style::empty()),
            grid,
            lines,
            area,
            i + 1,
        )
    }
}

/// A cell drawn in `area`: its style over the whole area, then its lines.
pub open spec fn cell_drawn(c: Seq<BufferCell>, grid: Rect, cell: Cell, area: Rect) -> Seq<BufferCell> {
    lines_drawn(styled_over(c, grid, area, cell.style), grid, cell.content@, area, 0)
}

/// The cells from the `j`-th on drawn in their columns of `area`; cells
/// beyond the columns are dropped.
pub open spec fn cells_drawn(
    c: Seq<BufferCell>,
    grid: Rect,
    cells: Seq<Cell>,
    columns: Seq<(u16, u16)>,
    area: Rect,
    j: int,
) -> Seq<BufferCell>
    decreases cells.len() - j,
{
    if j < 0 || j >= cells.len() || j >= columns.len() {
        c
    } else {
        let r = Rect { x: (area.x + columns[j].0) as u16, y: area.y, width: columns[j].1, height: area.height };
        cells_drawn(cell_drawn(c, grid, cells[j], r), grid, cells, columns, area, j + 1)
    }
}

/// A header or footer row drawn in `area`: its style, then its cells.
pub open spec fn band_drawn(c: Seq<BufferCell>, grid: Rect, row: Row, area: Rect, columns: Seq<(u16, u16)>) -> Seq<BufferCell> {
    cells_drawn(styled_over(c, grid, area, row.style), grid, row.cells@, columns, area, 0)
}

/// The area fits in the coordinates a `u16` can address.
pub open spec fn addressable(area: Rect) -> bool {
    area.x + area.width <= 0xffff && area.y + area.height <= 0xffff
}

/// Draws a cell in `area`: its style over the whole area, then one line of
/// text per line of the area, each aligned and in its own style.
pub fn render_cell(cell: &Cell, area: Rect, buf: &mut Buffer)
    requires
        old(buf).wf(),
        addressable(area),
    ensures
        final(buf).wf(),
        final(buf).area == old(buf).area,
        same_outside(old(buf).content@, final(buf).content@, old(buf).area, area),
        final(buf).content@ == cell_drawn(old(buf).content@, old(buf).area, *cell, area),
{
    let ghost target = cell_drawn(old(buf).content@, old(buf).area, *cell, area);
    buf.set_style(area, cell.style);
    let mut i: usize = 0;
    while i < cell.content.len() && i < area.height as usize
        invariant
            buf.wf(),
            buf.area == old(buf).area,
            addressable(area),
            same_outside(old(buf).content@, buf.content@, old(buf).area, area),
            target == cell_drawn(old(buf).content@, old(buf).area, *cell, area),
            lines_drawn(buf.content@, buf.area, cell.content@, area, i as int) == target,
        decreases cell.content@.len() - i,
    {
        let line = &cell.content[i];
        let y = area.y + i as u16;
        let line_width = str_width(line.content.as_str());
        let lead = aligned_offset(line.alignment, area.width, line_width);
        let ghost before = buf.content@;
        buf.set_style(Rect { x: area.x, y, width: area.width, height: 1 }, line.style);
        proof {
            lemma_same_outside(before, buf.content@, buf.content@, buf.area, Rect { x: area.x, y, width: area.width, height: 1 }, area);
        }
        let ghost middle = buf.content@;
        buf.set_stringn(area.x + lead, y, line.content.as_str(), (area.width - lead) as usize, Style::new());
        proof {
            assert(same_outside(middle, buf.content@, buf.area, area));
        }
        i = i + 1;
    }
}

/// Draws a header or footer row: its style over `area`, then its cells in
/// the columns.
fn render_band(row: &Row, area: Rect, buf: &mut Buffer, columns: &Vec<(u16, u16)>)
    requires
        old(buf).wf(),
        addressable(area),
        forall|i: int| 0 <= i < columns@.len() ==> columns@[i].0 + columns@[i].1 <= area.width,
    ensures
        final(buf).wf(),
        final(buf).area == old(buf).area,
        same_outside(old(buf).content@, final(buf).content@, old(buf).area, area),
        final(buf).content@ == band_drawn(old(buf).content@, old(buf).area, *row, area, columns@),
{
    let ghost target = band_drawn(old(buf).content@, old(buf).area, *row, area, columns@);
    buf.set_style(area, row.style);
    let mut i: usize = 0;
    while i < columns.len() && i < row.cells.len()
        invariant
            buf.wf(),
            buf.area == old(buf).area,
            addressable(area),
            same_outside(old(buf).content@, buf.content@, old(buf).area, area),
            forall|i: int| 0 <= i < columns@.len() ==> columns@[i].0 + columns@[i].1 <= area.width,
            cells_drawn(buf.content@, buf.area, row.cells@, columns@, area, i as int) == target,
        decreases columns@.len() - i,
    {
        let (x, width) = columns[i];
        let cell_area = Rect { x: area.x + x, y: area.y, width, height: area.height };
        let ghost before = buf.content@;
        render_cell(&row.cells[i], cell_area, buf);
        proof {
            lemma_same_outside(before, buf.content@, buf.content@, buf.area, cell_area, area);
        }
        i = i + 1;
    }
}

proof fn lemma_lines_local(a: Seq<BufferCell>, b: Seq<BufferCell>, grid: Rect, big: Rect, lines: Seq<Line>, area: Rect, i: int)
    requires
        same_outside(a, b, grid, big),
        a.len() == grid.width * grid.height,
    ensures
        same_outside(lines_drawn(a, grid, lines, area, i), lines_drawn(b, grid, lines, area, i), grid, big),
        lines_drawn(a, grid, lines, area, i).len() == a.len(),
    decreases lines.len() - i,
{
    if 0 <= i < lines.len() && i < area.height {
        let line = lines[i];
        let y = area.y + i;
        let lead = spec_aligned_offset(line.alignment, area.width, str_width_of(line.content@));
        let r = Rect { x: area.x, y: y as u16, width: area.width, height: 1 };
        lemma_styled_local(a, b, grid, big, r, line.style);
        let sa = styled_over(a, grid, r, line.style);
        let sb = styled_over(b, grid, r, line.style);
        lemma_string_local(sa, sb, grid, big, area.x + lead, y, line.content@, area.width - lead, Style::empty());
        lemma_lines_local(
            string_written(sa, grid, area.x + lead, y, line.content@, area.width - lead, Style::empty()),
            string_written(sb, grid, area.x + lead, y, line.content@, area.width - lead, Style::empty()),
            grid,
            big,
            lines,
            area,
            i + 1,
        );
    }
}

proof fn lemma_cells_local(
    a: Seq<BufferCell>,
    b: Seq<BufferCell>,
    grid: Rect,
    big: Rect,
    cells: Seq<Cell>,
    columns: Seq<(u16, u16)>,
    area: Rect,
    j: int,
)
    requires
        same_outside(a, b, grid, big),
        a.len() == grid.width * grid.height,
    ensures
        same_outside(cells_drawn(a, grid, cells, columns, area, j), cells_drawn(b, grid, cells, columns, area, j), grid, big),
        cells_drawn(a, grid, cells, columns, area, j).len() == a.len(),
    decreases cells.len() - j,
{
    if 0 <= j < cells.len() && j < columns.len() {
        let r = Rect { x: (area.x + columns[j].0) as u16, y: area.y, width: columns[j].1, height: area.height };
        lemma_styled_local(a, b, grid, big, r, cells[j].style);
        lemma_lines_local(
            styled_over(a, grid, r, cells[j].style),
            styled_over(b, grid, r, cells[j].style),
            grid,
            big,
            cells[j].content@,
            r,
            0,
        );
        lemma_cells_local(
            cell_drawn(a, grid, cells[j], r),
            cell_drawn(b, grid, cells[j], r),
            grid,
            big,
            cells,
            columns,
            area,
            j + 1,
        );
    }
}

proof fn lemma_band_local(a: Seq<BufferCell>, b: Seq<BufferCell>, grid: Rect, big: Rect, row: Row, area: Rect, columns: Seq<(u16, u16)>)
    requires
        same_outside(a, b, grid, big),
        a.len() == grid.width * grid.height,
    ensures
        same_outside(band_drawn(a, grid, row, area, columns), band_drawn(b, grid, row, area, columns), grid, big),
        band_drawn(a, grid, row, area, columns).len() == a.len(),
{
    lemma_styled_local(a, b, grid, big, area, row.style);
    lemma_cells_local(
        styled_over(a, grid, area, row.style),
        styled_over(b, grid, area, row.style),
        grid,
        big,
        row.cells@,
        columns,
        area,
        0,
    );
}

/// The same table with another highlight style.
pub open spec fn with_highlight(t: Table, style: Style) -> Table {
    Table { highlight_style: style, ..t }
}

proof fn lemma_rows_len(
    t: Table,
    a: Seq<BufferCell>,
    grid: Rect,
    area: Rect,
    columns: Seq<(u16, u16)>,
    selected: Option<usize>,
    sw: u16,
    start: int,
    i: int,
    end: int,
)
    requires
        a.len() == grid.width * grid.height,
    ensures
        t.rows_drawn(a, grid, area, columns, selected, sw, start, i, end).len() == a.len(),
    decreases end - i,
{
    if 0 <= i < end && i < t.rows@.len() {
        let ra = t.row_area(area, start, i);
        t.lemma_row_local(t.highlight_style, t.highlight_style, a, a, grid, ra, t.rows@[i], ra, columns, (selected is Some && selected->0 as int == i), sw);
        assert(with_highlight(t, t.highlight_style) == t);
        lemma_rows_len(t, t.row_drawn(a, grid, t.rows@[i], ra, columns, (selected is Some && selected->0 as int == i), sw), grid, area, columns, selected, sw, start, i + 1, end);
    }
}

/// A table: rows of cells under an optional header and footer, laid out in
/// columns, scrolled to keep a selected row in view.
#[derive(Debug, Clone, PartialEq, Eq, Hash)]
pub struct Table {
    pub rows: Vec<Row>,
    pub header: Option<Row>,
    pub footer: Option<Row>,
    pub widths: Vec<Constraint>,
    pub column_spacing: u16,
    pub block: Option<Block>,
    pub style: Style,
    pub highlight_style: Style,
    pub highlight_symbol: Option<String>,
    pub highlight_spacing: HighlightSpacing,
    pub segment_size: SegmentSize,
}

impl Default for Table {
    fn default() -> (r: Table)
        ensures
            r.rows@.len() == 0,
            r.header is None,
            r.footer is None,
            r.widths@.len() == 0,
            r.column_spacing == 0,
            r.block is None,
            r.style == Style::empty(),
            r.highlight_style == Style::empty(),
            r.highlight_symbol is None,
            r.highlight_spacing == HighlightSpacing::WhenSelected,
            r.segment_size == SegmentSize::LastTakesRemainder,
    {
        Table {
            rows: Vec::new(),
            header: None,
            footer: None,
            widths: Vec::new(),
            column_spacing: 0,
            block: None,
            style: Style::new(),
            highlight_style: Style::new(),
            highlight_symbol: None,
            highlight_spacing: HighlightSpacing::WhenSelected,
            segment_size: SegmentSize::LastTakesRemainder,
        }
    }
}

impl Table {
    /// The configuration can be drawn: its column constraints are accepted.
    pub open spec fn wf(&self) -> bool {
        widths_ok(self.widths@)
    }

    /// A table of the given rows and column constraints, one unit between
    /// columns, and no spreading of spare width.
    pub fn new(rows: Vec<Row>, widths: Vec<Constraint>) -> (r: Table)
        requires
            widths_ok(widths@),
        ensures
            r.wf(),
            r.rows@ == rows@,
            r.widths@ == widths@,
            r.header is None,
            r.footer is None,
            r.column_spacing == 1,
            r.block is None,
            r.style == Style::empty(),
            r.highlight_style == Style::empty(),
            r.highlight_symbol is None,
            r.highlight_spacing == HighlightSpacing::WhenSelected,
            r.segment_size == SegmentSize::Exact,
    {
        ensure_percentages_less_than_100(&widths);
        Table {
            rows,
            header: None,
            footer: None,
            widths,
            column_spacing: 1,
            block: None,
            style: Style::new(),
            highlight_style: Style::new(),
            highlight_symbol: None,
            highlight_spacing: HighlightSpacing::WhenSelected,
            segment_size: SegmentSize::Exact,
        }
    }

    /// The number of columns when no constraints are given: the most cells
    /// in any row, the header or the footer.
    pub open spec fn column_count(&self) -> int {
        let a = max_cells(self.rows@, self.rows@.len() as int);
        let b = optional_cells(self.header);
        let c = optional_cells(self.footer);
        let ab = if a > b { a } else { b };
        if ab > c { ab } else { c }
    }

    /// The column constraints in use: the given ones, or else equal widths
    /// over `max_width`.
    pub open spec fn effective_widths(&self, max_width: u16) -> Seq<Constraint> {
        if self.widths@.len() == 0 {
            Seq::new(
                self.column_count() as nat,
                |i: int|
                    Constraint::Length(
                        equal_width(max_width as int, self.column_spacing as int, self.column_count()) as u16,
                    ),
            )
        } else {
            self.widths@
        }
    }

    /// The selection column, then the columns with a spacer between each two.
    pub open spec fn column_constraints(&self, max_width: u16, selection_width: u16) -> Seq<Constraint> {
        seq![Constraint::Length(selection_width)] + spread(
            self.effective_widths(max_width),
            Constraint::Length(self.column_spacing),
        )
    }

    /// Offset and width of each column over `max_width`.
    pub open spec fn column_layout(&self, max_width: u16, selection_width: u16) -> Seq<(int, int)> {
        let ls = split_lengths(self.column_constraints(max_width, selection_width), max_width as int, self.segment_size);
        Seq::new(self.effective_widths(max_width).len(), |i: int| (prefix_sum(ls, 2 * i + 1), ls[2 * i + 1]))
    }

    fn count_columns(&self) -> (r: usize)
        ensures
            r as int == self.column_count(),
    {
        let mut most: usize = 0;
        let mut i: usize = 0;
        while i < self.rows.len()
            invariant
                i <= self.rows@.len(),
                most as int == max_cells(self.rows@, i as int),
            decreases self.rows@.len() - i,
        {
            if self.rows[i].cells.len() > most {
                most = self.rows[i].cells.len();
            }
            i = i + 1;
        }
        match &self.header {
            Some(h) => {
                if h.cells.len() > most {
                    most = h.cells.len();
                }
            },
            None => {},
        }
        match &self.footer {
            Some(f) => {
                if f.cells.len() > most {
                    most = f.cells.len();
                }
            },
            None => {},
        }
        most
    }

    fn equal_widths(&self, max_width: u16) -> (r: Vec<Constraint>)
        ensures
            r@ == Seq::new(
                self.column_count() as nat,
                |i: int|
                    Constraint::Length(
                        equal_width(max_width as int, self.column_spacing as int, self.column_count()) as u16,
                    ),
            ),
    {
        let count = self.count_columns();
        let sp = self.column_spacing as u64;
        let room: u64 = if count <= 1 || sp == 0 {
            max_width as u64
        } else if count - 1 > 0xffff {
            proof {
                assert(sp * (count - 1) > max_width) by (nonlinear_arith)
                    requires sp >= 1, count - 1 > 0xffff, max_width <= 0xffff;
            }
            0
        } else {
            assert((sp as int) * ((count - 1) as int) <= 0xffff * 0xffff) by (nonlinear_arith)
                requires sp <= 0xffff, count - 1 <= 0xffff;
            let gaps = sp * ((count - 1) as u64);
            if max_width as u64 > gaps { max_width as u64 - gaps } else { 0 }
        };
        proof {
            if count == 1 {
                assert(self.column_spacing * (count - 1) == 0) by (nonlinear_arith)
                    requires count == 1;
            }
            if sp == 0 && count > 0 {
                assert(self.column_spacing * (count - 1) == 0) by (nonlinear_arith)
                    requires self.column_spacing == 0;
            }
        }
        let parts: u64 = if count > 1 { count as u64 } else { 1 };
        let each = (room / parts) as u16;
        let mut out: Vec<Constraint> = Vec::new();
        let mut i: usize = 0;
        while i < count
            invariant
                i <= count,
                count as int == self.column_count(),
                each as int == equal_width(max_width as int, self.column_spacing as int, self.column_count()),
                out@.len() == i,
                forall|m: int| 0 <= m < i ==> out@[m] == Constraint::Length(each),
            decreases count - i,
        {
            out.push(Constraint::Length(each));
            i = i + 1;
        }
        assert(out@ =~= Seq::new(
            self.column_count() as nat,
            |i: int|
                Constraint::Length(equal_width(max_width as int, self.column_spacing as int, self.column_count()) as u16),
        ));
        out
    }

    /// Offsets and widths of the columns over `max_width`, after a selection
    /// column of `selection_width`; offsets count from the left edge.
    pub fn get_columns_widths(&self, max_width: u16, selection_width: u16) -> (r: Vec<(u16, u16)>)
        requires
            self.wf(),
        ensures
            r@.len() == self.column_layout(max_width, selection_width).len(),
            forall|i: int|
                0 <= i < r@.len() ==> r@[i].0 as int == self.column_layout(max_width, selection_width)[i].0
                    && r@[i].1 as int == self.column_layout(max_width, selection_width)[i].1,
            forall|i: int| 0 <= i < r@.len() ==> r@[i].0 + r@[i].1 <= max_width,
            r@ == self.column_seq(max_width, selection_width),
    {
        let sep = Constraint::Length(self.column_spacing);
        let derived: Vec<Constraint> = if self.widths.len() == 0 { self.equal_widths(max_width) } else { Vec::new() };
        let columns: usize = if self.widths.len() == 0 { derived.len() } else { self.widths.len() };
        let mut spaced = if self.widths.len() == 0 { intersperse(&derived, sep) } else { intersperse(&self.widths, sep) };
        let mut cs: Vec<Constraint> = vec![Constraint::Length(selection_width)];
        cs.append(&mut spaced);
        let ghost ws = self.effective_widths(max_width);
        proof {
            assert(cs@ =~= self.column_constraints(max_width, selection_width));
            lemma_spread_den(ws, Constraint::Length(selection_width), sep);
            if self.widths@.len() == 0 {
                assert forall|i: int| 0 <= i < ws.len() implies den_of(#[trigger] ws[i]) == 1 by {}
                lemma_common_den_unit(ws);
            }
        }
        let segments = split(max_width, &cs, self.segment_size);
        let count = segments.len();
        let mut out: Vec<(u16, u16)> = Vec::new();
        let mut i: usize = 0;
        while i < columns
            invariant
                i <= columns,
                columns == ws.len(),
                segments@.len() == cs@.len(),
                count == segments@.len(),
                cs@ == self.column_constraints(max_width, selection_width),
                cs@.len() == if ws.len() == 0 { 1 } else { 2 * ws.len() },
                ws == self.effective_widths(max_width),
                out@.len() == i,
                forall|m: int|
                    0 <= m < segments@.len() ==> segments@[m].1 as int == split_lengths(cs@, max_width as int, self.segment_size)[m]
                        && segments@[m].0 as int == prefix_sum(split_lengths(cs@, max_width as int, self.segment_size), m),
                forall|m: int| 0 <= m < segments@.len() ==> segments@[m].0 + segments@[m].1 <= max_width,
                forall|m: int|
                    0 <= m < i ==> out@[m].0 as int == self.column_layout(max_width, selection_width)[m].0
                        && out@[m].1 as int == self.column_layout(max_width, selection_width)[m].1,
                forall|m: int| 0 <= m < i ==> out@[m].0 + out@[m].1 <= max_width,
            decreases columns - i,
        {
            out.push(segments[2 * i + 1]);
            i = i + 1;
        }
        proof {
            assert(out@ =~= self.column_seq(max_width, selection_width));
        }
        out
    }

    /// The vertical bands: header margin, header, header margin, body,
    /// footer margin, footer, footer margin.
    pub open spec fn band_constraints(&self) -> Seq<Constraint> {
        seq![
            Constraint::Length(top_margin_of(self.header)),
            Constraint::Length(height_of(self.header)),
            Constraint::Length(bottom_margin_of(self.header)),
            Constraint::Min(0),
            Constraint::Length(top_margin_of(self.footer)),
            Constraint::Length(height_of(self.footer)),
            Constraint::Length(bottom_margin_of(self.footer)),
        ]
    }

    /// The height left for the body rows in a table area of `height` lines.
    pub open spec fn body_height(&self, height: u16) -> int {
        split_lengths(self.band_constraints(), height as int, SegmentSize::EvenDistribution)[3]
    }

    /// The area inside the block, if there is one.
    pub open spec fn table_area(&self, area: Rect) -> Rect {
        match self.block {
            Some(b) => b.spec_inner(area),
            None => area,
        }
    }

    /// The offset remembered after drawing in `area` from `state`.
    pub open spec fn offset_after(&self, area: Rect, state: TableState) -> usize {
        let inner = self.table_area(area);
        if inner.width == 0 || inner.height == 0 || self.rows@.len() == 0 {
            state.offset
        } else {
            window(heights(self.rows@), state.selected, state.offset as int, self.body_height(inner.height)).0 as usize
        }
    }

    /// The width of the selection symbol, if any.
    pub open spec fn symbol_width(&self) -> usize {
        match self.highlight_symbol {
            Some(s) => crate::buffer::str_width_of(s@),
            None => 0,
        }
    }

    /// Splits the table area into header, body and footer; the body takes
    /// whatever the header and footer leave.
    fn layout(&self, area: Rect) -> (r: (Rect, Rect, Rect))
        requires
            area.y + area.height <= 0xffff,
        ensures
            r.0.width == area.width && r.1.width == area.width && r.2.width == area.width,
            r.0.x == area.x && r.1.x == area.x && r.2.x == area.x,
            inside(r.0, area) && inside(r.1, area) && inside(r.2, area),
            r.0.y == area.y + prefix_sum(split_lengths(self.band_constraints(), area.height as int, SegmentSize::EvenDistribution), 1),
            r.0.height == split_lengths(self.band_constraints(), area.height as int, SegmentSize::EvenDistribution)[1],
            r.1.y == area.y + prefix_sum(split_lengths(self.band_constraints(), area.height as int, SegmentSize::EvenDistribution), 3),
            r.1.height == self.body_height(area.height),
            r.2.y == area.y + prefix_sum(split_lengths(self.band_constraints(), area.height as int, SegmentSize::EvenDistribution), 5),
            r.2.height == split_lengths(self.band_constraints(), area.height as int, SegmentSize::EvenDistribution)[5],
            r.0.y + r.0.height <= r.1.y,
            r.1.y + r.1.height <= r.2.y,
            r.2.y + r.2.height <= area.y + area.height,
    {
        let (htm, hh, hbm) = match &self.header {
            Some(h) => (h.top_margin, h.height, h.bottom_margin),
            None => (0, 0, 0),
        };
        let (ftm, fh, fbm) = match &self.footer {
            Some(f) => (f.top_margin, f.height, f.bottom_margin),
            None => (0, 0, 0),
        };
        let cs = vec![
            Constraint::Length(htm),
            Constraint::Length(hh),
            Constraint::Length(hbm),
            Constraint::Min(0),
            Constraint::Length(ftm),
            Constraint::Length(fh),
            Constraint::Length(fbm),
        ];
        proof {
            assert(cs@ =~= self.band_constraints());
            assert forall|i: int| 0 <= i < cs@.len() implies den_of(#[trigger] cs@[i]) == 1 by {}
            lemma_common_den_unit(cs@);
        }
        let bands = split(area.height, &cs, SegmentSize::EvenDistribution);
        proof {
            let ls = split_lengths(cs@, area.height as int, SegmentSize::EvenDistribution);
            crate::layout::lemma_split_within(cs@, area.height as int, SegmentSize::EvenDistribution);
            crate::layout::lemma_prefix_mono(ls, 2, 3);
            crate::layout::lemma_prefix_mono(ls, 4, 5);
            assert(prefix_sum(ls, 2) == prefix_sum(ls, 1) + ls[1]);
            assert(prefix_sum(ls, 4) == prefix_sum(ls, 3) + ls[3]);
        }
        let header = Rect { x: area.x, y: area.y + bands[1].0, width: area.width, height: bands[1].1 };
        let body = Rect { x: area.x, y: area.y + bands[3].0, width: area.width, height: bands[3].1 };
        let footer = Rect { x: area.x, y: area.y + bands[5].0, width: area.width, height: bands[5].1 };
        (header, body, footer)
    }

    /// Columns reserved for the selection symbol in this state.
    fn selection_width(&self, state: &TableState) -> (r: u16)
        ensures
            r as int == spec_gutter_width(self.highlight_spacing, state.selected is Some, self.symbol_width()),
    {
        let symbol_width = match &self.highlight_symbol {
            Some(s) => str_width(s.as_str()),
            None => 0,
        };
        gutter_width(self.highlight_spacing, state.selected.is_some(), symbol_width)
    }

    /// The columns over `max_width` as `(offset, width)` pairs.
    pub open spec fn column_seq(&self, max_width: u16, selection_width: u16) -> Seq<(u16, u16)> {
        let l = self.column_layout(max_width, selection_width);
        Seq::new(l.len(), |i: int| (l[i].0 as u16, l[i].1 as u16))
    }

    /// Band `k` of the table area `ta` (1: header, 3: body, 5: footer).
    pub open spec fn band_rect(&self, ta: Rect, k: int) -> Rect {
        let ls = split_lengths(self.band_constraints(), ta.height as int, SegmentSize::EvenDistribution);
        Rect { x: ta.x, y: (ta.y + prefix_sum(ls, k)) as u16, width: ta.width, height: ls[k] as u16 }
    }

    proof fn lemma_row_local(
        &self,
        h1: Style,
        h2: Style,
        a: Seq<BufferCell>,
        b: Seq<BufferCell>,
        grid: Rect,
        big: Rect,
        row: Row,
        ra: Rect,
        columns: Seq<(u16, u16)>,
        selected: bool,
        sw: u16,
    )
        requires
            same_outside(a, b, grid, big),
            a.len() == grid.width * grid.height,
            selected ==> ra == big,
        ensures
            same_outside(
                with_highlight(*self, h1).row_drawn(a, grid, row, ra, columns, selected, sw),
                with_highlight(*self, h2).row_drawn(b, grid, row, ra, columns, selected, sw),
                grid,
                big,
            ),
            with_highlight(*self, h1).row_drawn(a, grid, row, ra, columns, selected, sw).len() == a.len(),
    {
        lemma_styled_local(a, b, grid, big, ra, row.style);
        let a1 = styled_over(a, grid, ra, row.style);
        let b1 = styled_over(b, grid, ra, row.style);
        let (a2, b2) = if sw > 0 && selected && ra.height > 0 && self.highlight_symbol is Some {
            let room = if sw < ra.width { sw } else { ra.width };
            lemma_string_local(a1, b1, grid, big, ra.x as int, ra.y as int, self.highlight_symbol->0@, room as int, row.style);
            (
                string_written(a1, grid, ra.x as int, ra.y as int, self.highlight_symbol->0@, room as int, row.style),
                string_written(b1, grid, ra.x as int, ra.y as int, self.highlight_symbol->0@, room as int, row.style),
            )
        } else {
            (a1, b1)
        };
        lemma_cells_local(a2, b2, grid, big, row.cells@, columns, ra, 0);
        let a3 = cells_drawn(a2, grid, row.cells@, columns, ra, 0);
        let b3 = cells_drawn(b2, grid, row.cells@, columns, ra, 0);
        if selected {
            assert(same_outside(styled_over(a3, grid, ra, h1), styled_over(b3, grid, ra, h2), grid, big));
        }
    }

    proof fn lemma_rows_local(
        &self,
        h1: Style,
        h2: Style,
        a: Seq<BufferCell>,
        b: Seq<BufferCell>,
        grid: Rect,
        area: Rect,
        columns: Seq<(u16, u16)>,
        selected: Option<usize>,
        sw: u16,
        start: int,
        i: int,
        end: int,
    )
        requires
            selected is Some,
            same_outside(a, b, grid, self.row_area(area, start, selected->0 as int)),
            a.len() == grid.width * grid.height,
        ensures
            same_outside(
                with_highlight(*self, h1).rows_drawn(a, grid, area, columns, selected, sw, start, i, end),
                with_highlight(*self, h2).rows_drawn(b, grid, area, columns, selected, sw, start, i, end),
                grid,
                self.row_area(area, start, selected->0 as int),
            ),
        decreases end - i,
    {
        if 0 <= i < end && i < self.rows@.len() {
            let t1 = with_highlight(*self, h1);
            let big = self.row_area(area, start, selected->0 as int);
            let ra = self.row_area(area, start, i);
            assert(t1.row_area(area, start, i) == ra);
            self.lemma_row_local(h1, h2, a, b, grid, big, self.rows@[i], ra, columns, (selected is Some && selected->0 as int == i), sw);
            self.lemma_rows_local(
                h1,
                h2,
                t1.row_drawn(a, grid, self.rows@[i], ra, columns, (selected is Some && selected->0 as int == i), sw),
                with_highlight(*self, h2).row_drawn(b, grid, self.rows@[i], ra, columns, (selected is Some && selected->0 as int == i), sw),
                grid,
                area,
                columns,
                selected,
                sw,
                start,
                i + 1,
                end,
            );
        }
    }

    /// Another highlight style changes only the cells of the selected row's
    /// area: every other row, the header and the footer are drawn the same.
    pub proof fn lemma_highlight_stays_on_row(
        &self,
        h1: Style,
        h2: Style,
        c: Seq<BufferCell>,
        grid: Rect,
        ta: Rect,
        state: TableState,
    )
        requires
            c.len() == grid.width * grid.height,
            state.selected is Some,
        ensures
            same_outside(
                with_highlight(*self, h1).table_drawn(c, grid, ta, state),
                with_highlight(*self, h2).table_drawn(c, grid, ta, state),
                grid,
                self.row_area(
                    self.band_rect(ta, 3),
                    window(
                        heights(self.rows@),
                        state.selected,
                        state.offset as int,
                        self.band_rect(ta, 3).height as int,
                    ).0,
                    state.selected->0 as int,
                ),
            ),
    {
        if !(ta.width == 0 || ta.height == 0) {
            let t1 = with_highlight(*self, h1);
            let sw = spec_gutter_width(self.highlight_spacing, state.selected is Some, self.symbol_width()) as u16;
            let cols = self.column_seq(ta.width, sw);
            let body = self.band_rect(ta, 3);
            let w = window(heights(self.rows@), state.selected, state.offset as int, body.height as int);
            let big = self.row_area(body, w.0, state.selected->0 as int);
            assert(t1.column_seq(ta.width, sw) == cols);
            assert(t1.band_rect(ta, 3) == body);
            let c1 = if self.header is Some {
                band_drawn(c, grid, self.header->0, self.band_rect(ta, 1), cols)
            } else {
                c
            };
            if self.header is Some {
                lemma_band_local(c, c, grid, big, self.header->0, self.band_rect(ta, 1), cols);
            }
            self.lemma_rows_local(h1, h2, c1, c1, grid, body, cols, state.selected, sw, w.0, w.0, w.1);
            let ca = if self.rows@.len() == 0 { c1 } else { t1.rows_drawn(c1, grid, body, cols, state.selected, sw, w.0, w.0, w.1) };
            let cb = if self.rows@.len() == 0 {
                c1
            } else {
                with_highlight(*self, h2).rows_drawn(c1, grid, body, cols, state.selected, sw, w.0, w.0, w.1)
            };
            lemma_rows_len(t1, c1, grid, body, cols, state.selected, sw, w.0, w.0, w.1);
            if self.footer is Some {
                lemma_band_local(ca, cb, grid, big, self.footer->0, self.band_rect(ta, 5), cols);
            }
        }
    }

    /// The block, if there is one, drawn over `area`.
    pub open spec fn framed(&self, c: Seq<BufferCell>, grid: Rect, area: Rect) -> Seq<BufferCell> {
        match self.block {
            Some(b) => b.block_drawn(c, grid, area),
            None => c,
        }
    }

    /// The table drawn in the table area `ta` from `state`: the header in
    /// its band, the rows of the window in the body, the footer in its band,
    /// all in the same columns. Nothing is drawn in an empty area.
    pub open spec fn table_drawn(&self, c: Seq<BufferCell>, grid: Rect, ta: Rect, state: TableState) -> Seq<BufferCell> {
        if ta.width == 0 || ta.height == 0 {
            c
        } else {
            let sw = spec_gutter_width(self.highlight_spacing, state.selected is Some, self.symbol_width()) as u16;
            let cols = self.column_seq(ta.width, sw);
            let c1 = if self.header is Some {
                band_drawn(c, grid, self.header->0, self.band_rect(ta, 1), cols)
            } else {
                c
            };
            let body = self.band_rect(ta, 3);
            let w = window(heights(self.rows@), state.selected, state.offset as int, body.height as int);
            let c2 = if self.rows@.len() == 0 {
                c1
            } else {
                self.rows_drawn(c1, grid, body, cols, state.selected, sw, w.0, w.0, w.1)
            };
            if self.footer is Some {
                band_drawn(c2, grid, self.footer->0, self.band_rect(ta, 5), cols)
            } else {
                c2
            }
        }
    }

    /// Draws the block, if there is one, and returns the area inside it.
    fn render_block(&self, area: Rect, buf: &mut Buffer) -> (r: Rect)
        requires
            old(buf).wf(),
            area.x + area.width <= 0xffff,
            area.y + area.height <= 0xffff,
        ensures
            final(buf).wf(),
            final(buf).area == old(buf).area,
            r == self.table_area(area),
            inside(r, area),
            self.block is None ==> final(buf).content@ == old(buf).content@,
            self.block is Some ==> final(buf).content@ == self.block->0.block_drawn(old(buf).content@, old(buf).area, area),
            same_outside(old(buf).content@, final(buf).content@, old(buf).area, area),
    {
        match &self.block {
            Some(b) => {
                let inner = b.inner(area);
                b.render(area, buf);
                inner
            },
            None => area,
        }
    }

    /// Draws the header row, if there is one, in `area`.
    fn render_header(&self, area: Rect, buf: &mut Buffer, columns: &Vec<(u16, u16)>)
        requires
            old(buf).wf(),
            addressable(area),
            forall|i: int| 0 <= i < columns@.len() ==> columns@[i].0 + columns@[i].1 <= area.width,
        ensures
            final(buf).wf(),
            final(buf).area == old(buf).area,
            same_outside(old(buf).content@, final(buf).content@, old(buf).area, area),
            self.header is None ==> final(buf).content@ == old(buf).content@,
            self.header is Some ==> final(buf).content@ == band_drawn(
                old(buf).content@,
                old(buf).area,
                self.header->0,
                area,
                columns@,
            ),
    {
        match &self.header {
            Some(h) => render_band(h, area, buf, columns),
            None => {},
        }
    }

    /// Draws the footer row, if there is one, in `area`.
    fn render_footer(&self, area: Rect, buf: &mut Buffer, columns: &Vec<(u16, u16)>)
        requires
            old(buf).wf(),
            addressable(area),
            forall|i: int| 0 <= i < columns@.len() ==> columns@[i].0 + columns@[i].1 <= area.width,
        ensures
            final(buf).wf(),
            final(buf).area == old(buf).area,
            same_outside(old(buf).content@, final(buf).content@, old(buf).area, area),
            self.footer is None ==> final(buf).content@ == old(buf).content@,
            self.footer is Some ==> final(buf).content@ == band_drawn(
                old(buf).content@,
                old(buf).area,
                self.footer->0,
                area,
                columns@,
            ),
    {
        match &self.footer {
            Some(f) => render_band(f, area, buf, columns),
            None => {},
        }
    }

    /// The window `[start, end)` of rows to show in `max_height` lines.
    pub fn get_row_bounds(&self, selected: Option<usize>, offset: usize, max_height: u16) -> (r: (usize, usize))
        requires
            self.rows@.len() > 0,
        ensures
            r.0 as int == window(heights(self.rows@), selected, offset as int, max_height as int).0,
            r.1 as int == window(heights(self.rows@), selected, offset as int, max_height as int).1,
            r.0 <= r.1 <= self.rows@.len(),
    {
        row_bounds(&self.rows, selected, offset, max_height)
    }

    /// The area of row `i` of a window starting at row `start`: below the
    /// rows before it in the window and its own top margin, as wide as the
    /// body, as high as the row and its bottom margin.
    pub open spec fn row_area(&self, area: Rect, start: int, i: int) -> Rect {
        Rect {
            x: area.x,
            y: (area.y + range_sum(heights(self.rows@), start, i) + self.rows@[i].top_margin) as u16,
            width: area.width,
            height: (self.rows@[i].height + self.rows@[i].bottom_margin) as u16,
        }
    }

    /// One row drawn in its area `ra`: the row's style, the selection symbol
    /// on its first line when the row is selected and a gutter is reserved,
    /// its cells in their columns, and last the highlight style if selected.
    pub open spec fn row_drawn(
        &self,
        c: Seq<BufferCell>,
        grid: Rect,
        row: Row,
        ra: Rect,
        columns: Seq<(u16, u16)>,
        selected: bool,
        selection_width: u16,
    ) -> Seq<BufferCell> {
        let c1 = styled_over(c, grid, ra, row.style);
        let c2 = if selection_width > 0 && selected && ra.height > 0 && self.highlight_symbol is Some {
            let room = if selection_width < ra.width { selection_width } else { ra.width };
            string_written(c1, grid, ra.x as int, ra.y as int, self.highlight_symbol->0@, room as int, row.style)
        } else {
            c1
        };
        let c3 = cells_drawn(c2, grid, row.cells@, columns, ra, 0);
        if selected { styled_over(c3, grid, ra, self.highlight_style) } else { c3 }
    }

    /// The rows `[i, end)` of a window starting at `start` drawn one after the other.
    pub open spec fn rows_drawn(
        &self,
        c: Seq<BufferCell>,
        grid: Rect,
        area: Rect,
        columns: Seq<(u16, u16)>,
        selected: Option<usize>,
        selection_width: u16,
        start: int,
        i: int,
        end: int,
    ) -> Seq<BufferCell>
        decreases end - i,
    {
        if i < 0 || i >= end || i >= self.rows@.len() {
            c
        } else {
            let drawn = self.row_drawn(
                c,
                grid,
                self.rows@[i],
                self.row_area(area, start, i),
                columns,
                (selected is Some && selected->0 as int == i),
                selection_width,
            );
            self.rows_drawn(drawn, grid, area, columns, selected, selection_width, start, i + 1, end)
        }
    }

    /// Draws the rows of the window that keeps the selection in view, and
    /// remembers the window's first row as the new offset.
    fn render_rows(&self, area: Rect, buf: &mut Buffer, state: &mut TableState, selection_width: u16, columns: &Vec<(u16, u16)>)
        requires
            old(buf).wf(),
            addressable(area),
            forall|i: int| 0 <= i < columns@.len() ==> columns@[i].0 + columns@[i].1 <= area.width,
        ensures
            final(buf).wf(),
            final(buf).area == old(buf).area,
            same_outside(old(buf).content@, final(buf).content@, old(buf).area, area),
            final(state).selected == old(state).selected,
            self.rows@.len() == 0 ==> final(buf).content@ == old(buf).content@ && *final(state) == *old(state),
            self.rows@.len() > 0 ==> {
                let w = window(heights(self.rows@), old(state).selected, old(state).offset as int, area.height as int);
                &&& final(state).offset == w.0
                &&& final(buf).content@ == self.rows_drawn(
                    old(buf).content@,
                    old(buf).area,
                    area,
                    columns@,
                    old(state).selected,
                    selection_width,
                    w.0,
                    w.0,
                    w.1,
                )
            },
    {
        if self.rows.len() == 0 {
            return;
        }
        let (start, end) = self.get_row_bounds(state.selected, state.offset, area.height);
        let ghost hs = heights(self.rows@);
        let ghost target = self.rows_drawn(
            old(buf).content@,
            old(buf).area,
            area,
            columns@,
            old(state).selected,
            selection_width,
            start as int,
            start as int,
            end as int,
        );
        proof {
            assert forall|m: int| 0 <= m < hs.len() implies hs[m] >= 0 by {}
            crate::viewport::lemma_window_fits(hs, state.selected, state.offset as int, area.height as int);
        }
        state.offset = start;
        let mut y_offset: u32 = 0;
        let mut i = start;
        while i < end
            invariant
                buf.wf(),
                buf.area == old(buf).area,
                addressable(area),
                start <= i <= end,
                end <= self.rows@.len(),
                state.offset == start,
                state.selected == old(state).selected,
                hs == heights(self.rows@),
                forall|m: int| 0 <= m < hs.len() ==> hs[m] >= 0,
                y_offset as int == range_sum(hs, start as int, i as int),
                range_sum(hs, start as int, end as int) <= area.height,
                same_outside(old(buf).content@, buf.content@, old(buf).area, area),
                forall|i: int| 0 <= i < columns@.len() ==> columns@[i].0 + columns@[i].1 <= area.width,
                self.rows_drawn(
                    buf.content@,
                    buf.area,
                    area,
                    columns@,
                    state.selected,
                    selection_width,
                    start as int,
                    i as int,
                    end as int,
                ) == target,
            decreases end - i,
        {
            let row = &self.rows[i];
            proof {
                lemma_range_longer(hs, start as int, i as int + 1, end as int);
                assert(hs[i as int] == row.spec_height_with_margin());
            }
            let row_area = Rect {
                x: area.x,
                y: (area.y as u32 + y_offset + row.top_margin as u32) as u16,
                width: area.width,
                height: (row.height as u32 + row.bottom_margin as u32) as u16,
            };
            let is_selected = match state.selected {
                Some(s) => s == i,
                None => false,
            };
            proof {
                assert(row_area == self.row_area(area, start as int, i as int));
                assert(is_selected == (state.selected is Some && state.selected->0 as int == i as int));
            }
            let ghost c0 = buf.content@;
            buf.set_style(row_area, row.style);
            proof {
                lemma_same_outside(c0, buf.content@, buf.content@, buf.area, row_area, area);
            }
            if selection_width > 0 && is_selected && row_area.height > 0 {
                match &self.highlight_symbol {
                    Some(symbol) => {
                        let room = if selection_width < row_area.width { selection_width } else { row_area.width };
                        let ghost before = buf.content@;
                        buf.set_stringn(row_area.x, row_area.y, symbol.as_str(), room as usize, row.style);
                        proof {
                            assert(same_outside(before, buf.content@, buf.area, area));
                        }
                    },
                    None => {},
                }
            }
            let ghost c2 = buf.content@;
            let mut c: usize = 0;
            while c < columns.len() && c < row.cells.len()
                invariant
                    buf.wf(),
                    buf.area == old(buf).area,
                    same_outside(old(buf).content@, buf.content@, old(buf).area, area),
                    inside(row_area, area),
                    addressable(area),
                    row_area.y + row_area.height <= area.y + area.height,
                    row_area.x == area.x && row_area.width == area.width,
                    forall|i: int| 0 <= i < columns@.len() ==> columns@[i].0 + columns@[i].1 <= area.width,
                    cells_drawn(buf.content@, buf.area, row.cells@, columns@, row_area, c as int) == cells_drawn(
                        c2,
                        buf.area,
                        row.cells@,
                        columns@,
                        row_area,
                        0,
                    ),
                decreases columns@.len() - c,
            {
                let (x, width) = columns[c];
                let cell_area = Rect { x: row_area.x + x, y: row_area.y, width, height: row_area.height };
                let ghost before = buf.content@;
                render_cell(&row.cells[c], cell_area, buf);
                proof {
                    lemma_same_outside(before, buf.content@, buf.content@, buf.area, cell_area, area);
                }
                c = c + 1;
            }
            if is_selected {
                let ghost before = buf.content@;
                buf.set_style(row_area, self.highlight_style);
                proof {
                    lemma_same_outside(before, buf.content@, buf.content@, buf.area, row_area, area);
                }
            }
            proof {
                assert(buf.content@ == self.row_drawn(c0, buf.area, *row, row_area, columns@, is_selected, selection_width));
            }
            y_offset = y_offset + row.height_with_margin();
            i = i + 1;
        }
    }

    /// Draws the table in `area` without a selection.
    pub fn render(&self, area: Rect, buf: &mut Buffer)
        requires
            old(buf).wf(),
            self.wf(),
            area.x + area.width <= 0xffff,
            area.y + area.height <= 0xffff,
        ensures
            final(buf).wf(),
            final(buf).area == old(buf).area,
            same_outside(old(buf).content@, final(buf).content@, old(buf).area, area),
            final(buf).content@ == self.table_drawn(
                self.framed(styled_over(old(buf).content@, old(buf).area, area, self.style), old(buf).area, area),
                old(buf).area,
                self.table_area(area),
                TableState { offset: 0, selected: None },
            ),
    {
        let mut state = TableState::new();
        self.render_stateful(area, buf, &mut state);
    }

    /// Draws the table in `area`: base style, block, header, the window of
    /// rows that keeps the selection in view, and footer. The first row of
    /// that window is remembered in `state` for the next frame.
    pub fn render_stateful(&self, area: Rect, buf: &mut Buffer, state: &mut TableState)
        requires
            old(buf).wf(),
            self.wf(),
            area.x + area.width <= 0xffff,
            area.y + area.height <= 0xffff,
        ensures
            final(buf).wf(),
            final(buf).area == old(buf).area,
            final(state).selected == old(state).selected,
            final(state).offset == self.offset_after(area, *old(state)),
            same_outside(old(buf).content@, final(buf).content@, old(buf).area, area),
            final(buf).content@ == self.table_drawn(
                self.framed(styled_over(old(buf).content@, old(buf).area, area, self.style), old(buf).area, area),
                old(buf).area,
                self.table_area(area),
                *old(state),
            ),
    {
        buf.set_style(area, self.style);
        let ghost based = buf.content@;
        let table_area = self.render_block(area, buf);
        let ghost framed = buf.content@;
        proof {
            assert(same_outside(based, framed, buf.area, area));
        }
        if table_area.width == 0 || table_area.height == 0 {
            proof {
                assert(self.table_drawn(framed, buf.area, table_area, *old(state)) == buf.content@);
            }
            return;
        }
        let selection_width = self.selection_width(state);
        let columns = self.get_columns_widths(table_area.width, selection_width);
        let (header_area, rows_area, footer_area) = self.layout(table_area);
        let ghost before = buf.content@;
        self.render_header(header_area, buf, &columns);
        proof {
            lemma_same_outside(before, buf.content@, buf.content@, buf.area, header_area, area);
        }
        let ghost before = buf.content@;
        self.render_rows(rows_area, buf, state, selection_width, &columns);
        proof {
            lemma_same_outside(before, buf.content@, buf.content@, buf.area, rows_area, area);
        }
        let ghost before = buf.content@;
        self.render_footer(footer_area, buf, &columns);
        proof {
            lemma_same_outside(before, buf.content@, buf.content@, buf.area, footer_area, area);
            assert(header_area == self.band_rect(table_area, 1));
            assert(rows_area == self.band_rect(table_area, 3));
            assert(footer_area == self.band_rect(table_area, 5));
            assert(buf.content@ == self.table_drawn(framed, buf.area, table_area, *old(state)));
        }
    }

    /// Sets the rows.
    pub fn rows(self, rows: Vec<Row>) -> (r: Table)
        ensures
            r == (Table { rows, ..self }),
    {
        Table { rows, ..self }
    }

    /// Sets the header row, shown above the rows.
    pub fn header(self, header: Row) -> (r: Table)
        ensures
            r == (Table { header: Some(header), ..self }),
    {
        Table { header: Some(header), ..self }
    }

    /// Sets the footer row, shown below the rows.
    pub fn footer(self, footer: Row) -> (r: Table)
        ensures
            r == (Table { footer: Some(footer), ..self }),
    {
        Table { footer: Some(footer), ..self }
    }

    /// Sets the column constraints; none means columns of equal width.
    pub fn widths(self, widths: Vec<Constraint>) -> (r: Table)
        requires
            widths_ok(widths@),
        ensures
            r == (Table { widths, ..self }),
    {
        ensure_percentages_less_than_100(&widths);
        Table { widths, ..self }
    }

    /// Sets the number of blank columns between two columns.
    pub fn column_spacing(self, spacing: u16) -> (r: Table)
        ensures
            r == (Table { column_spacing: spacing, ..self }),
    {
        Table { column_spacing: spacing, ..self }
    }

    /// Wraps the table in a block.
    pub fn block(self, block: Block) -> (r: Table)
        ensures
            r == (Table { block: Some(block), ..self }),
    {
        Table { block: Some(block), ..self }
    }

    /// Sets the base style of the whole table.
    pub fn style(self, style: Style) -> (r: Table)
        ensures
            r == (Table { style, ..self }),
    {
        Table { style, ..self }
    }

    /// Sets the style laid over the selected row.
    pub fn highlight_style(self, highlight_style: Style) -> (r: Table)
        ensures
            r == (Table { highlight_style, ..self }),
    {
        Table { highlight_style, ..self }
    }

    /// Sets the symbol drawn in front of the selected row.
    pub fn highlight_symbol(self, highlight_symbol: &str) -> (r: Table)
        ensures
            r.highlight_symbol is Some && r.highlight_symbol->0@ == highlight_symbol@,
            r == (Table { highlight_symbol: r.highlight_symbol, ..self }),
    {
        Table { highlight_symbol: Some(highlight_symbol.to_owned()), ..self }
    }

    /// Sets when the column for the selection symbol is reserved.
    pub fn highlight_spacing(self, value: HighlightSpacing) -> (r: Table)
        ensures
            r == (Table { highlight_spacing: value, ..self }),
    {
        Table { highlight_spacing: value, ..self }
    }

    /// Sets what becomes of spare width between the columns.
    pub fn segment_size(self, segment_size: SegmentSize) -> (r: Table)
        ensures
            r == (Table { segment_size, ..self }),
    {
        Table { segment_size, ..self }
    }

    /// Sets a black foreground on the base style.
    pub fn black(self) -> (r: Table)
        ensures
            r == (Table { style: Style { fg: Some(Color::Black), ..self.style }, ..self }),
    {
        let s = self.style.black();
        Table { style: s, ..self }
    }

    /// Sets a red foreground on the base style.
    pub fn red(self) -> (r: Table)
        ensures
            r == (Table { style: Style { fg: Some(Color::Red), ..self.style }, ..self }),
    {
        let s = self.style.red();
        Table { style: s, ..self }
    }

    /// Sets a white background on the base style.
    pub fn on_white(self) -> (r: Table)
        ensures
            r == (Table { style: Style { bg: Some(Color::White), ..self.style }, ..self }),
    {
        let s = self.style.on_white();
        Table { style: s, ..self }
    }

    /// Adds bold to the base style.
    pub fn bold(self) -> (r: Table)
        ensures
            r == (Table { style: Style { add_modifier: self.style.add_modifier | Modifier::BOLD, sub_modifier: self.style.sub_modifier & !Modifier::BOLD, ..self.style }, ..self }),
    {
        let s = self.style.bold();
        Table { style: s, ..self }
    }

    /// Adds italics to the base style.
    pub fn italic(self) -> (r: Table)
        ensures
            r == (Table { style: Style { add_modifier: self.style.add_modifier | Modifier::ITALIC, sub_modifier: self.style.sub_modifier & !Modifier::ITALIC, ..self.style }, ..self }),
    {
        let s = self.style.italic();
        Table { style: s, ..self }
    }

    /// Removes crossing out in the base style.
    pub fn not_crossed_out(self) -> (r: Table)
        ensures
            r == (Table { style: Style { add_modifier: self.style.add_modifier & !Modifier::CROSSED_OUT, sub_modifier: self.style.sub_modifier | Modifier::CROSSED_OUT, ..self.style }, ..self }),
    {
        let s = self.style.not_crossed_out();
        Table { style: s, ..self }
    }
}

} // verus!
