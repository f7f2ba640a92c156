//! The window of rows that a scrolling table shows.
use vstd::prelude::*;
use crate::row::Row;

verus! {

/// The heights of rows, margins included.
pub open spec fn heights(rows: Seq<Row>) -> Seq<int> {
    Seq::new(rows.len(), |i: int| rows[i].spec_height_with_margin())
}

/// Total height of the rows in `[a, b)`.
pub open spec fn range_sum(hs: Seq<int>, a: int, b: int) -> int
    decreases b - a,
{
    if b <= a { 0 } else { range_sum(hs, a, b - 1) + hs[b - 1] }
}

/// Starting at `off` with the rows `[off, e)` taken, keeps taking rows while they fit.
pub open spec fn natural_end(hs: Seq<int>, off: int, e: int, max: int) -> int
    decreases hs.len() - e,
{
    if e < hs.len() && range_sum(hs, off, e + 1) <= max {
        natural_end(hs, off, e + 1, max)
    } else {
        e
    }
}

/// The first start at or after `lo` from which the rows up to `k` fit.
pub open spec fn fit_start(hs: Seq<int>, lo: int, k: int, max: int) -> int
    decreases k - lo,
{
    if lo < k && range_sum(hs, lo, k) > max { fit_start(hs, lo + 1, k, max) } else { lo }
}

/// The last end at or before `hi` up to which the rows from `s` fit.
pub open spec fn fit_end(hs: Seq<int>, s: int, hi: int, max: int) -> int
    decreases hi - s,
{
    if s < hi && range_sum(hs, s, hi) > max { fit_end(hs, s, hi - 1, max) } else { hi }
}

/// The window `[start, end)` of rows shown for a selection, a remembered
/// offset and an available height: the rows that fit from the offset, moved
/// forward just enough to reach a selection below them, or back to a
/// selection above them, dropping rows at the far side until they fit.
/// Without a selection the window stays at the offset.
pub open spec fn window(hs: Seq<int>, selected: Option<usize>, offset: int, max: int) -> (int, int) {
    let n = hs.len() as int;
    let off = if offset < n - 1 { offset } else { n - 1 };
    let want = match selected {
        Some(s) => s as int,
        None => 0,
    };
    let sel = if want < n - 1 { want } else { n - 1 };
    let e1 = natural_end(hs, off, off, max);
    let s2 = if sel >= e1 { fit_start(hs, off, sel + 1, max) } else { off };
    let e2 = if sel >= e1 { sel + 1 } else { e1 };
    if selected is None {
        (off, e1)
    } else if sel < s2 {
        (sel, fit_end(hs, sel, e2, max))
    } else {
        (s2, e2)
    }
}

proof fn lemma_range_front(hs: Seq<int>, a: int, b: int)
    requires
        a < b,
    ensures
        range_sum(hs, a, b) == hs[a] + range_sum(hs, a + 1, b),
    decreases b - a,
{
    if b - 1 > a {
        lemma_range_front(hs, a, b - 1);
    } else {
        assert(range_sum(hs, a, a) == 0);
        assert(range_sum(hs, a + 1, b) == 0);
    }
}

proof fn lemma_range_nonneg(hs: Seq<int>, a: int, b: int)
    requires
        0 <= a,
        b <= hs.len(),
        forall|i: int| 0 <= i < hs.len() ==> hs[i] >= 0,
    ensures
        range_sum(hs, a, b) >= 0,
    decreases b - a,
{
    if b > a {
        lemma_range_nonneg(hs, a, b - 1);
    }
}

proof fn lemma_range_wider(hs: Seq<int>, a: int, b: int, c: int)
    requires
        0 <= a <= b <= c <= hs.len(),
        forall|i: int| 0 <= i < hs.len() ==> hs[i] >= 0,
    ensures
        range_sum(hs, b, c) <= range_sum(hs, a, c),
    decreases b - a,
{
    if a < b {
        lemma_range_front(hs, a, c);
        lemma_range_wider(hs, a + 1, b, c);
    }
}

pub(crate) proof fn lemma_range_longer(hs: Seq<int>, a: int, b: int, c: int)
    requires
        0 <= a <= b <= c <= hs.len(),
        forall|i: int| 0 <= i < hs.len() ==> hs[i] >= 0,
    ensures
        range_sum(hs, a, b) <= range_sum(hs, a, c),
    decreases c - b,
{
    if b < c {
        lemma_range_longer(hs, a, b, c - 1);
    }
}

proof fn lemma_natural_end(hs: Seq<int>, off: int, e: int, max: int)
    requires
        0 <= off <= e <= hs.len(),
        range_sum(hs, off, e) <= max,
    ensures
        e <= natural_end(hs, off, e, max) <= hs.len(),
        range_sum(hs, off, natural_end(hs, off, e, max)) <= max,
    decreases hs.len() - e,
{
    if e < hs.len() && range_sum(hs, off, e + 1) <= max {
        lemma_natural_end(hs, off, e + 1, max);
    }
}

proof fn lemma_fit_start(hs: Seq<int>, lo: int, k: int, max: int)
    requires
        0 <= lo <= k <= hs.len(),
        max >= 0,
    ensures
        lo <= fit_start(hs, lo, k, max) <= k,
        range_sum(hs, fit_start(hs, lo, k, max), k) <= max,
        forall|s: int| lo <= s < fit_start(hs, lo, k, max) ==> range_sum(hs, s, k) > max,
    decreases k - lo,
{
    if lo < k && range_sum(hs, lo, k) > max {
        lemma_fit_start(hs, lo + 1, k, max);
    }
}

proof fn lemma_fit_start_chain(hs: Seq<int>, lo: int, k: int, max: int)
    requires
        0 <= lo <= k < hs.len(),
        forall|i: int| 0 <= i < hs.len() ==> hs[i] >= 0,
    ensures
        fit_start(hs, lo, k + 1, max) == fit_start(hs, fit_start(hs, lo, k, max), k + 1, max),
    decreases k - lo,
{
    if lo < k && range_sum(hs, lo, k) > max {
        assert(range_sum(hs, lo, k + 1) == range_sum(hs, lo, k) + hs[k]);
        lemma_fit_start_chain(hs, lo + 1, k, max);
    }
}

proof fn lemma_fit_end(hs: Seq<int>, s: int, hi: int, max: int)
    requires
        0 <= s <= hi <= hs.len(),
        max >= 0,
    ensures
        s <= fit_end(hs, s, hi, max) <= hi,
        range_sum(hs, s, fit_end(hs, s, hi, max)) <= max,
        s < hi && range_sum(hs, s, s + 1) <= max ==> s < fit_end(hs, s, hi, max),
    decreases hi - s,
{
    if s < hi && range_sum(hs, s, hi) > max {
        lemma_fit_end(hs, s, hi - 1, max);
    }
}

proof fn lemma_fit_end_chain(hs: Seq<int>, s0: int, s: int, e: int, max: int)
    requires
        0 <= s0 <= s <= e <= hs.len(),
        forall|i: int| 0 <= i < hs.len() ==> hs[i] >= 0,
    ensures
        fit_end(hs, s0, e, max) == fit_end(hs, s0, fit_end(hs, s, e, max), max),
    decreases e - s,
{
    if s < e && range_sum(hs, s, e) > max {
        lemma_range_wider(hs, s0, s, e);
        lemma_fit_end_chain(hs, s0, s, e - 1, max);
    }
}

/// The rows of the window always fit in the available height.
pub proof fn lemma_window_fits(hs: Seq<int>, selected: Option<usize>, offset: int, max: int)
    requires
        hs.len() > 0,
        offset >= 0,
        max >= 0,
        forall|i: int| 0 <= i < hs.len() ==> hs[i] >= 0,
    ensures
        range_sum(hs, window(hs, selected, offset, max).0, window(hs, selected, offset, max).1) <= max,
{
    let n = hs.len() as int;
    let off = if offset < n - 1 { offset } else { n - 1 };
    let want = match selected {
        Some(s) => s as int,
        None => 0,
    };
    let sel = if want < n - 1 { want } else { n - 1 };
    let e1 = natural_end(hs, off, off, max);
    lemma_natural_end(hs, off, off, max);
    if sel >= e1 {
        lemma_fit_start(hs, off, sel + 1, max);
        lemma_fit_end(hs, sel, sel + 1, max);
    } else {
        lemma_fit_end(hs, sel, e1, max);
    }
}

/// A selected row that is no taller than the available height is always in
/// the window, and the rows of the window fit in that height.
pub proof fn lemma_window_holds_selection(hs: Seq<int>, sel: usize, offset: int, max: int)
    requires
        sel < hs.len(),
        offset >= 0,
        max >= 0,
        forall|i: int| 0 <= i < hs.len() ==> hs[i] >= 0,
        hs[sel as int] <= max,
    ensures
        window(hs, Some(sel), offset, max).0 <= sel < window(hs, Some(sel), offset, max).1 <= hs.len(),
        range_sum(hs, window(hs, Some(sel), offset, max).0, window(hs, Some(sel), offset, max).1) <= max,
{
    let n = hs.len() as int;
    let off = if offset < n - 1 { offset } else { n - 1 };
    let e1 = natural_end(hs, off, off, max);
    lemma_natural_end(hs, off, off, max);
    assert(range_sum(hs, sel as int, sel as int + 1) == hs[sel as int]) by {
        assert(range_sum(hs, sel as int, sel as int) == 0);
    }
    if sel >= e1 {
        lemma_fit_start(hs, off, sel as int + 1, max);
        let s2 = fit_start(hs, off, sel as int + 1, max);
        if s2 > sel {
            assert(range_sum(hs, sel as int, sel as int + 1) > max);
        }
    } else if sel < off {
        lemma_fit_end(hs, sel as int, e1, max);
    }
}

/// When the selection is the row just past those that fit from the offset,
/// the window ends right after it and starts at the first row at or after the
/// offset from which the rows up to the selection fit: it moves forward by the
/// least amount that shows the selection.
pub proof fn lemma_window_follows_selection(hs: Seq<int>, sel: usize, offset: int, max: int)
    requires
        0 <= offset < hs.len(),
        sel < hs.len(),
        sel as int == natural_end(hs, offset, offset, max),
        max >= 0,
        forall|i: int| 0 <= i < hs.len() ==> hs[i] >= 0,
        hs[sel as int] <= max,
    ensures
        window(hs, Some(sel), offset, max).1 == sel + 1,
        offset <= window(hs, Some(sel), offset, max).0 <= sel,
        range_sum(hs, window(hs, Some(sel), offset, max).0, sel + 1) <= max,
        forall|s: int| offset <= s < window(hs, Some(sel), offset, max).0 ==> #[trigger] range_sum(hs, s, sel + 1) > max,
{
    lemma_natural_end(hs, offset, offset, max);
    lemma_window_holds_selection(hs, sel, offset, max);
    lemma_fit_start(hs, offset, sel as int + 1, max);
    let s2 = fit_start(hs, offset, sel as int + 1, max);
    if s2 > sel {
        assert(range_sum(hs, sel as int, sel as int) == 0);
        assert(range_sum(hs, sel as int, sel as int + 1) > max);
    }
}

/// The window is an ordered range of existing rows.
pub proof fn lemma_window_bounds(hs: Seq<int>, selected: Option<usize>, offset: int, max: int)
    requires
        hs.len() > 0,
        offset >= 0,
        max >= 0,
    ensures
        0 <= window(hs, selected, offset, max).0 <= window(hs, selected, offset, max).1 <= hs.len(),
{
    let n = hs.len() as int;
    let off = if offset < n - 1 { offset } else { n - 1 };
    let want = match selected {
        Some(s) => s as int,
        None => 0,
    };
    let sel = if want < n - 1 { want } else { n - 1 };
    let e1 = natural_end(hs, off, off, max);
    lemma_natural_end(hs, off, off, max);
    if sel >= e1 {
        lemma_fit_start(hs, off, sel + 1, max);
        lemma_fit_end(hs, sel, sel + 1, max);
    } else {
        lemma_fit_end(hs, sel, e1, max);
    }
}

/// Computes the window `[start, end)` of rows to show; see [`window`].
pub fn row_bounds(rows: &Vec<Row>, selected: Option<usize>, offset: usize, max_height: u16) -> (r: (usize, usize))
    requires
        rows@.len() > 0,
    ensures
        r.0 as int == window(heights(rows@), selected, offset as int, max_height as int).0,
        r.1 as int == window(heights(rows@), selected, offset as int, max_height as int).1,
        r.0 <= r.1 <= rows@.len(),
{
    let ghost hs = heights(rows@);
    let ghost max = max_height as int;
    let n = rows.len();
    proof {
        assert forall|i: int| 0 <= i < hs.len() implies hs[i] >= 0 by {}
        lemma_window_bounds(hs, selected, offset as int, max);
    }
    let off = if offset < n - 1 { offset } else { n - 1 };
    let mut start = off;
    let mut end = off;
    let mut height: u32 = 0;
    while end < n && height + rows[end].height_with_margin() <= max_height as u32
        invariant
            hs == heights(rows@),
            max == max_height as int,
            n == rows@.len(),
            off < n,
            off <= end <= n,
            height as int == range_sum(hs, off as int, end as int),
            height <= max_height,
            natural_end(hs, off as int, off as int, max) == natural_end(hs, off as int, end as int, max),
        decreases n - end,
    {
        proof {
            assert(hs[end as int] == rows@[end as int].spec_height_with_margin());
            assert(range_sum(hs, off as int, end as int + 1) == range_sum(hs, off as int, end as int) + hs[end as int]);
            assert(range_sum(hs, off as int, end as int + 1) <= max);
            assert(natural_end(hs, off as int, end as int, max) == natural_end(hs, off as int, end as int + 1, max));
        }
        height = height + rows[end].height_with_margin();
        end = end + 1;
    }
    let ghost e1 = end as int;
    proof {
        assert(natural_end(hs, off as int, end as int, max) == end as int);
    }
    if selected.is_none() {
        return (start, end);
    }
    let want = match selected {
        Some(s) => s,
        None => 0,
    };
    let sel = if want < n - 1 { want } else { n - 1 };
    while sel >= end
        invariant
            hs == heights(rows@),
            max == max_height as int,
            forall|i: int| 0 <= i < hs.len() ==> hs[i] >= 0,
            n == rows@.len(),
            sel < n,
            off as int <= e1 <= end as int,
            end <= sel + 1 || end as int == e1,
            sel >= e1 ==> end <= sel + 1,
            sel < e1 ==> end as int == e1 && start == off,
            start <= end <= n,
            start as int == fit_start(hs, off as int, end as int, max),
            height as int == range_sum(hs, start as int, end as int),
            height <= max_height,
        decreases n - end,
    {
        proof {
            lemma_fit_start_chain(hs, off as int, end as int, max);
            assert(hs[end as int] == rows@[end as int].spec_height_with_margin());
        }
        height = height + rows[end].height_with_margin();
        end = end + 1;
        while height > max_height as u32
            invariant
                hs == heights(rows@),
                max == max_height as int,
            max == max_height as int,
                forall|i: int| 0 <= i < hs.len() ==> hs[i] >= 0,
                n == rows@.len(),
                start <= end <= n,
                fit_start(hs, off as int, end as int, max) == fit_start(hs, start as int, end as int, max),
                height as int == range_sum(hs, start as int, end as int),
                height <= max_height as int + 0x30000,
            decreases end - start,
        {
            proof {
                if start >= end {
                    assert(range_sum(hs, start as int, end as int) == 0);
                }
                lemma_range_front(hs, start as int, end as int);
                lemma_range_nonneg(hs, start as int + 1, end as int);
            }
            proof {
                assert(hs[start as int] == rows@[start as int].spec_height_with_margin());
            }
            height = height - rows[start].height_with_margin();
            start = start + 1;
        }
        proof {
            assert(fit_start(hs, start as int, end as int, max) == start as int);
        }
    }
    let ghost s2 = start as int;
    let ghost e2 = end as int;
    proof {
        lemma_fit_end(hs, start as int, end as int, max);
        assert(fit_end(hs, start as int, end as int, max) == end as int);
    }
    while sel < start
        invariant
            hs == heights(rows@),
            max == max_height as int,
            forall|i: int| 0 <= i < hs.len() ==> hs[i] >= 0,
            n == rows@.len(),
            start as int <= s2,
            sel < s2 ==> sel <= start,
            sel >= s2 ==> start == s2,
            start <= end <= e2 <= n,
            end as int == fit_end(hs, start as int, e2, max),
            height as int == range_sum(hs, start as int, end as int),
            height <= max_height,
        decreases start,
    {
        proof {
            lemma_fit_end_chain(hs, start as int - 1, start as int, e2, max);
            lemma_range_front(hs, start as int - 1, end as int);
        }
        start = start - 1;
        proof {
            assert(hs[start as int] == rows@[start as int].spec_height_with_margin());
        }
        height = height + rows[start].height_with_margin();
        while height > max_height as u32
            invariant
                hs == heights(rows@),
                max == max_height as int,
            max == max_height as int,
                forall|i: int| 0 <= i < hs.len() ==> hs[i] >= 0,
                n == rows@.len(),
                start <= end <= e2 <= n,
                fit_end(hs, start as int, e2, max) == fit_end(hs, start as int, end as int, max),
                height as int == range_sum(hs, start as int, end as int),
                height <= max_height as int + 0x30000,
            decreases end - start,
        {
            proof {
                if start >= end {
                    assert(range_sum(hs, start as int, end as int) == 0);
                }
                lemma_range_nonneg(hs, start as int, end as int - 1);
            }
            end = end - 1;
            proof {
                assert(hs[end as int] == rows@[end as int].spec_height_with_margin());
            }
            height = height - rows[end].height_with_margin();
        }
        proof {
            assert(fit_end(hs, start as int, end as int, max) == end as int);
        }
    }
    (start, end)
}

} // verus!
