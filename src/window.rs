use vstd::prelude::*;

verus! {

/// The number of rows taken by the entries `[a, b)` whose heights are `h`.
pub open spec fn rows(h: Seq<usize>, a: int, b: int) -> int
    decreases b - a,
{
    if b <= a {
        0
    } else {
        rows(h, a, b - 1) + h[b - 1]
    }
}

/// Splitting off the first entry of a range.
pub proof fn lemma_rows_front(h: Seq<usize>, a: int, b: int)
    requires
        a < b,
    ensures
        rows(h, a, b) == h[a] + rows(h, a + 1, b),
    decreases b - a,
{
    if a + 1 < b {
        lemma_rows_front(h, a, b - 1);
        assert(rows(h, a + 1, b) == rows(h, a + 1, b - 1) + h[b - 1]);
    } else {
        assert(rows(h, a, b) == rows(h, a, a) + h[a]);
        assert(rows(h, a + 1, b) == 0);
    }
}

/// Adding entries at the end of a range never takes fewer rows.
pub proof fn lemma_rows_grow_end(h: Seq<usize>, a: int, b: int, c: int)
    requires
        a <= b <= c,
    ensures
        rows(h, a, b) <= rows(h, a, c),
    decreases c - b,
{
    if b < c {
        lemma_rows_grow_end(h, a, b, c - 1);
    }
}

/// The first index of the window, before any scrolling: the previous offset
/// or the selection, whichever comes first, kept inside the sequence.
pub open spec fn window_start(len: int, offset: int, selected: Option<usize>) -> int {
    let sel = match selected {
        Some(k) => k as int,
        None => 0,
    };
    let s = if offset < sel { offset } else { sel };
    if s > len - 1 { len - 1 } else { s }
}

/// `e` is where a window starting at `start` ends when it takes entries
/// while they fit in `budget` rows.
pub open spec fn filled_end(h: Seq<usize>, start: int, budget: int, e: int) -> bool {
    &&& start <= e <= h.len()
    &&& rows(h, start, e) <= budget
    &&& (e == h.len() || rows(h, start, e + 1) > budget)
}

/// `s` is the first index of the window that ends just after `sel`, after
/// scrolling forward from `s0` no further than needed: the smallest index
/// from `s0` on whose window up to `sel` fits in `budget`, or `sel` itself
/// when no such window fits.
pub open spec fn scrolled_start(h: Seq<usize>, s0: int, sel: int, budget: int, s: int) -> bool {
    &&& s0 <= s <= sel
    &&& (rows(h, s, sel + 1) <= budget || s == sel)
    &&& forall|t: int| s0 <= t < s ==> #[trigger] rows(h, t, sel + 1) > budget
}

/// `r` is the window `[r.0, r.1)` chosen for entries of row heights `h`
/// drawn in `budget` rows, given the previous offset and the selected index:
/// it starts at `window_start` and takes entries while they fit; if that
/// stops before the selection, it ends just after the selection and starts
/// as far forward as `scrolled_start` says. It holds the selection and fits
/// the budget unless one entry alone is taller.
pub open spec fn window_of(h: Seq<usize>, budget: int, offset: int, selected: Option<usize>, r: (usize, usize)) -> bool {
    let s0 = window_start(h.len() as int, offset, selected);
    &&& exists|e: int| filled_end(h, s0, budget, e)
    &&& forall|e: int|
        filled_end(h, s0, budget, e) ==> match selected {
            None => r == (s0 as usize, e as usize),
            Some(k) => if (k as int) < e {
                r == (s0 as usize, e as usize)
            } else {
                r.1 == k + 1 && scrolled_start(h, s0, k as int, budget, r.0 as int)
            },
        }
    &&& r.0 <= r.1 <= h.len()
    &&& rows(h, r.0 as int, r.1 as int) <= budget || r.1 == r.0 + 1
    &&& selected matches Some(k) ==> r.0 <= k < r.1
}

/// The window `[start, end)` of a sequence of entries with row heights
/// `heights` to draw in `budget` rows, given the first index drawn in the
/// previous frame and the index of the selection, if any.
pub fn compute_window(heights: &[usize], budget: usize, offset: usize, selected: Option<usize>) -> (r: (usize, usize))
    requires
        heights@.len() > 0,
        budget >= 1,
        selected matches Some(k) ==> k < heights@.len(),
    ensures
        window_of(heights@, budget as int, offset as int, selected, r),
{
    let ghost h = heights@;
    let len = heights.len();
    let sel = match selected {
        Some(k) => k,
        None => 0,
    };
    let mut start: usize = if offset < sel { offset } else { sel };
    if start > len - 1 {
        start = len - 1;
    }
    let ghost s0 = start as int;
    let mut end: usize = start;
    let mut height: usize = 0;
    while end < len && heights[end] <= budget - height
        invariant
            len == h.len(),
            h == heights@,
            start <= end <= len,
            height == rows(h, start as int, end as int),
            height <= budget,
        decreases len - end,
    {
        height = height + heights[end];
        end = end + 1;
    }
    assert(s0 == window_start(len as int, offset as int, selected));
    assert(filled_end(h, s0, budget as int, end as int));
    let ghost e0 = end as int;
    assert forall|e: int| filled_end(h, s0, budget as int, e) implies e == e0 by {
        if e < e0 {
            lemma_rows_grow_end(h, s0, e + 1, e0);
        } else if e > e0 {
            lemma_rows_grow_end(h, s0, e0 + 1, e);
        }
    }
    match selected {
        None => {
            return (start, end);
        },
        Some(k) => {
            if k < end {
                return (start, end);
            }
            while end <= k
                invariant
                    len == h.len(),
                    h == heights@,
                    k < len,
                    s0 <= start <= end <= k + 1,
                    start <= k,
                    height == rows(h, start as int, end as int),
                    height <= budget || start + 1 == end,
                    forall|t: int| s0 <= t < start ==> #[trigger] rows(h, t, end as int) > budget,
                decreases k + 1 - end,
            {
                assert forall|t: int| s0 <= t < start implies #[trigger] rows(h, t, end as int + 1) > budget by {
                    lemma_rows_grow_end(h, t, end as int, end as int + 1);
                }
                while start < end && (height > budget || heights[end] > budget - height)
                    invariant
                        len == h.len(),
                        h == heights@,
                        end <= k < len,
                        s0 <= start <= end,
                        height == rows(h, start as int, end as int),
                        forall|t: int| s0 <= t < start ==> #[trigger] rows(h, t, end as int + 1) > budget,
                    decreases end - start,
                {
                    proof {
                        lemma_rows_front(h, start as int, end as int);
                        lemma_rows_front(h, start as int, end as int + 1);
                        lemma_rows_grow_end(h, start as int + 1, start as int + 1, end as int);
                        assert forall|t: int| s0 <= t < start + 1 implies #[trigger] rows(h, t, end as int + 1) > budget by {
                            if t == start {
                                assert(rows(h, t, end as int + 1) == rows(h, t, end as int) + h[end as int]);
                            }
                        }
                    }
                    height = height - heights[start];
                    start = start + 1;
                }
                height = height + heights[end];
                end = end + 1;
                assert forall|t: int| s0 <= t < start implies #[trigger] rows(h, t, end as int) > budget by {
                    lemma_rows_grow_end(h, t, end as int - 1, end as int);
                }
            }
            (start, end)
        },
    }
}

} // verus!
