//! Finding the interior of an outline along one scan line of pixels.

use vstd::prelude::*;

verus! {

/// What a scan has gathered after some items of a line.
pub ghost struct ScanState {
    /// Whether an edge-coloured pixel has been seen.
    pub found_edge: bool,
    /// How many edge-coloured pixels have followed the last other pixel since
    /// the interior began.
    pub trailing: int,
    /// The index of the first interior pixel; 0 until there is one.
    pub start: int,
    /// The interior end committed last; 0 until there is one.
    pub end: int,
}

/// The state before the first item.
pub open spec fn scan_start() -> ScanState {
    ScanState { found_edge: false, trailing: 0, start: 0, end: 0 }
}

/// The state after one more item, at `index`, edge-coloured or not.
pub open spec fn scan_step(s: ScanState, index: int, is_edge: bool) -> ScanState {
    if is_edge {
        ScanState {
            found_edge: true,
            trailing: if s.start != 0 {
                s.trailing + 1
            } else {
                s.trailing
            },
            ..s
        }
    } else if s.start == 0 && s.found_edge {
        ScanState { start: index, ..s }
    } else if s.trailing != 0 {
        ScanState { end: index - s.trailing - 1, trailing: 0, ..s }
    } else {
        s
    }
}

/// The state after all of `items`, taken in order.
pub open spec fn scan(items: Seq<(u32, [u8; 4])>, edge: [u8; 4]) -> ScanState
    decreases items.len(),
{
    if items.len() == 0 {
        scan_start()
    } else {
        scan_step(scan(items.drop_last(), edge), items.last().0 as int, items.last().1 == edge)
    }
}

/// The interior of a scan line: the index of its first pixel, and the end
/// committed last. Both are 0 where no edge-coloured pixel occurs. On a line
/// whose indices grow these are the bounds that `encloses` tells from the
/// line's layout.
pub open spec fn bounds_of(items: Seq<(u32, [u8; 4])>, edge: [u8; 4]) -> (int, int) {
    (scan(items, edge).start, scan(items, edge).end)
}

/// Whether the indices of a scan line grow from each item to the next.
pub open spec fn increasing(items: Seq<(u32, [u8; 4])>) -> bool {
    forall|i: int, j: int| 0 <= i < j < items.len() ==> items[i].0 < items[j].0
}

/// Whether no pixel of a scan line has the edge colour.
pub open spec fn edgeless(items: Seq<(u32, [u8; 4])>, edge: [u8; 4]) -> bool {
    forall|i: int| 0 <= i < items.len() ==> (#[trigger] items[i]).1 != edge
}

/// What holds of the state after a line whose indices grow.
pub open spec fn settled(s: ScanState, items: Seq<(u32, [u8; 4])>) -> bool {
    &&& s.trailing >= 0
    &&& s.found_edge ==> items.len() > 0
    &&& s.start == 0 ==> s.trailing == 0 && s.end == 0
    &&& s.start != 0 ==> s.found_edge && 1 <= s.start && s.start + s.trailing <= items.last().0
    &&& s.end != 0 ==> s.start <= s.end && s.end + s.trailing + 1 <= items.last().0
}

/// On a line whose indices grow, the interior starts after index 0 and the
/// committed end lies between the start and the last index.
pub proof fn lemma_scan_settled(items: Seq<(u32, [u8; 4])>, edge: [u8; 4])
    requires
        increasing(items),
    ensures
        settled(scan(items, edge), items),
    decreases items.len(),
{
    if items.len() > 0 {
        let front = items.drop_last();
        lemma_scan_settled(front, edge);
        if front.len() > 0 {
            assert(front.last() == items[items.len() - 2]);
            assert(items[items.len() - 2].0 < items[items.len() - 1].0);
        }
    }
}

/// A line without any edge-coloured pixel has no interior: both bounds are 0.
pub proof fn lemma_edgeless_bounds(items: Seq<(u32, [u8; 4])>, edge: [u8; 4])
    requires
        edgeless(items, edge),
    ensures
        scan(items, edge) == scan_start(),
        bounds_of(items, edge) == (0int, 0int),
    decreases items.len(),
{
    if items.len() > 0 {
        let front = items.drop_last();
        assert forall|i: int| 0 <= i < front.len() implies (#[trigger] front[i]).1 != edge by {
            assert(front[i] == items[i]);
        }
        lemma_edgeless_bounds(front, edge);
        assert(items.last() == items[items.len() - 1]);
    }
}

/// Whether the line leaves an edge-coloured run at position `p`: the pixel
/// before it has the edge colour and the pixel at it has not.
pub open spec fn leaves_edge(items: Seq<(u32, [u8; 4])>, edge: [u8; 4], p: int) -> bool {
    1 <= p < items.len() && items[p - 1].1 == edge && items[p].1 != edge
}

/// The length of the edge-coloured run that ends just before position `p`.
pub open spec fn run_before(items: Seq<(u32, [u8; 4])>, edge: [u8; 4], p: int) -> nat
    decreases p,
{
    if p <= 0 || p > items.len() || items[p - 1].1 != edge {
        0
    } else {
        1 + run_before(items, edge, p - 1)
    }
}

/// The state of a scan told from the layout of the line. `first` and `last`
/// are the first and the last position at which the line leaves an
/// edge-coloured run, both 0 where it never does. The interior starts at the
/// index of `first`. Its end is committed at `last`, if that is another
/// position: it is the index of `last` less the run before it, less one.
pub open spec fn laid_out(
    items: Seq<(u32, [u8; 4])>,
    edge: [u8; 4],
    s: ScanState,
    first: int,
    last: int,
) -> bool {
    &&& !s.found_edge ==> edgeless(items, edge)
    &&& s.found_edge && first == 0 ==> items.len() > 0 && items.last().1 == edge
    &&& forall|j: int| (first == 0 || j < first) ==> !#[trigger] leaves_edge(items, edge, j)
    &&& forall|j: int| last < j ==> !#[trigger] leaves_edge(items, edge, j)
    &&& first == 0 ==> last == 0 && s.start == 0 && s.end == 0 && s.trailing == 0
    &&& first != 0 ==> {
        &&& leaves_edge(items, edge, first)
        &&& leaves_edge(items, edge, last)
        &&& first <= last
        &&& s.found_edge
        &&& s.start == items[first].0
        &&& s.start != 0
        &&& s.trailing == run_before(items, edge, items.len() as int)
        &&& s.end == if first == last {
            0
        } else {
            items[last].0 - run_before(items, edge, last) - 1
        }
    }
}

/// The bounds of a line told from its layout. `first` and `last` are the
/// first and the last position at which the line leaves an edge-coloured
/// run, both 0 where it never does. The start is the index at `first`. The
/// end is 0 unless `last` is another position; then it is the index at `last`
/// less the length of the run before it, less one.
pub open spec fn encloses(
    items: Seq<(u32, [u8; 4])>,
    edge: [u8; 4],
    bounds: (int, int),
    first: int,
    last: int,
) -> bool {
    &&& forall|j: int| (first == 0 || j < first) ==> !#[trigger] leaves_edge(items, edge, j)
    &&& forall|j: int| last < j ==> !#[trigger] leaves_edge(items, edge, j)
    &&& first == 0 ==> last == 0 && bounds == (0int, 0int)
    &&& first != 0 ==> {
        &&& leaves_edge(items, edge, first)
        &&& leaves_edge(items, edge, last)
        &&& first <= last
        &&& bounds.0 == items[first].0
        &&& bounds.1 == if first == last {
            0
        } else {
            items[last].0 - run_before(items, edge, last) - 1
        }
    }
}

/// The run before a position does not depend on the pixels that follow it.
pub proof fn lemma_run_before_front(items: Seq<(u32, [u8; 4])>, edge: [u8; 4], p: int)
    requires
        items.len() > 0,
        p < items.len(),
    ensures
        run_before(items.drop_last(), edge, p) == run_before(items, edge, p),
    decreases p,
{
    if p > 0 {
        assert(items.drop_last()[p - 1] == items[p - 1]);
        lemma_run_before_front(items, edge, p - 1);
    }
}

/// On a line whose indices grow, the bounds are those that the layout of the
/// line tells: there are positions `first` and `last` with which the scan's
/// state is laid out.
pub proof fn lemma_scan_laid_out(items: Seq<(u32, [u8; 4])>, edge: [u8; 4]) -> (at: (int, int))
    requires
        increasing(items),
    ensures
        laid_out(items, edge, scan(items, edge), at.0, at.1),
        encloses(items, edge, bounds_of(items, edge), at.0, at.1),
    decreases items.len(),
{
    if items.len() == 0 {
        (0, 0)
    } else {
        let n = items.len() as int;
        let front = items.drop_last();
        let before = lemma_scan_laid_out(front, edge);
        let s = scan(front, edge);
        lemma_scan_settled(front, edge);
        lemma_scan_settled(items, edge);
        assert forall|j: int| j < n - 1 implies leaves_edge(front, edge, j) == leaves_edge(
            items,
            edge,
            j,
        ) by {
            if 1 <= j && j < n - 1 {
                assert(front[j - 1] == items[j - 1]);
                assert(front[j] == items[j]);
            }
        }
        assert forall|j: int| j >= n implies !leaves_edge(items, edge, j) by {}
        lemma_run_before_front(items, edge, n - 1);
        if before.0 != 0 {
            lemma_run_before_front(items, edge, before.1);
            assert(front[before.0] == items[before.0]);
            assert(front[before.1] == items[before.1]);
        }
        if front.len() > 0 {
            assert(front.last() == items[n - 2]);
            assert(items[n - 2].0 < items[n - 1].0);
        }
        assert(items.last() == items[n - 1]);
        let is_edge = items.last().1 == edge;
        let at = if is_edge || !leaves_edge(items, edge, n - 1) {
            before
        } else if before.0 == 0 {
            (n - 1, n - 1)
        } else {
            (before.0, n - 1)
        };
        if !is_edge && !s.found_edge {
            assert forall|i: int| 0 <= i < n implies (#[trigger] items[i]).1 != edge by {
                if i < n - 1 {
                    assert(front[i] == items[i]);
                }
            }
        }
        at
    }
}

/// Whether each item's index is its position in the line.
pub open spec fn dense(items: Seq<(u32, [u8; 4])>) -> bool {
    forall|i: int| 0 <= i < items.len() ==> (#[trigger] items[i]).0 == i
}

/// Whether `b` is `a` with no pixel changed but inside the interior of `a`.
pub open spec fn repainted_inside(
    a: Seq<(u32, [u8; 4])>,
    b: Seq<(u32, [u8; 4])>,
    edge: [u8; 4],
) -> bool {
    &&& a.len() == b.len()
    &&& forall|i: int|
        0 <= i < a.len() ==> (#[trigger] b[i]).0 == a[i].0 && (b[i].1 == a[i].1 || bounds_of(
            a,
            edge,
        ).0 <= i < bounds_of(a, edge).1)
}

/// The run before a position is the same in two lines that have the edge
/// colour at the same places from `low` on, if the run starts after `low`.
pub proof fn lemma_run_before_window(
    a: Seq<(u32, [u8; 4])>,
    b: Seq<(u32, [u8; 4])>,
    edge: [u8; 4],
    p: int,
    low: int,
)
    requires
        a.len() == b.len(),
        0 <= low,
        p <= a.len(),
        forall|k: int| low <= k < p ==> ((#[trigger] a[k]).1 == edge) == (b[k].1 == edge),
        run_before(a, edge, p) < p - low,
    ensures
        run_before(b, edge, p) == run_before(a, edge, p),
    decreases p,
{
    if p > 0 && a[p - 1].1 == edge {
        lemma_run_before_window(a, b, edge, p - 1, low);
    }
}

/// Every pixel of the run before a position has the edge colour.
pub proof fn lemma_run_is_edge(items: Seq<(u32, [u8; 4])>, edge: [u8; 4], p: int, k: int)
    requires
        p - run_before(items, edge, p) <= k < p,
    ensures
        0 <= k < items.len(),
        items[k].1 == edge,
    decreases p,
{
    if k < p - 1 {
        lemma_run_is_edge(items, edge, p - 1, k);
    }
}

/// What repainting inside the interior leaves of the layout. Where `a` has
/// an interior with a committed end, `b` leaves no edge-coloured run before
/// the first such position of `a` nor after the last, it leaves one at the
/// last, with the same run before it; elsewhere `b` is `a`.
proof fn lemma_repaint_layout(
    a: Seq<(u32, [u8; 4])>,
    b: Seq<(u32, [u8; 4])>,
    edge: [u8; 4],
) -> (at: (int, int))
    requires
        dense(a),
        repainted_inside(a, b, edge),
    ensures
        increasing(a),
        increasing(b),
        laid_out(a, edge, scan(a, edge), at.0, at.1),
        at.0 == 0 || at.0 == at.1 ==> b == a,
        at.0 != 0 && at.0 != at.1 ==> {
            &&& bounds_of(a, edge) == (at.0, at.1 - run_before(a, edge, at.1) - 1)
            &&& at.0 <= at.1 - run_before(a, edge, at.1) - 1
            &&& forall|k: int|
                0 <= k < a.len() && !(at.0 <= k < at.1 - run_before(a, edge, at.1) - 1) ==> (
                #[trigger] b[k]) == a[k]
            &&& forall|j: int| j < at.0 ==> !#[trigger] leaves_edge(b, edge, j)
            &&& forall|j: int| at.1 < j ==> !#[trigger] leaves_edge(b, edge, j)
            &&& leaves_edge(b, edge, at.1)
            &&& run_before(b, edge, at.1) == run_before(a, edge, at.1)
        },
{
    assert(increasing(a));
    assert(increasing(b)) by {
        assert forall|i: int, j: int| 0 <= i < j < b.len() implies b[i].0 < b[j].0 by {
            assert(b[i].0 == a[i].0 && b[j].0 == a[j].0);
        }
    }
    let at = lemma_scan_laid_out(a, edge);
    lemma_scan_settled(a, edge);
    if at.0 == 0 || at.0 == at.1 {
        assert(b =~= a);
    } else {
        let run = run_before(a, edge, at.1);
        let end = at.1 - run - 1;
        assert(bounds_of(a, edge) == (at.0, end));
        if at.0 >= at.1 - run {
            lemma_run_is_edge(a, edge, at.1, at.0);
        }
        assert forall|k: int| 0 <= k < a.len() && !(at.0 <= k < end) implies (#[trigger] b[k])
            == a[k] by {}
        assert forall|j: int| j < at.0 implies !#[trigger] leaves_edge(b, edge, j) by {
            assert(!leaves_edge(a, edge, j));
            if 1 <= j {
                assert(b[j - 1] == a[j - 1]);
                assert(b[j] == a[j]);
            }
        }
        assert(run >= 1);
        assert forall|j: int| at.1 < j implies !#[trigger] leaves_edge(b, edge, j) by {
            assert(!leaves_edge(a, edge, j));
            if j < a.len() {
                assert(b[j - 1] == a[j - 1]);
                assert(b[j] == a[j]);
            }
        }
        assert(b[at.1 - 1] == a[at.1 - 1]);
        assert(b[at.1] == a[at.1]);
        assert forall|k: int| end <= k < at.1 implies ((#[trigger] a[k]).1 == edge) == (b[k].1
            == edge) by {
            assert(b[k] == a[k]);
        }
        lemma_run_before_window(a, b, edge, at.1, end);
    }
    at
}

/// Repainting inside the interior, with no pixel given the edge colour,
/// leaves the bounds of the line as they were.
pub proof fn lemma_repaint_keeps_bounds(
    a: Seq<(u32, [u8; 4])>,
    b: Seq<(u32, [u8; 4])>,
    edge: [u8; 4],
)
    requires
        dense(a),
        repainted_inside(a, b, edge),
        forall|i: int| 0 <= i < a.len() && (#[trigger] b[i]).1 == edge ==> a[i].1 == edge,
    ensures
        bounds_of(b, edge) == bounds_of(a, edge),
{
    let at = lemma_repaint_layout(a, b, edge);
    if at.0 != 0 && at.0 != at.1 {
        let to = lemma_scan_laid_out(b, edge);
        assert(b[at.0 - 1] == a[at.0 - 1]);
        assert(leaves_edge(b, edge, at.0));
        assert(leaves_edge(b, edge, at.1));
        assert(to.0 == at.0);
        assert(to.1 == at.1);
        assert(b[at.0].0 == a[at.0].0);
        assert(b[at.1].0 == a[at.1].0);
    }
}

/// Repainting inside the interior, with no edge-coloured pixel changed,
/// leaves the line without a committed end, or with the same end and a
/// start that is no earlier.
pub proof fn lemma_repaint_narrows_bounds(
    a: Seq<(u32, [u8; 4])>,
    b: Seq<(u32, [u8; 4])>,
    edge: [u8; 4],
)
    requires
        dense(a),
        repainted_inside(a, b, edge),
        forall|i: int| 0 <= i < a.len() && (#[trigger] a[i]).1 == edge ==> b[i].1 == edge,
    ensures
        bounds_of(b, edge).1 == 0 || (bounds_of(b, edge).1 == bounds_of(a, edge).1 && bounds_of(
            a,
            edge,
        ).0 <= bounds_of(b, edge).0),
{
    let at = lemma_repaint_layout(a, b, edge);
    if at.0 != 0 && at.0 != at.1 {
        let to = lemma_scan_laid_out(b, edge);
        assert(leaves_edge(b, edge, at.1));
        assert(to.1 == at.1);
        assert(to.0 >= at.0);
        assert(b[to.0].0 == a[to.0].0);
        assert(b[at.1].0 == a[at.1].0);
    }
}

/// Whether two pixels agree in all four channels.
pub fn same_pixel(a: [u8; 4], b: [u8; 4]) -> (same: bool)
    ensures
        same == (a == b),
{
    broadcast use vstd::array::group_array_axioms;

    let same = a[0] == b[0] && a[1] == b[1] && a[2] == b[2] && a[3] == b[3];
    proof {
        if same {
            assert(a@ =~= b@);
            assert(a == b);
        }
    }
    same
}

/// Scans a line of pixels, each with its index, and returns the interior that
/// the edge-coloured runs enclose: the index of the first pixel after the
/// opening run, and the index that precedes the last edge-coloured run which
/// another pixel follows. A run that lasts to the end of the line commits no
/// end. The indices must grow along the line.
pub fn find_bounds(items: &[(u32, [u8; 4])], edge_rgba: [u8; 4]) -> (bounds: (u32, u32))
    requires
        increasing(items@),
    ensures
        (bounds.0 as int, bounds.1 as int) == bounds_of(items@, edge_rgba),
        exists|first: int, last: int|
            encloses(items@, edge_rgba, (bounds.0 as int, bounds.1 as int), first, last),
        edgeless(items@, edge_rgba) ==> bounds == (0u32, 0u32),
        bounds.0 == 0 ==> bounds.1 == 0,
        bounds.1 != 0 ==> 1 <= bounds.0 <= bounds.1 < items@.last().0,
        bounds.0 != 0 ==> bounds.0 <= items@.last().0,
{
    let mut found_edge: bool = false;
    let mut trailing: u32 = 0;
    let mut start: u32 = 0;
    let mut end: u32 = 0;
    let mut i: usize = 0;
    while i < items.len()
        invariant
            i <= items@.len(),
            increasing(items@),
            scan(items@.take(i as int), edge_rgba) == (ScanState {
                found_edge,
                trailing: trailing as int,
                start: start as int,
                end: end as int,
            }),
        decreases items@.len() - i,
    {
        let (index, pixel) = items[i];
        proof {
            let upto = items@.take(i + 1);
            assert(upto.drop_last() =~= items@.take(i as int));
            assert(upto.last() == items@[i as int]);
            assert(increasing(upto));
            lemma_scan_settled(upto, edge_rgba);
        }
        if same_pixel(pixel, edge_rgba) {
            found_edge = true;
            if start != 0 {
                trailing = trailing + 1;
            }
        } else if start == 0 && found_edge {
            start = index;
        } else if trailing != 0 {
            end = index - trailing - 1;
            trailing = 0;
        }
        i = i + 1;
    }
    proof {
        assert(items@.take(i as int) =~= items@);
        lemma_scan_settled(items@, edge_rgba);
        if edgeless(items@, edge_rgba) {
            lemma_edgeless_bounds(items@, edge_rgba);
        }
        let at = lemma_scan_laid_out(items@, edge_rgba);
        assert(encloses(items@, edge_rgba, (start as int, end as int), at.0, at.1));
    }
    (start, end)
}

} // verus!
