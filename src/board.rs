use vstd::prelude::*;

verus! {

/// A board cell as `(x, y)`; `y` grows downwards.
pub type Cell = (u16, u16);

/// The smallest width and height a game accepts: room for the border, a
/// starting cell two cells away from it, and the food.
pub const MIN_SIDE: u16 = 7;

/// The exclusive upper bound of playable coordinates along a side of `side`
/// cells: the last two columns (or rows) belong to the frame.
pub open spec fn play_limit(side: u16) -> int {
    if side >= 2 {
        side - 2
    } else {
        0
    }
}

/// The playable area: one cell of border at the low end, `play_limit` at the
/// high end.
pub open spec fn in_play(width: u16, height: u16, c: Cell) -> bool {
    &&& 1 <= c.0 < play_limit(width)
    &&& 1 <= c.1 < play_limit(height)
}

/// Row-major order of cells: by row, then by column.
pub open spec fn scans_before(a: Cell, b: Cell) -> bool {
    a.1 < b.1 || (a.1 == b.1 && a.0 < b.0)
}

/// No cell occurs twice in `s`.
pub open spec fn distinct_cells(s: Seq<Cell>) -> bool {
    forall|i: int, j: int| 0 <= i < j < s.len() ==> s[i] != s[j]
}

/// `side - 2`, or zero for a side narrower than the frame.
pub fn limit_of(side: u16) -> (r: u16)
    ensures
        r == play_limit(side),
{
    side.saturating_sub(2)
}

/// Whether `c` occurs in `cells`.
pub fn contains_cell(cells: &Vec<Cell>, c: Cell) -> (r: bool)
    ensures
        r == cells@.contains(c),
{
    let mut i: usize = 0;
    while i < cells.len()
        invariant
            0 <= i <= cells.len(),
            forall|j: int| 0 <= j < i ==> cells@[j] != c,
        decreases cells.len() - i,
    {
        let d = cells[i];
        if d.0 == c.0 && d.1 == c.1 {
            assert(cells@[i as int] == c);
            return true;
        }
        i += 1;
    }
    false
}

/// The first index at which `c` occurs in `s`.
pub open spec fn first_index(s: Seq<Cell>, c: Cell) -> int {
    choose|i: int| 0 <= i < s.len() && s[i] == c && forall|j: int| 0 <= j < i ==> s[j] != c
}

/// Where `c` first occurs in `cells`, if it does.
pub fn position_of(cells: &Vec<Cell>, c: Cell) -> (r: Option<usize>)
    ensures
        r is None <==> !cells@.contains(c),
        r matches Some(i) ==> i == first_index(cells@, c) && i < cells@.len() && cells@[i as int] == c,
{
    let mut i: usize = 0;
    while i < cells.len()
        invariant
            0 <= i <= cells.len(),
            forall|j: int| 0 <= j < i ==> cells@[j] != c,
        decreases cells.len() - i,
    {
        let d = cells[i];
        if d.0 == c.0 && d.1 == c.1 {
            let ghost k = first_index(cells@, c);
            assert(cells@[i as int] == c);
            assert(0 <= k < cells@.len() && cells@[k] == c && forall|j: int| 0 <= j < k ==> cells@[j] != c);
            assert(k == i) by {
                if k < i {
                    assert(cells@[k] != c);
                } else if k > i {
                    assert(cells@[i as int] != c);
                }
            }
            return Some(i);
        }
        i += 1;
    }
    None
}

} // verus!
