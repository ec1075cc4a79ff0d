//! The host's resource budget: whether another pane may be opened, the
//! scrollback a new pane is given, and how many rows a capture may hold.
use vstd::prelude::*;
use crate::text::string_of;

verus! {

/// `n`, or the largest `usize` where `n` is larger.
pub open spec fn capped(n: int) -> int {
    if n <= usize::MAX {
        n
    } else {
        usize::MAX as int
    }
}

/// `a - b`, or 0 where `b` is larger.
pub open spec fn less(a: int, b: int) -> int {
    if a >= b {
        a - b
    } else {
        0
    }
}

/// The host's limits on what its workspace holds.
#[derive(Clone, Copy, Debug, PartialEq, Eq, Structural)]
pub struct ResourceLimits {
    pub max_panes: usize,
    pub max_tabs: usize,
    pub max_popups: usize,
    pub max_status_segments: usize,
    pub max_total_cells: usize,
    pub max_units: usize,
}

/// Why a pane was not opened.
#[derive(Clone, Copy, Debug, PartialEq, Eq, Structural)]
pub enum Refusal {
    /// The workspace is being shut down.
    ShuttingDown,
    /// The workspace holds as many panes as it may.
    PaneLimit,
    /// The pane's cells or bytes would pass the budget.
    ResourceLimit,
}

impl Refusal {
    /// The message the host answers with.
    pub fn message(&self) -> (s: String)
        ensures
            s@ == match self {
                Refusal::ShuttingDown => "workspace is shutting down"@,
                Refusal::PaneLimit => "configured pane limit reached"@,
                Refusal::ResourceLimit => "configured workspace resource limit reached"@,
            },
    {
        match self {
            Refusal::ShuttingDown => string_of("workspace is shutting down"),
            Refusal::PaneLimit => string_of("configured pane limit reached"),
            Refusal::ResourceLimit => string_of("configured workspace resource limit reached"),
        }
    }
}

/// Whether a pane of `new_cells` cells and `new_units` bytes may be opened
/// in a workspace of `panes` panes, `cells` cells and `units` bytes: not
/// while it shuts down, not at the pane limit, and not where the cells or
/// the bytes would pass their limits (sums held at the largest `usize`).
pub fn admit_pane(
    shutting_down: bool,
    panes: usize,
    cells: usize,
    new_cells: usize,
    units: usize,
    new_units: usize,
    limits: ResourceLimits,
) -> (r: Result<(), Refusal>)
    ensures
        r == (if shutting_down {
            Err(Refusal::ShuttingDown)
        } else if panes >= limits.max_panes {
            Err(Refusal::PaneLimit)
        } else if capped(cells + new_cells) > limits.max_total_cells || capped(units + new_units)
            > limits.max_units {
            Err(Refusal::ResourceLimit)
        } else {
            Ok(())
        }),
{
    if shutting_down {
        return Err(Refusal::ShuttingDown);
    }
    if panes >= limits.max_panes {
        return Err(Refusal::PaneLimit);
    }
    if cells.saturating_add(new_cells) > limits.max_total_cells || units.saturating_add(new_units)
        > limits.max_units {
        return Err(Refusal::ResourceLimit);
    }
    Ok(())
}

/// What a workspace state holds: its panes, tabs, popups and status
/// segments, the cells of its panes, and the bytes it takes.
#[derive(Clone, Copy, Debug, PartialEq, Eq, Structural)]
pub struct Usage {
    pub panes: usize,
    pub tabs: usize,
    pub popups: usize,
    pub status_segments: usize,
    pub cells: usize,
    pub units: usize,
}

/// Whether a state stays within every limit.
pub open spec fn within(usage: Usage, limits: ResourceLimits) -> bool {
    &&& usage.panes <= limits.max_panes
    &&& usage.tabs <= limits.max_tabs
    &&& usage.popups <= limits.max_popups
    &&& usage.status_segments <= limits.max_status_segments
    &&& usage.cells <= limits.max_total_cells
    &&& usage.units <= limits.max_units
}

/// The sum of some numbers.
pub open spec fn sum(values: Seq<usize>) -> int
    decreases values.len(),
{
    if values.len() == 0 {
        0
    } else {
        sum(values.drop_last()) + values.last()
    }
}

/// Sums are monotone in their prefix.
proof fn lemma_sum_prefix(values: Seq<usize>, k: int)
    requires
        0 <= k <= values.len(),
    ensures
        0 <= sum(values.take(k)) <= sum(values),
    decreases values.len() - k,
{
    if k < values.len() {
        lemma_sum_prefix(values, k + 1);
        assert(values.take(k + 1).drop_last() =~= values.take(k));
    } else {
        assert(values.take(k) =~= values);
    }
    lemma_sum_nonnegative(values.take(k));
}

proof fn lemma_sum_nonnegative(values: Seq<usize>)
    ensures
        sum(values) >= 0,
    decreases values.len(),
{
    if values.len() > 0 {
        lemma_sum_nonnegative(values.drop_last());
    }
}

/// The sum of some numbers that fit together in a `usize`.
pub fn total(values: &Vec<usize>) -> (n: usize)
    requires
        sum(values@) <= usize::MAX,
    ensures
        n == sum(values@),
{
    let mut n: usize = 0;
    let mut k: usize = 0;
    while k < values.len()
        invariant
            k <= values.len(),
            n == sum(values@.take(k as int)),
            sum(values@) <= usize::MAX,
        decreases values.len() - k,
    {
        proof {
            assert(values@.take(k + 1).drop_last() =~= values@.take(k as int));
            lemma_sum_prefix(values@, k + 1);
        }
        n = n + values[k];
        k = k + 1;
    }
    assert(values@.take(values.len() as int) =~= values@);
    n
}

/// The bytes a workspace is charged: its state's, what is set aside for a
/// change under way, and every pane's scrollback reservation (the sums held
/// at the largest `usize`).
pub open spec fn charged(state_units: usize, reservation: usize, history_reserved: Seq<usize>) -> int {
    capped(capped(state_units + reservation) + sum(history_reserved))
}

/// Whether a new state may replace the current one: it stays within every
/// limit, and the bytes it is charged stay within the byte limit.
pub fn admits(
    usage: Usage,
    reservation: usize,
    history_reserved: &Vec<usize>,
    limits: ResourceLimits,
) -> (ok: bool)
    requires
        sum(history_reserved@) <= usize::MAX,
    ensures
        ok == (within(usage, limits) && charged(usage.units, reservation, history_reserved@)
            <= limits.max_units),
{
    let inside = usage.panes <= limits.max_panes && usage.tabs <= limits.max_tabs && usage.popups
        <= limits.max_popups && usage.status_segments <= limits.max_status_segments && usage.cells
        <= limits.max_total_cells && usage.units <= limits.max_units;
    let reserved = total(history_reserved);
    let charge = usage.units.saturating_add(reservation).saturating_add(reserved);
    inside && charge <= limits.max_units
}

/// The rows of scrollback a new pane is given: what was asked for, cut to
/// the rows of `row_units` bytes that fit in the budget once the other
/// panes' scrollback and the largest state are set aside.
pub open spec fn history_rows(
    scrollback: usize,
    max_units: usize,
    reserved: usize,
    state_units: usize,
    row_units: usize,
) -> int {
    let room = less(less(max_units as int, reserved as int), state_units as int);
    let fit = room / (if row_units >= 1 {
        row_units as int
    } else {
        1
    });
    if scrollback <= fit {
        scrollback as int
    } else {
        fit
    }
}

/// The rows of scrollback a new pane is given.
pub fn history_limit(
    scrollback: usize,
    max_units: usize,
    reserved: usize,
    state_units: usize,
    row_units: usize,
) -> (rows: usize)
    ensures
        rows == history_rows(scrollback, max_units, reserved, state_units, row_units),
{
    let room = max_units.saturating_sub(reserved).saturating_sub(state_units);
    let per_row = if row_units >= 1 {
        row_units
    } else {
        1
    };
    let fit = room / per_row;
    if scrollback <= fit {
        scrollback
    } else {
        fit
    }
}

/// The scrollback a pane is given fits in what the budget has left: its
/// rows, at `row_units` bytes each, come to no more than the limit less the
/// other panes' scrollback and the largest state.
pub proof fn lemma_history_fits(
    scrollback: usize,
    max_units: usize,
    reserved: usize,
    state_units: usize,
    row_units: usize,
)
    requires
        row_units >= 1,
    ensures
        history_rows(scrollback, max_units, reserved, state_units, row_units) * row_units <= less(
            less(max_units as int, reserved as int),
            state_units as int,
        ),
{
    let room = less(less(max_units as int, reserved as int), state_units as int);
    let rows = history_rows(scrollback, max_units, reserved, state_units, row_units);
    let r = row_units as int;
    assert((room / r) * r <= room) by (nonlinear_arith)
        requires
            room >= 0,
            r >= 1,
    ;
    assert(rows * r <= (room / r) * r) by (nonlinear_arith)
        requires
            0 <= rows <= room / r,
            r >= 1,
    ;
}

/// The bytes one row of a capture may take: 128 per column with
/// attributes, else a cell's text per column and a line break; there is
/// always at least one column.
pub open spec fn row_bytes(columns: usize, attrs: bool, cell_bytes: usize) -> int {
    let c = if columns >= 1 {
        columns as int
    } else {
        1
    };
    if attrs {
        capped(c * 128)
    } else {
        capped(capped(c * cell_bytes) + 1)
    }
}

/// The rows a capture holds: what was asked for, cut to the pane's
/// scrollback and to the rows whose bytes fit in `max_bytes`, and one more.
pub open spec fn capture_rows_of(
    scrollback: usize,
    history: usize,
    columns: usize,
    attrs: bool,
    cell_bytes: usize,
    max_bytes: usize,
) -> int {
    let bounded = capped(max_bytes as int / row_bytes(columns, attrs, cell_bytes) + 1);
    let rows = if scrollback <= history {
        scrollback as int
    } else {
        history as int
    };
    if rows <= bounded {
        rows
    } else {
        bounded
    }
}

/// The rows a capture of a pane holds, where a row of text takes up to
/// `cell_bytes` bytes per column.
pub fn capture_rows(
    scrollback: usize,
    history: usize,
    columns: usize,
    attrs: bool,
    cell_bytes: usize,
    max_bytes: usize,
) -> (rows: usize)
    ensures
        rows == capture_rows_of(scrollback, history, columns, attrs, cell_bytes, max_bytes),
{
    let c = if columns >= 1 {
        columns
    } else {
        1
    };
    let per_row = if attrs {
        match c.checked_mul(128) {
            Some(n) => n,
            None => usize::MAX,
        }
    } else {
        match c.checked_mul(cell_bytes) {
            Some(n) => n.saturating_add(1),
            None => usize::MAX,
        }
    };
    assert(per_row >= 1) by (nonlinear_arith)
        requires
            c >= 1,
            per_row == (if attrs {
                capped(c * 128)
            } else {
                capped(capped(c * cell_bytes) + 1)
            }),
    ;
    let bounded = (max_bytes / per_row).saturating_add(1);
    let rows = if scrollback <= history {
        scrollback
    } else {
        history
    };
    if rows <= bounded {
        rows
    } else {
        bounded
    }
}


/// Why a new layout of the panes was refused.
#[derive(Clone, Copy, Debug, PartialEq, Eq, Structural)]
pub enum GeometryRefusal {
    /// The panes would hold more cells than the budget allows.
    CellBudget,
    /// The panes' cells would take more bytes than the budget allows, or a
    /// pane could not take its new size.
    ByteBudget,
}

impl GeometryRefusal {
    /// The status the host shows.
    pub fn message(&self) -> (s: String)
        ensures
            s@ == match self {
                GeometryRefusal::CellBudget => "configured terminal cell budget reached"@,
                GeometryRefusal::ByteBudget => "configured terminal byte budget reached"@,
            },
    {
        match self {
            GeometryRefusal::CellBudget => string_of("configured terminal cell budget reached"),
            GeometryRefusal::ByteBudget => string_of("configured terminal byte budget reached"),
        }
    }
}

/// Whether the panes may take a new layout that asks for `requested` cells,
/// each up to `cell_bytes` bytes of text, in a workspace charged `charged`
/// bytes, where `resized` says whether every pane could take its new size;
/// the bytes the workspace is then charged, if so (sums held at the largest
/// `usize`).
pub fn admit_geometry(
    requested: usize,
    charged: usize,
    cell_bytes: usize,
    resized: bool,
    limits: ResourceLimits,
) -> (r: Result<usize, GeometryRefusal>)
    ensures
        r == (if requested > limits.max_total_cells || requested > limits.max_units {
            Err(GeometryRefusal::CellBudget)
        } else if !resized || capped(charged + capped(requested * cell_bytes)) > limits.max_units {
            Err(GeometryRefusal::ByteBudget)
        } else {
            Ok(capped(charged + capped(requested * cell_bytes)) as usize)
        }),
{
    if requested > limits.max_total_cells || requested > limits.max_units {
        return Err(GeometryRefusal::CellBudget);
    }
    let text = match requested.checked_mul(cell_bytes) {
        Some(n) => n,
        None => usize::MAX,
    };
    let projected = charged.saturating_add(text);
    if !resized || projected > limits.max_units {
        return Err(GeometryRefusal::ByteBudget);
    }
    Ok(projected)
}

}
