//! What a mouse event means: which drag it starts, carries on or ends, and
//! which command it runs.
//!
//! Working out *where* a click landed needs the layout and every window's
//! scroll, so whoever holds the windows asks that and hands the answers in.
//! Deciding what the click *means* is decided here, and the command it names
//! goes through the command machinery like any keystroke.
use vstd::prelude::*;

verus! {

/// A mouse button.
#[derive(Debug, Clone, Copy, PartialEq, Eq, Structural)]
pub enum MouseButton {
    Left,
    Right,
    Middle,
}

/// What happened to the mouse.
#[derive(Debug, Clone, Copy, PartialEq, Eq, Structural)]
pub enum MouseKind {
    Down(MouseButton),
    Up(MouseButton),
    Drag(MouseButton),
    Moved,
    ScrollUp,
    ScrollDown,
}

/// Which way a boundary between two windows runs: a horizontal one divides a
/// stacked pair and moves up and down; a vertical one divides a side-by-side
/// pair and moves left and right.
#[derive(Debug, Clone, Copy, PartialEq, Eq, Structural)]
pub enum Orientation {
    Horizontal,
    Vertical,
}

/// What the pointer is over. `P` names a split of the window tree.
#[derive(Debug)]
pub enum Hit<P> {
    /// The text of WINDOW, at LINE and COLUMN of its buffer.
    Text { window: u64, line: usize, column: usize },
    /// The boundary between the two halves of the split at PATH.
    Separator { path: P, orientation: Orientation },
    /// The status line of WINDOW.
    ModeLine { window: u64 },
    /// A floating window.
    Float,
}

/// A drag in progress.
#[derive(Debug)]
pub enum MouseDrag<P> {
    /// Selecting text in the window the drag began in; AT is where the
    /// pointer was last seen, in cells of the frame.
    Text { window: u64, at: (u16, u16) },
    /// Moving the boundary of the split at PATH; LAST is the pointer's last
    /// position along the axis the boundary moves in.
    Divider { path: P, orientation: Orientation, last: u16 },
}

/// The command a mouse event runs.
#[derive(Debug, Clone, Copy, PartialEq, Eq, Structural)]
pub enum MouseCommand {
    /// `mouse-set-point`: put point of WINDOW at LINE and COLUMN.
    SetPoint { window: u64, line: usize, column: usize },
    /// `mouse-drag-to`: carry the selection of WINDOW to LINE and COLUMN.
    DragTo { window: u64, line: usize, column: usize },
    /// `mouse-resize`: move the boundary being dragged by DELTA cells.
    Resize { delta: i32 },
    /// `mouse-scroll`: scroll WINDOW by LINES.
    Scroll { window: u64, lines: i8 },
}

/// What a mouse event leaves behind: the drag now in progress, and the
/// command to run, if any. The event was acted on exactly when there is a
/// command.
#[derive(Debug)]
pub struct MouseStep<P> {
    pub drag: Option<MouseDrag<P>>,
    pub command: Option<MouseCommand>,
}

/// The pointer's position along the axis a boundary of ORIENTATION moves in.
pub open spec fn axis(orientation: Orientation, x: u16, y: u16) -> u16 {
    match orientation {
        Orientation::Horizontal => y,
        Orientation::Vertical => x,
    }
}

/// One more event of the drag DRAG, with the pointer at (X, Y); POSITION is
/// where (X, Y) falls in the buffer of the window a text drag began in,
/// clamped to what that window shows.
///
/// A text drag answers against the window it began in, not whatever is under
/// the pointer now. A divider drag moves the boundary by how far the pointer
/// came since the last event, and keeps that as a running position, so a
/// boundary that could not move as far as the pointer did does not lag
/// behind it for the rest of the drag.
pub open spec fn continued<P>(drag: Option<MouseDrag<P>>, x: u16, y: u16, position: Option<(usize, usize)>) -> MouseStep<P> {
    match drag {
        Some(MouseDrag::Text { window, at }) => MouseStep {
            drag: Some(MouseDrag::Text { window, at: (x, y) }),
            command: match position {
                Some((line, column)) => Some(MouseCommand::DragTo { window, line, column }),
                None => None,
            },
        },
        Some(MouseDrag::Divider { path, orientation, last }) => {
            let now = axis(orientation, x, y);
            MouseStep {
                drag: Some(MouseDrag::Divider { path, orientation, last: now }),
                command: if now != last {
                    Some(MouseCommand::Resize { delta: (now - last) as i32 })
                } else {
                    None
                },
            }
        },
        None => MouseStep { drag: None, command: None },
    }
}

/// An event that does not carry on a drag, over HIT; DIVIDER is the split a
/// status line divides, where HIT is one.
pub open spec fn pressed<P>(kind: MouseKind, x: u16, y: u16, drag: Option<MouseDrag<P>>, hit: Hit<P>, divider: Option<P>) -> MouseStep<P> {
    match kind {
        MouseKind::Down(MouseButton::Left) => match hit {
            Hit::Text { window, line, column } => MouseStep {
                drag: Some(MouseDrag::Text { window, at: (x, y) }),
                command: Some(MouseCommand::SetPoint { window, line, column }),
            },
            Hit::Separator { path, orientation } => MouseStep {
                drag: Some(MouseDrag::Divider { path, orientation, last: axis(orientation, x, y) }),
                command: None,
            },
            Hit::ModeLine { window } => match divider {
                Some(path) => MouseStep {
                    drag: Some(MouseDrag::Divider { path, orientation: Orientation::Horizontal, last: y }),
                    command: None,
                },
                None => MouseStep { drag, command: None },
            },
            Hit::Float => MouseStep { drag, command: None },
        },
        MouseKind::ScrollUp => match hit {
            Hit::Text { window, .. } => MouseStep { drag, command: Some(MouseCommand::Scroll { window, lines: -1i8 }) },
            _ => MouseStep { drag, command: None },
        },
        MouseKind::ScrollDown => match hit {
            Hit::Text { window, .. } => MouseStep { drag, command: Some(MouseCommand::Scroll { window, lines: 1i8 }) },
            _ => MouseStep { drag, command: None },
        },
        _ => MouseStep { drag, command: None },
    }
}

/// What a mouse event of KIND at (X, Y) does, with the mouse turned on or off
/// by ENABLED, DRAG in progress, HIT what the pointer is over (`None` for
/// nothing), and POSITION and DIVIDER as [`continued`] and [`pressed`] take
/// them.
///
/// Continuing or ending a drag is answered before what is under the pointer,
/// because a drag is about where it began: a few rows in, the pointer is
/// often over another window or off the frame, where nothing is hit.
pub open spec fn mouse_outcome<P>(
    enabled: bool,
    kind: MouseKind,
    x: u16,
    y: u16,
    drag: Option<MouseDrag<P>>,
    hit: Option<Hit<P>>,
    position: Option<(usize, usize)>,
    divider: Option<P>,
) -> MouseStep<P> {
    if !enabled {
        MouseStep { drag, command: None }
    } else {
        match kind {
            MouseKind::Drag(MouseButton::Left) => continued(drag, x, y, position),
            MouseKind::Up(MouseButton::Left) => MouseStep { drag: None, command: None },
            _ => match hit {
                Some(h) => pressed(kind, x, y, drag, h, divider),
                None => MouseStep { drag, command: None },
            },
        }
    }
}

/// How far the boundary of a divider drag DRAG moves over a run of drag
/// events with the pointer at each of MOVES in turn: the sum of the resizes
/// they run.
pub open spec fn resize_total<P>(drag: MouseDrag<P>, moves: Seq<(u16, u16)>) -> int
    decreases moves.len(),
{
    if moves.len() == 0 {
        0
    } else {
        let s = continued(Some(drag), moves[0].0, moves[0].1, None);
        let d = match s.command {
            Some(MouseCommand::Resize { delta }) => delta as int,
            _ => 0,
        };
        match s.drag {
            Some(next) => d + resize_total(next, moves.drop_first()),
            None => d,
        }
    }
}

/// A dragged boundary keeps up with the pointer: over any run of drag events,
/// the resizes add up to how far the pointer came along the boundary's axis
/// since the last position the drag recorded.
pub proof fn lemma_divider_follows_pointer<P>(path: P, orientation: Orientation, last: u16, moves: Seq<(u16, u16)>)
    requires
        moves.len() > 0,
    ensures
        resize_total(MouseDrag::Divider { path, orientation, last }, moves)
            == axis(orientation, moves.last().0, moves.last().1) - last,
    decreases moves.len(),
{
    let now = axis(orientation, moves[0].0, moves[0].1);
    let rest = moves.drop_first();
    let next = MouseDrag::Divider { path, orientation, last: now };
    assert(continued(Some(MouseDrag::Divider { path, orientation, last }), moves[0].0, moves[0].1, None).drag
        == Some(next));
    if moves.len() > 1 {
        lemma_divider_follows_pointer(path, orientation, now, rest);
        assert(rest.last() == moves.last());
    } else {
        assert(resize_total(next, rest) == 0);
    }
}

/// Act on a mouse event: the drag left in progress and the command to run.
///
/// The questions about the layout are asked by the caller, each of them a
/// reading of the windows as they stand: HIT is what (X, Y) is over,
/// POSITION where (X, Y) falls in the window a text drag in progress began
/// in, and DIVIDER the split divided by the status line that HIT is, when it
/// is one.
pub fn mouse_step<P>(
    enabled: bool,
    kind: MouseKind,
    x: u16,
    y: u16,
    drag: Option<MouseDrag<P>>,
    hit: Option<Hit<P>>,
    position: Option<(usize, usize)>,
    divider: Option<P>,
) -> (r: MouseStep<P>)
    ensures
        r == mouse_outcome(enabled, kind, x, y, drag, hit, position, divider),
{
    if !enabled {
        return MouseStep { drag, command: None };
    }
    match kind {
        MouseKind::Drag(MouseButton::Left) => {
            return continue_drag(drag, x, y, position);
        },
        MouseKind::Up(MouseButton::Left) => {
            return MouseStep { drag: None, command: None };
        },
        _ => {},
    }
    match hit {
        Some(h) => press(kind, x, y, drag, h, divider),
        None => MouseStep { drag, command: None },
    }
}

fn axis_of(orientation: Orientation, x: u16, y: u16) -> (r: u16)
    ensures
        r == axis(orientation, x, y),
{
    match orientation {
        Orientation::Horizontal => y,
        Orientation::Vertical => x,
    }
}

fn continue_drag<P>(drag: Option<MouseDrag<P>>, x: u16, y: u16, position: Option<(usize, usize)>) -> (r: MouseStep<P>)
    ensures
        r == continued(drag, x, y, position),
{
    match drag {
        Some(MouseDrag::Text { window, at }) => {
            let command = match position {
                Some((line, column)) => Some(MouseCommand::DragTo { window, line, column }),
                None => None,
            };
            MouseStep { drag: Some(MouseDrag::Text { window, at: (x, y) }), command }
        },
        Some(MouseDrag::Divider { path, orientation, last }) => {
            let now = axis_of(orientation, x, y);
            let command = if now != last {
                let delta: i32 = now as i32 - last as i32;
                Some(MouseCommand::Resize { delta })
            } else {
                None
            };
            MouseStep { drag: Some(MouseDrag::Divider { path, orientation, last: now }), command }
        },
        None => MouseStep { drag: None, command: None },
    }
}

fn press<P>(kind: MouseKind, x: u16, y: u16, drag: Option<MouseDrag<P>>, hit: Hit<P>, divider: Option<P>) -> (r: MouseStep<P>)
    ensures
        r == pressed(kind, x, y, drag, hit, divider),
{
    match kind {
        MouseKind::Down(MouseButton::Left) => match hit {
            Hit::Text { window, line, column } => MouseStep {
                drag: Some(MouseDrag::Text { window, at: (x, y) }),
                command: Some(MouseCommand::SetPoint { window, line, column }),
            },
            Hit::Separator { path, orientation } => {
                let last = axis_of(orientation, x, y);
                MouseStep { drag: Some(MouseDrag::Divider { path, orientation, last }), command: None }
            },
            Hit::ModeLine { window } => match divider {
                Some(path) => MouseStep {
                    drag: Some(MouseDrag::Divider { path, orientation: Orientation::Horizontal, last: y }),
                    command: None,
                },
                None => MouseStep { drag, command: None },
            },
            Hit::Float => MouseStep { drag, command: None },
        },
        MouseKind::ScrollUp => match hit {
            Hit::Text { window, .. } => MouseStep { drag, command: Some(MouseCommand::Scroll { window, lines: -1 }) },
            _ => MouseStep { drag, command: None },
        },
        MouseKind::ScrollDown => match hit {
            Hit::Text { window, .. } => MouseStep { drag, command: Some(MouseCommand::Scroll { window, lines: 1 }) },
            _ => MouseStep { drag, command: None },
        },
        _ => MouseStep { drag, command: None },
    }
}

} // verus!
