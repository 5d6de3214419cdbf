use vstd::prelude::*;

verus! {

/// Which region of a hovered pane the pointer falls in while a tab is dragged.
#[derive(Clone, Copy, Debug, PartialEq, Eq, Structural)]
pub enum DropZone {
    Left,
    Right,
    Top,
    Bottom,
    Middle,
}

/// The axis along which a split node lays out its children.
#[derive(Clone, Copy, Debug, PartialEq, Eq, Structural)]
pub enum SplitDirection {
    /// Children stand side by side, separated by vertical borders.
    Vertical,
    /// Children are stacked, separated by horizontal borders.
    Horizontal,
}

/// The side of a target pane at which a dragged tab opens a new split.
#[derive(Clone, Copy, Debug, PartialEq, Eq, Structural)]
pub enum SplitMoveDirection {
    Up,
    Down,
    Left,
    Right,
}

/// What dropping a dragged tab onto a pane does.
#[derive(Clone, Copy, Debug, PartialEq, Eq, Structural)]
pub enum DropAction {
    /// Move the tab into the hovered group at this position.
    IntoGroup(usize),
    /// Open a new split beside the hovered group and move the tab there.
    NewSplit(SplitMoveDirection),
}

/// The zone of a `width` x `height` pane that holds the pointer at (`x`, `y`),
/// coordinates taken from the pane's top left corner.
pub open spec fn zone_of(width: nat, height: nat, x: nat, y: nat) -> DropZone {
    if 4 * x < width {
        DropZone::Left
    } else if 4 * x > 3 * width {
        DropZone::Right
    } else if 4 * y < height {
        DropZone::Top
    } else if 4 * y > 3 * height {
        DropZone::Bottom
    } else {
        DropZone::Middle
    }
}

/// Classifies a pointer position over a pane: the outer quarters of the
/// width pick `Left` / `Right`, then the outer quarters of the height pick
/// `Top` / `Bottom`, and the rest is `Middle`.
pub fn drop_zone(width: u32, height: u32, x: u32, y: u32) -> (r: DropZone)
    ensures
        r == zone_of(width as nat, height as nat, x as nat, y as nat),
{
    let w = width as u64;
    let h = height as u64;
    let px = x as u64;
    let py = y as u64;
    if 4 * px < w {
        DropZone::Left
    } else if 4 * px > 3 * w {
        DropZone::Right
    } else if 4 * py < h {
        DropZone::Top
    } else if 4 * py > 3 * h {
        DropZone::Bottom
    } else {
        DropZone::Middle
    }
}

/// The position a tab dropped on the tab at `target_index` is inserted at:
/// before it when the pointer is over its left half, after it otherwise.
pub open spec fn tab_drop_index_of(target_index: nat, x: nat, tab_width: nat) -> nat {
    if 2 * x < tab_width {
        target_index
    } else {
        target_index + 1
    }
}

pub fn tab_drop_index(target_index: usize, x: u32, tab_width: u32) -> (r: usize)
    requires
        target_index < usize::MAX,
    ensures
        r == tab_drop_index_of(target_index as nat, x as nat, tab_width as nat),
{
    if 2 * (x as u64) < tab_width as u64 {
        target_index
    } else {
        target_index + 1
    }
}

impl SplitMoveDirection {
    pub open spec fn spec_direction(self) -> SplitDirection {
        match self {
            SplitMoveDirection::Up | SplitMoveDirection::Down => SplitDirection::Horizontal,
            SplitMoveDirection::Left | SplitMoveDirection::Right => SplitDirection::Vertical,
        }
    }

    pub open spec fn spec_before(self) -> bool {
        self == SplitMoveDirection::Up || self == SplitMoveDirection::Left
    }

    /// Up and Down stack the panes; Left and Right set them side by side.
    pub fn direction(&self) -> (r: SplitDirection)
        ensures
            r == self.spec_direction(),
    {
        match self {
            SplitMoveDirection::Up | SplitMoveDirection::Down => SplitDirection::Horizontal,
            SplitMoveDirection::Left | SplitMoveDirection::Right => SplitDirection::Vertical,
        }
    }

    /// Whether the moved pane goes before the target (Up, Left) or after it.
    pub fn before(&self) -> (r: bool)
        ensures
            r == self.spec_before(),
    {
        match self {
            SplitMoveDirection::Up | SplitMoveDirection::Left => true,
            SplitMoveDirection::Down | SplitMoveDirection::Right => false,
        }
    }
}

pub open spec fn drop_action_of(zone: DropZone, target_active: nat) -> DropAction {
    match zone {
        DropZone::Top => DropAction::NewSplit(SplitMoveDirection::Up),
        DropZone::Bottom => DropAction::NewSplit(SplitMoveDirection::Down),
        DropZone::Left => DropAction::NewSplit(SplitMoveDirection::Left),
        DropZone::Right => DropAction::NewSplit(SplitMoveDirection::Right),
        DropZone::Middle => DropAction::IntoGroup((target_active + 1) as usize),
    }
}

/// What a drop in `zone` of a pane does; a drop in the middle puts the tab
/// right after the pane's active tab.
pub fn drop_action(zone: DropZone, target_active: usize) -> (r: DropAction)
    requires
        target_active < usize::MAX,
    ensures
        r == drop_action_of(zone, target_active as nat),
{
    match zone {
        DropZone::Top => DropAction::NewSplit(SplitMoveDirection::Up),
        DropZone::Bottom => DropAction::NewSplit(SplitMoveDirection::Down),
        DropZone::Left => DropAction::NewSplit(SplitMoveDirection::Left),
        DropZone::Right => DropAction::NewSplit(SplitMoveDirection::Right),
        DropZone::Middle => DropAction::IntoGroup(target_active + 1),
    }
}

/// A drag in progress, held only between pointer-down and drop or cancel.
#[derive(Clone, Copy, Debug, PartialEq, Eq, Structural)]
pub enum DragState {
    Idle,
    /// A tab at `index` of the tab group `group` is being dragged.
    Tab { index: usize, group: u64 },
    /// The border before child `index` of the split node `split` is being
    /// dragged from the pointer position `start`.
    Border { index: usize, split: u64, start: i64 },
}

impl DragState {
    /// Ends the drag, on a drop or a cancel alike.
    pub fn end(&mut self)
        ensures
            *final(self) == DragState::Idle,
    {
        *self = DragState::Idle;
    }

    pub fn is_active(&self) -> (r: bool)
        ensures
            r == (*self != DragState::Idle),
    {
        match self {
            DragState::Idle => false,
            _ => true,
        }
    }
}

} // verus!
