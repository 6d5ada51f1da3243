//! The editing cursor of the planner and the actions a key press asks
//! for. The cursor walks a table of slots, one row per slot and one
//! column per editable field.
use vstd::prelude::*;

verus! {

/// The editable columns of one slot row.
#[derive(Clone, Copy, Debug, PartialEq, Eq, Structural)]
pub enum Field {
    Name,
    Length,
    Start,
    Requested,
}

impl Default for Field {
    /// The name column.
    fn default() -> (r: Self)
        ensures
            r == Field::Name,
    {
        Field::Name
    }
}

/// The column to the left of `f`; the leftmost column stays put.
pub open spec fn field_left(f: Field) -> Field {
    match f {
        Field::Name => Field::Name,
        Field::Start => Field::Name,
        Field::Requested => Field::Start,
        Field::Length => Field::Requested,
    }
}

/// The column to the right of `f`; the rightmost column stays put.
pub open spec fn field_right(f: Field) -> Field {
    match f {
        Field::Name => Field::Start,
        Field::Start => Field::Length,
        Field::Requested => Field::Length,
        Field::Length => Field::Length,
    }
}

/// Where the planner's editing cursor stands: a row and a column.
#[derive(Clone, Copy, Debug, PartialEq, Eq, Structural)]
pub struct Cursor {
    pub index: usize,
    pub field: Field,
}

impl Default for Cursor {
    /// The first row, name column.
    fn default() -> (r: Self)
        ensures
            r == (Cursor { index: 0, field: Field::Name }),
    {
        Cursor { index: 0, field: Field::Name }
    }
}

impl Cursor {
    /// One row up, stopping at the first row.
    pub fn up(&mut self)
        ensures
            final(self).index == (if old(self).index > 0 {
                old(self).index - 1
            } else {
                0int
            }),
            final(self).field == old(self).field,
    {
        if self.index > 0 {
            self.index = self.index - 1;
        }
    }

    /// One row down, stopping at the last of `slot_qty` rows.
    pub fn down(&mut self, slot_qty: usize)
        requires
            slot_qty > 0,
        ensures
            final(self).index == (if old(self).index < slot_qty - 1 {
                old(self).index + 1
            } else {
                old(self).index as int
            }),
            final(self).field == old(self).field,
    {
        if self.index < slot_qty - 1 {
            self.index = self.index + 1;
        }
    }

    /// One column to the left.
    pub fn left(&mut self)
        ensures
            final(self).field == field_left(old(self).field),
            final(self).index == old(self).index,
    {
        self.field = match self.field {
            Field::Name => Field::Name,
            Field::Start => Field::Name,
            Field::Requested => Field::Start,
            Field::Length => Field::Requested,
        };
    }

    /// One column to the right.
    pub fn right(&mut self)
        ensures
            final(self).field == field_right(old(self).field),
            final(self).index == old(self).index,
    {
        self.field = match self.field {
            Field::Name => Field::Start,
            Field::Start => Field::Length,
            Field::Requested => Field::Length,
            Field::Length => Field::Length,
        };
    }
}

/// A pressed key, as far as the planner distinguishes them. Keys the
/// planner ignores all arrive as `Other`.
#[derive(Clone, Copy, Debug, PartialEq, Eq, Structural)]
pub enum Key {
    Enter,
    Left,
    Right,
    Up,
    Down,
    Delete,
    Insert,
    Esc,
    Char(char),
    Other,
}

/// What the user asks the planner to do.
#[derive(Clone, Copy, Debug, PartialEq, Eq, Structural)]
pub enum Action {
    Down,
    Up,
    Left,
    Right,
    Tomorrow,
    Yesterday,
    Insert,
    Delete,
    Quit,
    Edit,
    Upswap,
    Downswap,
    Begin,
}

/// The key binding table: which action, if any, a key asks for.
pub open spec fn action_for(key: Key) -> Option<Action> {
    match key {
        Key::Enter => Some(Action::Edit),
        Key::Left => Some(Action::Left),
        Key::Right => Some(Action::Right),
        Key::Up => Some(Action::Up),
        Key::Down => Some(Action::Down),
        Key::Delete => Some(Action::Delete),
        Key::Insert => Some(Action::Insert),
        Key::Esc => Some(Action::Quit),
        Key::Char(c) => match c {
            'j' => Some(Action::Down),
            'k' => Some(Action::Up),
            'h' => Some(Action::Left),
            'l' => Some(Action::Right),
            'i' => Some(Action::Insert),
            'q' => Some(Action::Quit),
            'r' => Some(Action::Upswap),
            'f' => Some(Action::Downswap),
            'b' => Some(Action::Begin),
            'm' => Some(Action::Tomorrow),
            'n' => Some(Action::Yesterday),
            _ => None,
        },
        Key::Other => None,
    }
}

impl Action {
    /// Maps a pressed key to the action it is bound to, if any.
    pub fn from_key(key: Key) -> (r: Option<Action>)
        ensures
            r == action_for(key),
    {
        match key {
            Key::Enter => Some(Action::Edit),
            Key::Left => Some(Action::Left),
            Key::Right => Some(Action::Right),
            Key::Up => Some(Action::Up),
            Key::Down => Some(Action::Down),
            Key::Delete => Some(Action::Delete),
            Key::Insert => Some(Action::Insert),
            Key::Esc => Some(Action::Quit),
            Key::Char(c) => match c {
                'j' => Some(Action::Down),
                'k' => Some(Action::Up),
                'h' => Some(Action::Left),
                'l' => Some(Action::Right),
                'i' => Some(Action::Insert),
                'q' => Some(Action::Quit),
                'r' => Some(Action::Upswap),
                'f' => Some(Action::Downswap),
                'b' => Some(Action::Begin),
                'm' => Some(Action::Tomorrow),
                'n' => Some(Action::Yesterday),
                _ => None,
            },
            Key::Other => None,
        }
    }
}

} // verus!
