//! The key bindings: which command a key stands for.

use crate::tree::Direction;
use vstd::prelude::*;

verus! {

/// The key symbols and the modifier bit that the bindings use, as the
/// keyboard layer names them.
#[derive(Debug, Clone, Copy, PartialEq, Eq)]
pub struct KeyTable {
    /// The modifier bit that turns a key into a command.
    pub alt: u32,
    /// Starts a terminal.
    pub spawn: u32,
    /// Moves the focus.
    pub focus_left: u32,
    pub focus_down: u32,
    pub focus_up: u32,
    pub focus_right: u32,
    /// Swaps the focused window with its neighbor.
    pub swap_left: u32,
    pub swap_down: u32,
    pub swap_up: u32,
    pub swap_right: u32,
}

/// What a bound key asks for.
#[derive(Debug, Clone, Copy, PartialEq, Eq, Structural)]
pub enum Command {
    /// Start a terminal.
    Spawn,
    /// Give the focus to the neighbor in this direction.
    Focus(Direction),
    /// Swap the focused window with the neighbor in this direction.
    Swap(Direction),
}

/// The command for `keysym` under `modifiers`: none without the modifier
/// bit; else that of the first binding in the order of the table that has
/// this key symbol.
pub open spec fn command_for(keys: KeyTable, keysym: u32, modifiers: u32) -> Option<Command> {
    if modifiers & keys.alt == 0 {
        None
    } else if keysym == keys.spawn {
        Some(Command::Spawn)
    } else if keysym == keys.focus_left {
        Some(Command::Focus(Direction::Left))
    } else if keysym == keys.focus_down {
        Some(Command::Focus(Direction::Down))
    } else if keysym == keys.focus_up {
        Some(Command::Focus(Direction::Up))
    } else if keysym == keys.focus_right {
        Some(Command::Focus(Direction::Right))
    } else if keysym == keys.swap_left {
        Some(Command::Swap(Direction::Left))
    } else if keysym == keys.swap_down {
        Some(Command::Swap(Direction::Down))
    } else if keysym == keys.swap_up {
        Some(Command::Swap(Direction::Up))
    } else if keysym == keys.swap_right {
        Some(Command::Swap(Direction::Right))
    } else {
        None
    }
}

/// The command that the key `keysym`, pressed under `modifiers`, stands for.
pub fn key_command(keys: &KeyTable, keysym: u32, modifiers: u32) -> (r: Option<Command>)
    ensures
        r == command_for(*keys, keysym, modifiers),
{
    let is_alt = modifiers & keys.alt != 0;
    if !is_alt {
        None
    } else if keysym == keys.spawn {
        Some(Command::Spawn)
    } else if keysym == keys.focus_left {
        Some(Command::Focus(Direction::Left))
    } else if keysym == keys.focus_down {
        Some(Command::Focus(Direction::Down))
    } else if keysym == keys.focus_up {
        Some(Command::Focus(Direction::Up))
    } else if keysym == keys.focus_right {
        Some(Command::Focus(Direction::Right))
    } else if keysym == keys.swap_left {
        Some(Command::Swap(Direction::Left))
    } else if keysym == keys.swap_down {
        Some(Command::Swap(Direction::Down))
    } else if keysym == keys.swap_up {
        Some(Command::Swap(Direction::Up))
    } else if keysym == keys.swap_right {
        Some(Command::Swap(Direction::Right))
    } else {
        None
    }
}

} // verus!
