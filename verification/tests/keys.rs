use compositor::keys::{key_command, Command, KeyTable};
use compositor::tree::Direction;

fn table() -> KeyTable {
    KeyTable {
        alt: 8,
        spawn: 0xff0d,
        focus_left: 0x68,
        focus_down: 0x6a,
        focus_up: 0x6b,
        focus_right: 0x6c,
        swap_left: 0x48,
        swap_down: 0x4a,
        swap_up: 0x4b,
        swap_right: 0x4c,
    }
}

#[test]
fn keys_without_the_modifier_are_not_bound() {
    let keys = table();
    assert_eq!(key_command(&keys, 0x68, 0), None);
    assert_eq!(key_command(&keys, 0xff0d, 1 | 4), None);
}

#[test]
fn bound_keys_give_their_command() {
    let keys = table();
    assert_eq!(key_command(&keys, 0xff0d, 8), Some(Command::Spawn));
    assert_eq!(key_command(&keys, 0x68, 8), Some(Command::Focus(Direction::Left)));
    assert_eq!(key_command(&keys, 0x6a, 8), Some(Command::Focus(Direction::Down)));
    assert_eq!(key_command(&keys, 0x6b, 8 | 1), Some(Command::Focus(Direction::Up)));
    assert_eq!(key_command(&keys, 0x6c, 8), Some(Command::Focus(Direction::Right)));
    assert_eq!(key_command(&keys, 0x48, 8), Some(Command::Swap(Direction::Left)));
    assert_eq!(key_command(&keys, 0x4a, 8), Some(Command::Swap(Direction::Down)));
    assert_eq!(key_command(&keys, 0x4b, 8), Some(Command::Swap(Direction::Up)));
    assert_eq!(key_command(&keys, 0x4c, 8), Some(Command::Swap(Direction::Right)));
}

#[test]
fn other_keys_are_not_bound() {
    let keys = table();
    assert_eq!(key_command(&keys, 0x61, 8), None);
    assert_eq!(key_command(&keys, 0, 0xffff_ffff), None);
}

#[test]
fn the_first_binding_of_a_key_wins() {
    let mut keys = table();
    keys.swap_left = keys.focus_left;
    assert_eq!(key_command(&keys, 0x68, 8), Some(Command::Focus(Direction::Left)));
    keys.focus_left = keys.spawn;
    assert_eq!(key_command(&keys, 0xff0d, 8), Some(Command::Spawn));
}
