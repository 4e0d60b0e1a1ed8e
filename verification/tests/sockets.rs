use wave_function_collapse::tile_data::default_rotation;
use wave_function_collapse::{Matches, SocketMap, TileEntry};

fn sockets(up: &str, right: &str, down: &str, left: &str) -> SocketMap {
    SocketMap {
        up: up.to_string(),
        right: right.to_string(),
        down: down.to_string(),
        left: left.to_string(),
    }
}

#[test]
fn mirrored_sockets_match() {
    assert!("ab".to_string().matches(&"ba".to_string()));
    assert!("abc".to_string().matches(&"cba".to_string()));
}

#[test]
fn matching_is_symmetric_on_samples() {
    let pairs = [("ab", "ba"), ("ab", "ab"), ("", "x"), ("mm", "mm"), ("abc", "cb")];
    for (a, b) in pairs {
        assert_eq!(
            a.to_string().matches(&b.to_string()),
            b.to_string().matches(&a.to_string())
        );
    }
}

#[test]
fn non_mirrored_sockets_do_not_match() {
    assert!(!"ab".to_string().matches(&"ab".to_string()));
    assert!(!"ab".to_string().matches(&"b".to_string()));
    assert!(!"".to_string().matches(&"a".to_string()));
}

#[test]
fn empty_sockets_match() {
    assert!("".to_string().matches(&"".to_string()));
}

#[test]
fn palindromic_socket_matches_itself() {
    assert!("mm".to_string().matches(&"mm".to_string()));
    assert!("aba".to_string().matches(&"aba".to_string()));
}

#[test]
fn rotation_moves_each_socket_one_side() {
    let m = sockets("u", "r", "d", "l");
    let turned = m.rotate();
    assert_eq!(turned.up, "l");
    assert_eq!(turned.right, "u");
    assert_eq!(turned.down, "r");
    assert_eq!(turned.left, "d");
}

#[test]
fn four_rotations_restore_sockets() {
    let m = sockets("u", "r", "d", "l");
    let turned = m.rotate_n(4);
    assert_eq!(turned.up, m.up);
    assert_eq!(turned.right, m.right);
    assert_eq!(turned.down, m.down);
    assert_eq!(turned.left, m.left);
}

#[test]
fn default_rotation_is_identity_only() {
    assert_eq!(default_rotation(), vec![0i8]);
}

#[test]
fn expanded_sockets_turn_once_per_rotation() {
    let entry = TileEntry {
        file: "tile.png".to_string(),
        sockets: sockets("u", "r", "d", "l"),
        rotations: vec![0, 1, 2],
    };
    let maps = entry.expanded_sockets();
    assert_eq!(maps.len(), 3);
    assert_eq!(maps[0].up, "u");
    assert_eq!(maps[1].up, "l");
    assert_eq!(maps[1].right, "u");
    assert_eq!(maps[2].up, "d");
    assert_eq!(maps[2].right, "l");
}
