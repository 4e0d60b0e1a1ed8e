//! Tiles of the catalog: a socket string per side and a selection weight.
//!
//! Two sockets are compatible when one reads as the other reversed, so a
//! tile may sit beside another exactly when their facing sockets mirror
//! each other.

use vstd::prelude::*;

use crate::direction::Direction;

verus! {

/// The label on one edge of a tile.
pub type Socket = String;

/// Two socket strings are compatible when the first is the second read in
/// reverse order.
pub open spec fn compatible(a: Seq<char>, b: Seq<char>) -> bool {
    a == b.reverse()
}

/// Socket compatibility is symmetric: reversing twice restores a string.
pub proof fn lemma_compatible_symmetric(a: Seq<char>, b: Seq<char>)
    ensures
        compatible(a, b) == compatible(b, a),
{
    if compatible(a, b) {
        assert(b =~= a.reverse());
    }
    if compatible(b, a) {
        assert(a =~= b.reverse());
    }
}

/// Edge labels that can be held against each other.
pub trait Matches {
    /// What it means for `self` to accept `other` as a facing edge.
    spec fn matches_spec(&self, other: &Self) -> bool;

    /// Decides whether `self` accepts `other` as a facing edge.
    fn matches(&self, other: &Self) -> (r: bool)
        ensures
            r == self.matches_spec(other),
    ;
}

impl Matches for Socket {
    open spec fn matches_spec(&self, other: &Socket) -> bool {
        compatible(self@, other@)
    }

    fn matches(&self, other: &Socket) -> (r: bool) {
        let a = self.as_str();
        let b = other.as_str();
        let n = a.unicode_len();
        if n != b.unicode_len() {
            return false;
        }
        let mut i: usize = 0;
        while i < n
            invariant
                n == a@.len(),
                n == b@.len(),
                a@ == self@,
                b@ == other@,
                i <= n,
                forall|j: int| 0 <= j < i ==> a@[j] == b@[n - 1 - j],
            decreases n - i,
        {
            if a.get_char(i) != b.get_char(n - 1 - i) {
                assert(self@ != other@.reverse()) by {
                    assert(other@.reverse()[i as int] == b@[n - 1 - i]);
                }
                return false;
            }
            i += 1;
        }
        assert(self@ =~= other@.reverse());
        true
    }
}

/// One socket per side of a tile.
pub struct SocketMap {
    pub up: Socket,
    pub right: Socket,
    pub down: Socket,
    pub left: Socket,
}

/// The side a socket is read from when a map is turned one quarter turn
/// clockwise: the new socket at `d` is the old socket at `rotation_source(d)`.
pub open spec fn rotation_source(d: Direction) -> Direction {
    match d {
        Direction::Up => Direction::Left,
        Direction::Left => Direction::Down,
        Direction::Down => Direction::Right,
        Direction::Right => Direction::Up,
    }
}

/// The side `rotation_source` reaches after `n` turns.
pub open spec fn rotation_source_n(d: Direction, n: nat) -> Direction
    decreases n,
{
    if n == 0 {
        d
    } else {
        rotation_source_n(rotation_source(d), (n - 1) as nat)
    }
}

impl SocketMap {
    /// The socket on side `d`, as a character sequence.
    pub open spec fn spec_get(&self, d: Direction) -> Seq<char> {
        match d {
            Direction::Up => self.up@,
            Direction::Right => self.right@,
            Direction::Down => self.down@,
            Direction::Left => self.left@,
        }
    }

    /// The socket on side `d`.
    pub fn get(&self, d: Direction) -> (r: &Socket)
        ensures
            r@ == self.spec_get(d),
    {
        match d {
            Direction::Up => &self.up,
            Direction::Right => &self.right,
            Direction::Down => &self.down,
            Direction::Left => &self.left,
        }
    }

    /// The map turned one quarter turn: each side takes the socket that
    /// `rotation_source` names.
    pub fn rotate(&self) -> (r: SocketMap)
        ensures
            forall|d: Direction| #[trigger] r.spec_get(d) == self.spec_get(rotation_source(d)),
    {
        SocketMap {
            up: self.left.clone(),
            right: self.up.clone(),
            down: self.right.clone(),
            left: self.down.clone(),
        }
    }

    /// The map turned `n` quarter turns.
    pub fn rotate_n(&self, n: u8) -> (r: SocketMap)
        ensures
            forall|d: Direction| #[trigger] r.spec_get(d) == self.spec_get(
                rotation_source_n(d, n as nat),
            ),
    {
        let mut m = SocketMap {
            up: self.up.clone(),
            right: self.right.clone(),
            down: self.down.clone(),
            left: self.left.clone(),
        };
        let mut k: u8 = 0;
        while k < n
            invariant
                k <= n,
                forall|d: Direction| #[trigger] m.spec_get(d) == self.spec_get(
                    rotation_source_n(d, k as nat),
                ),
            decreases n - k,
        {
            let next = m.rotate();
            proof {
                assert forall|d: Direction| #[trigger] next.spec_get(d) == self.spec_get(
                    rotation_source_n(d, (k + 1) as nat),
                ) by {
                    lemma_rotation_source_unfold(d, (k + 1) as nat);
                }
            }
            m = next;
            k += 1;
        }
        m
    }
}

/// Peeling one turn off the front of `rotation_source_n`.
proof fn lemma_rotation_source_unfold(d: Direction, n: nat)
    requires
        n >= 1,
    ensures
        rotation_source_n(d, n) == rotation_source_n(rotation_source(d), (n - 1) as nat),
{
}

/// A catalog entry: a socket for each side and a positive selection weight,
/// the relative probability mass used by the weighted random collapse.
pub struct TileData {
    pub sockets: SocketMap,
    pub weight: u64,
}

/// Two tiles that read the same: equal weights and equal sockets on every
/// side.
pub open spec fn tile_like(a: TileData, b: TileData) -> bool {
    &&& a.weight == b.weight
    &&& forall|d: Direction| #[trigger] a.sockets.spec_get(d) == b.sockets.spec_get(d)
}

/// A catalog entry as the loader reads it: an image file name, a socket
/// per side, and the quarter-turn counts to expand the entry into.
pub struct TileEntry {
    pub file: String,
    pub sockets: SocketMap,
    pub rotations: Vec<i8>,
}

/// The rotation list an entry gets when the catalog names none: only the
/// unrotated tile.
pub fn default_rotation() -> (r: Vec<i8>)
    ensures
        r@ == seq![0i8],
{
    let v = vec![0i8];
    proof {
        assert(v@ =~= seq![0i8]);
    }
    v
}

impl TileEntry {
    /// One socket map per requested rotation: the entry's sockets turned
    /// that many quarter turns, each treated as an independent catalog
    /// entry from then on.
    pub fn expanded_sockets(&self) -> (r: Vec<SocketMap>)
        ensures
            r@.len() == self.rotations@.len(),
            forall|i: int, d: Direction|
                0 <= i < r@.len() ==> #[trigger] r@[i].spec_get(d) == self.sockets.spec_get(
                    rotation_source_n(d, (self.rotations@[i] as u8) as nat),
                ),
    {
        let n = self.rotations.len();
        let mut out: Vec<SocketMap> = Vec::new();
        let mut k: usize = 0;
        while k < n
            invariant
                n == self.rotations@.len(),
                k <= n,
                out@.len() == k,
                forall|i: int, d: Direction|
                    0 <= i < k ==> #[trigger] out@[i].spec_get(d) == self.sockets.spec_get(
                        rotation_source_n(d, (self.rotations@[i] as u8) as nat),
                    ),
            decreases n - k,
        {
            let rot = self.rotations[k];
            let turned = self.sockets.rotate_n(#[verifier::truncate] (rot as u8));
            out.push(turned);
            k += 1;
        }
        out
    }
}

/// Two catalogs that read the same, entry by entry.
pub open spec fn tiles_like(a: Seq<TileData>, b: Seq<TileData>) -> bool {
    &&& a.len() == b.len()
    &&& forall|t: int| 0 <= t < a.len() ==> tile_like(#[trigger] a[t], b[t])
}

impl TileData {
    /// An independent copy that reads the same on every side.
    pub fn duplicate(&self) -> (r: TileData)
        ensures
            tile_like(r, *self),
    {
        TileData {
            sockets: SocketMap {
                up: self.sockets.up.clone(),
                right: self.sockets.right.clone(),
                down: self.sockets.down.clone(),
                left: self.sockets.left.clone(),
            },
            weight: self.weight,
        }
    }
}

} // verus!
