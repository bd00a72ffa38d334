use crate::random::shuffle;
use vstd::prelude::*;

verus! {

/// The largest number of tiles a board may have; it keeps the Manhattan
/// distance within `i64`.
pub const MAX_TILES: u64 = 0x1_0000_0000;

/// The tiles hold each of `0 .. len` exactly once.
pub open spec fn is_permutation(s: Seq<i64>) -> bool {
    &&& forall|i: int| 0 <= i < s.len() ==> 0 <= #[trigger] s[i] < s.len()
    &&& forall|i: int, j: int| 0 <= i < j < s.len() ==> s[i] != s[j]
    &&& forall|v: int| 0 <= v < s.len() ==> #[trigger] holds_tile(s, v)
}

/// Some position of `s` holds `v`.
pub open spec fn holds_tile(s: Seq<i64>, v: int) -> bool {
    exists|i: int| 0 <= i < s.len() && s[i] == v
}

pub open spec fn is_square(n: int) -> bool {
    exists|d: int| 0 <= d && #[trigger] (d * d) == n
}

/// The side length of a square board of `n` tiles.
pub open spec fn side(n: int) -> int {
    choose|d: int| 0 <= d && #[trigger] (d * d) == n
}

/// The tile that the solved board holds at position `i`: `1, 2, ...` and the
/// blank (`0`) last.
pub open spec fn goal_tile(i: int, n: int) -> int {
    if i < n - 1 {
        i + 1
    } else {
        0
    }
}

/// Number of tiles among the first `k` that are neither blank nor in place.
pub open spec fn misplaced(s: Seq<i64>, k: int) -> int
    decreases k,
{
    if k <= 0 {
        0
    } else {
        misplaced(s, k - 1) + if s[k - 1] != k && s[k - 1] != 0 {
            1int
        } else {
            0int
        }
    }
}

pub open spec fn abs(v: int) -> int {
    if v < 0 {
        -v
    } else {
        v
    }
}

/// How many moves tile `b` at position `i` is away from its goal position on
/// a board of side `d`; zero for the blank and for a tile in place.
pub open spec fn tile_distance(b: int, i: int, d: int) -> int {
    if b != i + 1 && b != 0 {
        abs(i % d - (b - 1) % d) + abs(i / d - (b - 1) / d)
    } else {
        0
    }
}

/// Sum of the tile distances of the first `k` positions.
pub open spec fn distance_sum(s: Seq<i64>, k: int, d: int) -> int
    decreases k,
{
    if k <= 0 {
        0
    } else {
        distance_sum(s, k - 1, d) + tile_distance(s[k - 1] as int, k - 1, d)
    }
}

/// `s` with the tiles at `p` and `q` exchanged.
pub open spec fn swap_tiles(s: Seq<i64>, p: int, q: int) -> Seq<i64> {
    s.update(p, s[q]).update(q, s[p])
}

/// The boards reached by moving the blank at `z` left, right, up and down,
/// in that order, where the edge allows.
pub open spec fn neighbour_tiles(s: Seq<i64>, d: int, z: int) -> Seq<Seq<i64>> {
    let x = z % d;
    let y = z / d;
    let left = if x > 0 {
        seq![swap_tiles(s, z, z - 1)]
    } else {
        Seq::empty()
    };
    let right = if x < d - 1 {
        seq![swap_tiles(s, z, z + 1)]
    } else {
        Seq::empty()
    };
    let up = if y > 0 {
        seq![swap_tiles(s, z, z - d)]
    } else {
        Seq::empty()
    };
    let down = if y < d - 1 {
        seq![swap_tiles(s, z, z + d)]
    } else {
        Seq::empty()
    };
    left + right + up + down
}

/// The position of the blank.
pub open spec fn blank(s: Seq<i64>) -> int {
    choose|i: int| 0 <= i < s.len() && s[i] == 0
}

/// An N-puzzle board: a square grid of tiles `1 .. n*n - 1` and a blank `0`,
/// stored row by row.
#[derive(Debug, PartialEq, Eq, Clone)]
pub struct Board {
    board: Vec<i64>,
}

impl View for Board {
    type V = Seq<i64>;

    closed spec fn view(&self) -> Seq<i64> {
        self.board@
    }
}

proof fn lemma_side(n: int, d: int)
    requires
        0 <= d,
        d * d <= n,
        n < (d + 1) * (d + 1),
        is_square(n),
    ensures
        side(n) == d,
        d * d == n,
{
    let e = side(n);
    assert(0 <= e && e * e == n);
    if e < d {
        assert(e * e < d * d) by (nonlinear_arith)
            requires
                0 <= e < d,
        ;
    } else if e > d {
        assert(e * e >= (d + 1) * (d + 1)) by (nonlinear_arith)
            requires
                e >= d + 1,
                d >= 0,
        ;
    }
}

/// A reordering of `0 .. len` holds each number once.
proof fn lemma_reordered_range(id: Seq<i64>, s: Seq<i64>)
    requires
        forall|k: int| 0 <= k < id.len() ==> #[trigger] id[k] == k,
        s.to_multiset() == id.to_multiset(),
    ensures
        is_permutation(s),
        s.len() == id.len(),
{
    broadcast use vstd::multiset::group_multiset_axioms;

    s.to_multiset_ensures();
    id.to_multiset_ensures();
    assert forall|i: int| 0 <= i < s.len() implies 0 <= #[trigger] s[i] < s.len() by {
        assert(s.contains(s[i]));
        assert(s.to_multiset().count(s[i]) > 0);
        assert(id.to_multiset().count(s[i]) > 0);
        assert(id.contains(s[i]));
        let k = choose|k: int| 0 <= k < id.len() && id[k] == s[i];
    }
    assert forall|v: int| 0 <= v < s.len() implies #[trigger] holds_tile(s, v) by {
        assert(id[v] == v);
        assert(id.contains(v as i64));
        assert(id.to_multiset().count(v as i64) > 0);
        assert(s.to_multiset().count(v as i64) > 0);
        assert(s.contains(v as i64));
    }
    assert forall|i: int, j: int| 0 <= i < j < s.len() implies s[i] != s[j] by {
        if s[i] == s[j] {
            let v = s[i];
            let si = s.remove(i);
            si.to_multiset_ensures();
            assert(si[j - 1] == v);
            assert(si.contains(v));
            assert(si.to_multiset().count(v) > 0);
            assert(si.to_multiset() =~= s.to_multiset().remove(v));
            assert(s.to_multiset().count(v) >= 2);
            let vi = v as int;
            let iv = id.remove(vi);
            iv.to_multiset_ensures();
            assert(!iv.contains(v)) by {
                if iv.contains(v) {
                    let k = choose|k: int| 0 <= k < iv.len() && iv[k] == v;
                    if k < vi {
                        assert(iv[k] == id[k]);
                    } else {
                        assert(iv[k] == id[k + 1]);
                    }
                }
            }
            assert(iv.to_multiset().count(v) == 0);
            assert(iv.to_multiset() =~= id.to_multiset().remove(v));
            assert(id.to_multiset().count(v) == 1);
        }
    }
}

/// The integer square root of `i`.
fn usize_square_root(i: usize) -> (r: usize)
    ensures
        r * r <= i < (r + 1) * (r + 1),
{
    let mut d: usize = 0;
    while d < i && (d + 1) <= i / (d + 1)
        invariant
            d * d <= i,
        decreases i - d,
    {
        let ghost di = d as int + 1;
        let ghost q = i as int / di;
        assert(di * di <= i) by (nonlinear_arith)
            requires
                di <= q,
                q == i as int / di,
                di > 0,
        ;
        d = d + 1;
    }
    let ghost di = d as int + 1;
    let ghost q = i as int / di;
    assert(i < di * di) by (nonlinear_arith)
        requires
            d >= i || di > q,
            q == i as int / di,
            d * d <= i,
            di == d + 1,
            d >= 0,
    ;
    d
}

impl Board {
    /// The tiles form a square board holding each number below its size once.
    pub open spec fn wf(&self) -> bool {
        is_permutation(self@) && is_square(self@.len() as int) && self@.len() <= MAX_TILES as int
    }

    pub fn new(board: Vec<i64>) -> (b: Board)
        requires
            is_square(board@.len() as int),
            is_permutation(board@),
            board@.len() <= MAX_TILES as int,
        ensures
            b@ == board@,
            b.wf(),
    {
        Board { board: board }
    }

    /// A board of side `n` with its tiles in random order.
    pub fn random(n: usize) -> (b: Board)
        requires
            n * n <= MAX_TILES,
            n * n <= usize::MAX,
        ensures
            b.wf(),
            b@.len() == n * n,
    {
        let total = n * n;
        let mut v: Vec<i64> = Vec::new();
        let mut k: usize = 0;
        while k < total
            invariant
                total <= MAX_TILES,
                k <= total,
                v@.len() == k,
                forall|m: int| 0 <= m < k ==> #[trigger] v@[m] == m,
            decreases total - k,
        {
            v.push(k as i64);
            k = k + 1;
        }
        let ghost id = v@;
        shuffle(&mut v);
        proof {
            lemma_reordered_range(id, v@);
            assert(is_square(v@.len() as int)) by {
                assert((n as int) * (n as int) == v@.len());
            }
        }
        Board { board: v }
    }

    /// The side length of the board.
    pub fn dimension(&self) -> (d: usize)
        requires
            self.wf(),
        ensures
            d == side(self@.len() as int),
            d * d == self@.len(),
            d <= 0x1_0000,
    {
        let d = usize_square_root(self.board.len());
        proof {
            lemma_side(self@.len() as int, d as int);
            assert(d <= 0x1_0000) by (nonlinear_arith)
                requires
                    d * d <= 0x1_0000_0000,
                    d >= 0,
            ;
        }
        d
    }

    pub fn is_goal(&self) -> (r: bool)
        requires
            self.wf(),
        ensures
            r == forall|i: int| 0 <= i < self@.len() ==> #[trigger] self@[i] == goal_tile(i, self@.len() as int),
    {
        let n = self.board.len();
        let mut i: usize = 0;
        while i < n
            invariant
                n == self@.len(),
                n <= MAX_TILES as int,
                i <= n,
                forall|j: int| 0 <= j < i ==> #[trigger] self@[j] == goal_tile(j, n as int),
            decreases n - i,
        {
            let b = self.board[i];
            if i < n - 1 && b != (i as i64) + 1 || i == n - 1 && b != 0 {
                return false;
            }
            i = i + 1;
        }
        true
    }

    /// Returns the hamming distance to the goal board
    pub fn hamming(&self) -> (r: i64)
        requires
            self.wf(),
        ensures
            r == misplaced(self@, self@.len() as int),
    {
        let n = self.board.len();
        let mut dist: i64 = 0;
        let mut i: usize = 0;
        while i < n
            invariant
                n == self@.len(),
                n <= MAX_TILES as int,
                i <= n,
                dist == misplaced(self@, i as int),
                0 <= dist <= i,
            decreases n - i,
        {
            let b = self.board[i];
            if b != (i as i64) + 1 && b != 0 {
                dist = dist + 1;
            }
            i = i + 1;
        }
        dist
    }

    /// Returns the manhattan distance to the goal board
    pub fn manhattan(&self) -> (r: i64)
        requires
            self.wf(),
        ensures
            r == distance_sum(self@, self@.len() as int, side(self@.len() as int)),
    {
        let n = self.board.len();
        let dim_u = self.dimension();
        proof {
            assert(dim_u <= 0x1_0000) by (nonlinear_arith)
                requires
                    dim_u * dim_u == n,
                    n <= 0x1_0000_0000,
            ;
        }
        let dim = dim_u as i64;
        let mut dist: i64 = 0;
        let mut i: usize = 0;
        while i < n
            invariant
                n == self@.len(),
                n <= MAX_TILES as int,
                is_permutation(self@),
                dim == side(n as int),
                dim * dim == n,
                0 <= dim <= 0x1_0000,
                i <= n,
                dist == distance_sum(self@, i as int, dim as int),
                0 <= dist <= i * (2 * 0x1_0000),
            decreases n - i,
        {
            let b = self.board[i];
            let iu64 = i as i64;
            if b != iu64 + 1 && b != 0 {
                proof {
                    assert(0 <= b < n);
                    assert(dim > 0) by (nonlinear_arith)
                        requires
                            dim * dim == n,
                            i < n,
                            dim >= 0,
                    ;
                }
                let curr_b_x = iu64 % dim;
                let curr_b_y = iu64 / dim;
                let goal_b_x = (b - 1) % dim;
                let goal_b_y = (b - 1) / dim;
                proof {
                    assert(curr_b_y < dim) by (nonlinear_arith)
                        requires
                            curr_b_y == iu64 / dim,
                            iu64 < dim * dim,
                            iu64 >= 0,
                            dim > 0,
                    ;
                    assert(goal_b_y < dim) by (nonlinear_arith)
                        requires
                            goal_b_y == (b - 1) as int / dim as int,
                            b - 1 < dim * dim,
                            b - 1 >= 0,
                            dim > 0,
                    ;
                    assert(curr_b_y >= 0 && goal_b_y >= 0) by (nonlinear_arith)
                        requires
                            curr_b_y == iu64 / dim,
                            goal_b_y == (b - 1) as int / dim as int,
                            iu64 >= 0,
                            b - 1 >= 0,
                            dim > 0,
                    ;
                }
                let dx = if curr_b_x >= goal_b_x {
                    curr_b_x - goal_b_x
                } else {
                    goal_b_x - curr_b_x
                };
                let dy = if curr_b_y >= goal_b_y {
                    curr_b_y - goal_b_y
                } else {
                    goal_b_y - curr_b_y
                };
                let i_dist = dx + dy;
                proof {
                    assert(i_dist == tile_distance(b as int, i as int, dim as int));
                    assert((i + 1) * (2 * 0x1_0000) == i * (2 * 0x1_0000) + 2 * 0x1_0000) by (nonlinear_arith);
                }
                dist = dist + i_dist;
            } else {
                proof {
                    assert((i + 1) * (2 * 0x1_0000) == i * (2 * 0x1_0000) + 2 * 0x1_0000) by (nonlinear_arith);
                }
            }
            i = i + 1;
        }
        dist
    }

    /// Return a new board with the blocks at the given coordinates swapped
    fn create_swapped(&self, x1: i64, y1: i64, x2: i64, y2: i64) -> (r: Board)
        requires
            self.wf(),
            0 <= x1 < side(self@.len() as int),
            0 <= y1 < side(self@.len() as int),
            0 <= x2 < side(self@.len() as int),
            0 <= y2 < side(self@.len() as int),
        ensures
            r@ == swap_tiles(
                self@,
                y1 * side(self@.len() as int) + x1,
                y2 * side(self@.len() as int) + x2,
            ),
    {
        let dim = self.dimension() as i64;
        proof {
            assert(y1 * dim + x1 < dim * dim) by (nonlinear_arith)
                requires
                    0 <= x1 < dim,
                    0 <= y1 < dim,
            ;
            assert(y2 * dim + x2 < dim * dim) by (nonlinear_arith)
                requires
                    0 <= x2 < dim,
                    0 <= y2 < dim,
            ;
            assert(0 <= y1 * dim && 0 <= y2 * dim) by (nonlinear_arith)
                requires
                    0 <= y1,
                    0 <= y2,
                    0 <= dim,
            ;
        }
        let pos1 = (y1 * dim + x1) as usize;
        let pos2 = (y2 * dim + x2) as usize;
        let mut swapped_board: Vec<i64> = Vec::new();
        let mut k: usize = 0;
        while k < self.board.len()
            invariant
                k <= self.board.len(),
                swapped_board@ == self@.take(k as int),
            decreases self.board.len() - k,
        {
            swapped_board.push(self.board[k]);
            proof {
                assert(swapped_board@ =~= self@.take(k + 1));
            }
            k = k + 1;
        }
        assert(swapped_board@ =~= self@);
        let t1 = swapped_board[pos1];
        let t2 = swapped_board[pos2];
        swapped_board.set(pos1, t2);
        swapped_board.set(pos2, t1);
        Board { board: swapped_board }
    }

    /// Return each board that can be made by swapping the zero with an adjacent block
    pub fn neighbours(&self) -> (r: Vec<Board>)
        requires
            self.wf(),
            self@.len() > 0,
        ensures
            r@.map_values(|b: Board| b@) == neighbour_tiles(
                self@,
                side(self@.len() as int),
                blank(self@),
            ),
    {
        let dim = self.dimension() as i64;
        let n = self.board.len();
        let mut z: usize = 0;
        proof {
            assert(holds_tile(self@, 0));
        }
        while z < n && self.board[z] != 0
            invariant
                n == self@.len(),
                z <= n,
                is_permutation(self@),
                forall|j: int| 0 <= j < z ==> #[trigger] self@[j] != 0,
                exists|i: int| 0 <= i < self@.len() && #[trigger] self@[i] == 0,
            decreases n - z,
        {
            z = z + 1;
        }
        proof {
            let w = choose|i: int| 0 <= i < self@.len() && #[trigger] self@[i] == 0;
            assert(z < n);
            assert(self@[z as int] == 0);
            let c = blank(self@);
            if c != z {
                if c < z {
                    assert(self@[c] != self@[z as int]);
                } else {
                    assert(self@[z as int] != self@[c]);
                }
            }
            assert(dim > 0) by (nonlinear_arith)
                requires
                    dim * dim == n,
                    z < n,
                    dim >= 0,
            ;
        }
        let zero_pos = z as i64;
        let x = zero_pos % dim;
        let y = zero_pos / dim;
        proof {
            assert(y < dim) by (nonlinear_arith)
                requires
                    y == zero_pos / dim,
                    zero_pos < dim * dim,
                    zero_pos >= 0,
                    dim > 0,
            ;
            assert(y >= 0) by (nonlinear_arith)
                requires
                    y == zero_pos / dim,
                    zero_pos >= 0,
                    dim > 0,
            ;
            assert(zero_pos == y * dim + x) by (nonlinear_arith)
                requires
                    y == zero_pos / dim,
                    x == zero_pos % dim,
                    dim > 0,
            ;
        }
        let ghost s = self@;
        let ghost d = dim as int;
        let ghost zi = z as int;
        let mut vec: Vec<Board> = Vec::with_capacity(4);
        let ghost mut expect: Seq<Seq<i64>> = Seq::empty();
        if x > 0 {
            // zero can move left
            vec.push(self.create_swapped(x, y, x - 1, y));
            proof {
                assert(y * d + x - 1 == zi - 1);
                expect = expect + seq![swap_tiles(s, zi, zi - 1)];
            }
        }
        if x < dim - 1 {
            // zero can move right
            vec.push(self.create_swapped(x, y, x + 1, y));
            proof {
                assert(y * d + x + 1 == zi + 1);
                expect = expect + seq![swap_tiles(s, zi, zi + 1)];
            }
        }
        if y > 0 {
            // zero can move up
            vec.push(self.create_swapped(x, y, x, y - 1));
            proof {
                assert((y - 1) * d + x == zi - d) by (nonlinear_arith)
                    requires
                        zi == y * d + x,
                ;
                expect = expect + seq![swap_tiles(s, zi, zi - d)];
            }
        }
        if y < dim - 1 {
            // zero can move down
            vec.push(self.create_swapped(x, y, x, y + 1));
            proof {
                assert((y + 1) * d + x == zi + d) by (nonlinear_arith)
                    requires
                        zi == y * d + x,
                ;
                expect = expect + seq![swap_tiles(s, zi, zi + d)];
            }
        }
        proof {
            assert(vec@.map_values(|b: Board| b@) =~= expect);
            assert(expect =~= neighbour_tiles(s, d, zi));
        }
        vec
    }

    /// The board with the first two non-blank tiles of the top-left square
    /// exchanged.
    pub fn twin(&self) -> (r: Board)
        requires
            self.wf(),
            self@.len() >= 4,
        ensures
            ({
                let d = side(self@.len() as int);
                let first = if self@[0] != 0 {
                    0
                } else {
                    d + 1
                };
                let second = if self@[1] != 0 {
                    1
                } else {
                    d
                };
                r@ == swap_tiles(self@, first, second)
            }),
    {
        let dim = self.dimension() as i64;
        proof {
            assert(dim >= 2) by (nonlinear_arith)
                requires
                    dim * dim >= 4,
                    dim >= 0,
            ;
        }
        let (first_x, first_y): (i64, i64) = if self.board[0] != 0 {
            (0, 0)
        } else {
            (1, 1)
        };
        let (second_x, second_y): (i64, i64) = if self.board[1] != 0 {
            (1, 0)
        } else {
            (0, 1)
        };
        let ghost d = side(self@.len() as int);
        proof {
            if self@[0] != 0 {
                assert(first_y * d + first_x == 0) by (nonlinear_arith)
                    requires
                        first_y == 0,
                        first_x == 0,
                ;
            } else {
                assert(first_y * d + first_x == d + 1) by (nonlinear_arith)
                    requires
                        first_y == 1,
                        first_x == 1,
                ;
            }
            if self@[1] != 0 {
                assert(second_y * d + second_x == 1) by (nonlinear_arith)
                    requires
                        second_y == 0,
                        second_x == 1,
                ;
            } else {
                assert(second_y * d + second_x == d) by (nonlinear_arith)
                    requires
                        second_y == 1,
                        second_x == 0,
                ;
            }
        }
        self.create_swapped(first_x, first_y, second_x, second_y)
    }
}

pub open spec fn factorial(m: nat) -> nat
    decreases m,
{
    if m == 0 {
        1
    } else {
        m * factorial((m - 1) as nat)
    }
}

/// Inserting `m` anywhere into an arrangement of `0 .. m` gives an
/// arrangement of `0 ..= m`.
proof fn lemma_insert_top(p: Seq<i64>, pos: int)
    requires
        is_permutation(p),
        0 <= pos <= p.len(),
        p.len() < i64::MAX,
    ensures
        is_permutation(p.insert(pos, p.len() as i64)),
{
    let m = p.len() as int;
    let t = p.insert(pos, m as i64);
    assert forall|i: int| 0 <= i < t.len() implies 0 <= #[trigger] t[i] < t.len() by {
        if i < pos {
            assert(t[i] == p[i]);
        } else if i > pos {
            assert(t[i] == p[i - 1]);
        }
    }
    assert forall|i: int, j: int| 0 <= i < j < t.len() implies t[i] != t[j] by {
        if i != pos && j != pos {
            let pi = if i < pos { i } else { i - 1 };
            let pj = if j < pos { j } else { j - 1 };
            assert(t[i] == p[pi] && t[j] == p[pj]);
        } else if i == pos {
            let pj = j - 1;
            assert(t[j] == p[pj]);
        } else {
            assert(t[i] == p[i]);
        }
    }
    assert forall|v: int| 0 <= v < t.len() implies #[trigger] holds_tile(t, v) by {
        if v == m {
            assert(t[pos] == v);
        } else {
            assert(holds_tile(p, v));
            let k = choose|k: int| 0 <= k < p.len() && p[k] == v;
            if k < pos {
                assert(t[k] == v);
            } else {
                assert(t[k + 1] == v);
            }
        }
    }
}

/// Every arrangement of `0 .. m`, built by inserting `m - 1` at each position
/// of every arrangement of `0 .. m - 1`.
fn permutations_of(m: usize) -> (r: Vec<Vec<i64>>)
    requires
        m <= MAX_TILES,
    ensures
        r@.len() == factorial(m as nat),
        forall|k: int| 0 <= k < r@.len() ==> #[trigger] r@[k]@.len() == m && is_permutation(r@[k]@),
    decreases m,
{
    if m == 0 {
        let mut r: Vec<Vec<i64>> = Vec::new();
        r.push(Vec::new());
        proof {
            assert(is_permutation(r@[0]@));
        }
        return r;
    }
    let smaller = permutations_of(m - 1);
    let mut r: Vec<Vec<i64>> = Vec::new();
    let mut idx: usize = 0;
    while idx < smaller.len()
        invariant
            1 <= m <= MAX_TILES,
            idx <= smaller@.len(),
            smaller@.len() == factorial((m - 1) as nat),
            forall|k: int|
                0 <= k < smaller@.len() ==> #[trigger] smaller@[k]@.len() == m - 1 && is_permutation(
                    smaller@[k]@,
                ),
            r@.len() == idx * m,
            forall|k: int| 0 <= k < r@.len() ==> #[trigger] r@[k]@.len() == m && is_permutation(r@[k]@),
        decreases smaller@.len() - idx,
    {
        let base = &smaller[idx];
        let mut pos: usize = 0;
        while pos < m
            invariant
                1 <= m <= MAX_TILES,
                idx < smaller@.len(),
                base@.len() == m - 1,
                is_permutation(base@),
                pos <= m,
                r@.len() == idx * m + pos,
                forall|k: int| 0 <= k < r@.len() ==> #[trigger] r@[k]@.len() == m && is_permutation(
                    r@[k]@,
                ),
            decreases m - pos,
        {
            let mut arrangement: Vec<i64> = Vec::new();
            let mut q: usize = 0;
            while q < m
                invariant
                    1 <= m <= MAX_TILES,
                    base@.len() == m - 1,
                    pos < m,
                    q <= m,
                    arrangement@ == base@.insert(pos as int, (m - 1) as i64).take(q as int),
                decreases m - q,
            {
                let ghost target = base@.insert(pos as int, (m - 1) as i64);
                if q < pos {
                    arrangement.push(base[q]);
                } else if q == pos {
                    arrangement.push((m - 1) as i64);
                } else {
                    arrangement.push(base[q - 1]);
                }
                proof {
                    assert(arrangement@ =~= target.take(q + 1));
                }
                q = q + 1;
            }
            proof {
                let target = base@.insert(pos as int, (m - 1) as i64);
                assert(arrangement@ =~= target);
                lemma_insert_top(base@, pos as int);
            }
            r.push(arrangement);
            pos = pos + 1;
        }
        proof {
            assert(idx * m + m == (idx + 1) * m) by (nonlinear_arith);
        }
        idx = idx + 1;
    }
    proof {
        assert(smaller@.len() * m == factorial(m as nat)) by (nonlinear_arith)
            requires
                smaller@.len() == factorial((m - 1) as nat),
                factorial(m as nat) == m * factorial((m - 1) as nat),
        ;
    }
    r
}

/// Every board of side `dim`, one for each arrangement of its tiles.
pub fn generate_all_boards_of_size(dim: i64) -> (r: Vec<Board>)
    requires
        0 <= dim,
        dim * dim <= MAX_TILES,
        dim * dim <= usize::MAX,
    ensures
        r@.len() == factorial((dim * dim) as nat),
        forall|k: int| 0 <= k < r@.len() ==> (#[trigger] r@[k]).wf() && r@[k]@.len() == dim * dim,
{
    let m = (dim * dim) as usize;
    let mut perms = permutations_of(m);
    let mut boards: Vec<Board> = Vec::new();
    let ghost all = perms@;
    while perms.len() > 0
        invariant
            0 <= dim,
            m == dim * dim,
            m <= MAX_TILES,
            perms@ == all.take(perms@.len() as int),
            forall|k: int| 0 <= k < all.len() ==> #[trigger] all[k]@.len() == m && is_permutation(all[k]@),
            boards@.len() + perms@.len() == all.len(),
            forall|k: int| 0 <= k < boards@.len() ==> (#[trigger] boards@[k]).wf() && boards@[k]@.len() == m,
        decreases perms@.len(),
    {
        let p = perms.pop().unwrap();
        proof {
            assert(p == all[perms@.len() as int]);
            assert(perms@ =~= all.take(perms@.len() as int));
            assert(all[perms@.len() as int]@.len() == m);
            assert(p@.len() == m);
            let d = dim as int;
            assert(d * d == p@.len() as int) by (nonlinear_arith)
                requires
                    d == dim,
                    m == dim * dim,
                    p@.len() == m,
            ;
            assert(is_square(p@.len() as int));
        }
        boards.push(Board::new(p));
    }
    boards
}

} // verus!
