//! Piece catalog and per-piece geometry: the seven piece kinds, their
//! rotation-state grids, and collision / boundary testing of a piece
//! against a board grid.
use vstd::prelude::*;

verus! {

/// The seven canonical piece kinds.
#[derive(Clone, Copy, PartialEq, Eq, Structural, Debug)]
pub enum PieceKind {
    I,
    L,
    J,
    O,
    S,
    Z,
    T,
}

/// The rotation-state table of each kind: an ordered sequence of 4x4 grids,
/// one per distinct orientation (I, S and Z have 2, O has 1, J, L and T
/// have 4). Orientations that repeat an earlier grid are not stored.
pub open spec fn kind_states(kind: PieceKind) -> Seq<Seq<Seq<u8>>> {
    match kind {
        PieceKind::I => seq![
            seq![
                seq![0u8, 0, 0, 0],
                seq![0u8, 0, 0, 0],
                seq![0u8, 0, 0, 0],
                seq![1u8, 1, 1, 1],
            ],
            seq![
                seq![0u8, 1, 0, 0],
                seq![0u8, 1, 0, 0],
                seq![0u8, 1, 0, 0],
                seq![0u8, 1, 0, 0],
            ],
        ],
        PieceKind::L => seq![
            seq![
                seq![2u8, 2, 2, 0],
                seq![2u8, 0, 0, 0],
                seq![0u8, 0, 0, 0],
                seq![0u8, 0, 0, 0],
            ],
            seq![
                seq![2u8, 2, 0, 0],
                seq![0u8, 2, 0, 0],
                seq![0u8, 2, 0, 0],
                seq![0u8, 0, 0, 0],
            ],
            seq![
                seq![0u8, 0, 2, 0],
                seq![2u8, 2, 2, 0],
                seq![0u8, 0, 0, 0],
                seq![0u8, 0, 0, 0],
            ],
            seq![
                seq![0u8, 2, 0, 0],
                seq![0u8, 2, 0, 0],
                seq![0u8, 2, 2, 0],
                seq![0u8, 0, 0, 0],
            ],
        ],
        PieceKind::J => seq![
            seq![
                seq![3u8, 3, 3, 0],
                seq![0u8, 0, 3, 0],
                seq![0u8, 0, 0, 0],
                seq![0u8, 0, 0, 0],
            ],
            seq![
                seq![0u8, 3, 0, 0],
                seq![0u8, 3, 0, 0],
                seq![3u8, 3, 0, 0],
                seq![0u8, 0, 0, 0],
            ],
            seq![
                seq![3u8, 0, 0, 0],
                seq![3u8, 3, 3, 0],
                seq![0u8, 0, 0, 0],
                seq![0u8, 0, 0, 0],
            ],
            seq![
                seq![0u8, 3, 3, 0],
                seq![0u8, 3, 0, 0],
                seq![0u8, 3, 0, 0],
                seq![0u8, 0, 0, 0],
            ],
        ],
        PieceKind::O => seq![
            seq![
                seq![4u8, 4, 0, 0],
                seq![4u8, 4, 0, 0],
                seq![0u8, 0, 0, 0],
                seq![0u8, 0, 0, 0],
            ],
        ],
        PieceKind::S => seq![
            seq![
                seq![0u8, 5, 5, 0],
                seq![5u8, 5, 0, 0],
                seq![0u8, 0, 0, 0],
                seq![0u8, 0, 0, 0],
            ],
            seq![
                seq![5u8, 0, 0, 0],
                seq![5u8, 5, 0, 0],
                seq![0u8, 5, 0, 0],
                seq![0u8, 0, 0, 0],
            ],
        ],
        PieceKind::Z => seq![
            seq![
                seq![6u8, 6, 0, 0],
                seq![0u8, 6, 6, 0],
                seq![0u8, 0, 0, 0],
                seq![0u8, 0, 0, 0],
            ],
            seq![
                seq![0u8, 6, 0, 0],
                seq![6u8, 6, 0, 0],
                seq![6u8, 0, 0, 0],
                seq![0u8, 0, 0, 0],
            ],
        ],
        PieceKind::T => seq![
            seq![
                seq![7u8, 7, 7, 0],
                seq![0u8, 7, 0, 0],
                seq![0u8, 0, 0, 0],
                seq![0u8, 0, 0, 0],
            ],
            seq![
                seq![0u8, 7, 0, 0],
                seq![7u8, 7, 0, 0],
                seq![0u8, 7, 0, 0],
                seq![0u8, 0, 0, 0],
            ],
            seq![
                seq![0u8, 7, 0, 0],
                seq![7u8, 7, 7, 0],
                seq![0u8, 0, 0, 0],
                seq![0u8, 0, 0, 0],
            ],
            seq![
                seq![0u8, 7, 0, 0],
                seq![0u8, 7, 7, 0],
                seq![0u8, 7, 0, 0],
                seq![0u8, 0, 0, 0],
            ],
        ],
    }
}

/// The wall-kick offsets tried during rotation, in priority order: no shift
/// first, then small shifts left and right, then larger ones.
pub open spec fn kick_offset(i: int) -> int {
    seq![0int, -1int, 1int, -2int, 2int, -3int][i]
}

/// A cell of the board or of a rotation-state grid is free iff it lies inside
/// the grid and holds 0.
pub open spec fn cell_free(map: Seq<Seq<u8>>, y: int, x: int) -> bool {
    &&& 0 <= y < map.len()
    &&& 0 <= x < map[y].len()
    &&& map[y][x] == 0
}

/// The collision predicate: every nonzero cell of the 4x4 rotation-state grid
/// `state`, anchored at `(x, y)`, maps to a free board cell.
pub open spec fn fits(state: Seq<Seq<u8>>, map: Seq<Seq<u8>>, x: int, y: int) -> bool {
    forall|dy: int, dx: int|
        0 <= dy < 4 && 0 <= dx < 4 && #[trigger] state[dy][dx] != 0 ==> cell_free(map, y + dy, x + dx)
}

/// A rotation-state grid is a 4x4 matrix with at least one occupied cell.
pub open spec fn state_wf(s: Seq<Seq<u8>>) -> bool {
    &&& s.len() == 4
    &&& forall|i: int| 0 <= i < 4 ==> (#[trigger] s[i]).len() == 4
    &&& exists|dy: int, dx: int| 0 <= dy < 4 && 0 <= dx < 4 && #[trigger] s[dy][dx] != 0
}

/// Indexing the deep view of a vector of rows agrees with the view of each row.
pub proof fn lemma_rows_deep_view(v: Vec<Vec<u8>>)
    ensures
        v.deep_view().len() == v@.len(),
        forall|i: int| 0 <= i < v@.len() ==> #[trigger] v.deep_view()[i] == v@[i]@,
{
    assert forall|i: int| 0 <= i < v@.len() implies #[trigger] v.deep_view()[i] == v@[i]@ by {
        assert(v@[i].deep_view() =~= v@[i]@);
    }
}

/// Indexing the deep view of the rotation-state table agrees with the deep
/// view of each state.
pub proof fn lemma_states_deep_view(v: Vec<Vec<Vec<u8>>>)
    ensures
        v.deep_view().len() == v@.len(),
        forall|k: int| 0 <= k < v@.len() ==> #[trigger] v.deep_view()[k] == v@[k].deep_view(),
{
}

/// An active falling piece: the rotation-state table of its kind, the index of
/// the current rotation state, and the board anchor position. The horizontal
/// anchor may be negative during wall-kick search; committed anchors always
/// passed the collision test.
pub struct Tetrimino {
    pub states: Vec<Vec<Vec<u8>>>,
    pub x: isize,
    pub y: usize,
    pub current_state: u8,
}

/// Builds one row of a rotation-state grid.
fn make_row(a: u8, b: u8, c: u8, d: u8) -> (r: Vec<u8>)
    ensures
        r@ == seq![a, b, c, d],
{
    let mut r: Vec<u8> = Vec::new();
    r.push(a);
    r.push(b);
    r.push(c);
    r.push(d);
    r
}

/// Builds one 4x4 rotation-state grid from its rows.
fn make_state(r0: Vec<u8>, r1: Vec<u8>, r2: Vec<u8>, r3: Vec<u8>) -> (s: Vec<Vec<u8>>)
    ensures
        s.deep_view() == seq![r0@, r1@, r2@, r3@],
{
    let ghost v0 = r0@;
    let ghost v1 = r1@;
    let ghost v2 = r2@;
    let ghost v3 = r3@;
    let mut s: Vec<Vec<u8>> = Vec::new();
    s.push(r0);
    s.push(r1);
    s.push(r2);
    s.push(r3);
    proof {
        lemma_rows_deep_view(s);
        assert(s.deep_view() =~= seq![v0, v1, v2, v3]);
    }
    s
}

impl Tetrimino {
    /// Well-formedness: between 1 and 4 rotation states, each a 4x4 grid with
    /// at least one occupied cell, and a current-state index inside the table.
    pub open spec fn wf(&self) -> bool {
        &&& 1 <= self.states@.len() <= 4
        &&& forall|k: int|
            0 <= k < self.states@.len() ==> state_wf(#[trigger] self.states.deep_view()[k])
        &&& (self.current_state as int) < self.states@.len()
    }

    /// The 4x4 grid of the current rotation state.
    pub open spec fn current_grid(&self) -> Seq<Seq<u8>> {
        self.states.deep_view()[self.current_state as int]
    }

    /// The rotation-state index a rotation moves to: the next one, wrapping
    /// to 0 after the last.
    pub open spec fn next_state_index(&self) -> int {
        if self.current_state as int + 1 < self.states@.len() {
            self.current_state as int + 1
        } else {
            0
        }
    }

    /// The candidate rotation state fits when shifted by the `i`-th wall-kick
    /// offset.
    pub open spec fn kicked_fit(&self, map: Seq<Seq<u8>>, i: int) -> bool {
        fits(
            self.states.deep_view()[self.next_state_index()],
            map,
            self.x + kick_offset(i),
            self.y as int,
        )
    }

    /// A freshly spawned piece of kind `kind`: the kind's rotation table,
    /// first rotation state, anchored at the spawn position (4, 0).
    pub fn new(kind: PieceKind) -> (t: Tetrimino)
        ensures
            t.wf(),
            t.x == 4,
            t.y == 0,
            t.current_state == 0,
            t.states.deep_view() == kind_states(kind),
    {
        let mut states: Vec<Vec<Vec<u8>>> = Vec::new();
        match kind {
            PieceKind::I => {
                states.push(make_state(
                    make_row(0, 0, 0, 0),
                    make_row(0, 0, 0, 0),
                    make_row(0, 0, 0, 0),
                    make_row(1, 1, 1, 1),
                ));
                states.push(make_state(
                    make_row(0, 1, 0, 0),
                    make_row(0, 1, 0, 0),
                    make_row(0, 1, 0, 0),
                    make_row(0, 1, 0, 0),
                ));
            },
            PieceKind::L => {
                states.push(make_state(
                    make_row(2, 2, 2, 0),
                    make_row(2, 0, 0, 0),
                    make_row(0, 0, 0, 0),
                    make_row(0, 0, 0, 0),
                ));
                states.push(make_state(
                    make_row(2, 2, 0, 0),
                    make_row(0, 2, 0, 0),
                    make_row(0, 2, 0, 0),
                    make_row(0, 0, 0, 0),
                ));
                states.push(make_state(
                    make_row(0, 0, 2, 0),
                    make_row(2, 2, 2, 0),
                    make_row(0, 0, 0, 0),
                    make_row(0, 0, 0, 0),
                ));
                states.push(make_state(
                    make_row(0, 2, 0, 0),
                    make_row(0, 2, 0, 0),
                    make_row(0, 2, 2, 0),
                    make_row(0, 0, 0, 0),
                ));
            },
            PieceKind::J => {
                states.push(make_state(
                    make_row(3, 3, 3, 0),
                    make_row(0, 0, 3, 0),
                    make_row(0, 0, 0, 0),
                    make_row(0, 0, 0, 0),
                ));
                states.push(make_state(
                    make_row(0, 3, 0, 0),
                    make_row(0, 3, 0, 0),
                    make_row(3, 3, 0, 0),
                    make_row(0, 0, 0, 0),
                ));
                states.push(make_state(
                    make_row(3, 0, 0, 0),
                    make_row(3, 3, 3, 0),
                    make_row(0, 0, 0, 0),
                    make_row(0, 0, 0, 0),
                ));
                states.push(make_state(
                    make_row(0, 3, 3, 0),
                    make_row(0, 3, 0, 0),
                    make_row(0, 3, 0, 0),
                    make_row(0, 0, 0, 0),
                ));
            },
            PieceKind::O => {
                states.push(make_state(
                    make_row(4, 4, 0, 0),
                    make_row(4, 4, 0, 0),
                    make_row(0, 0, 0, 0),
                    make_row(0, 0, 0, 0),
                ));
            },
            PieceKind::S => {
                states.push(make_state(
                    make_row(0, 5, 5, 0),
                    make_row(5, 5, 0, 0),
                    make_row(0, 0, 0, 0),
                    make_row(0, 0, 0, 0),
                ));
                states.push(make_state(
                    make_row(5, 0, 0, 0),
                    make_row(5, 5, 0, 0),
                    make_row(0, 5, 0, 0),
                    make_row(0, 0, 0, 0),
                ));
            },
            PieceKind::Z => {
                states.push(make_state(
                    make_row(6, 6, 0, 0),
                    make_row(0, 6, 6, 0),
                    make_row(0, 0, 0, 0),
                    make_row(0, 0, 0, 0),
                ));
                states.push(make_state(
                    make_row(0, 6, 0, 0),
                    make_row(6, 6, 0, 0),
                    make_row(6, 0, 0, 0),
                    make_row(0, 0, 0, 0),
                ));
            },
            PieceKind::T => {
                states.push(make_state(
                    make_row(7, 7, 7, 0),
                    make_row(0, 7, 0, 0),
                    make_row(0, 0, 0, 0),
                    make_row(0, 0, 0, 0),
                ));
                states.push(make_state(
                    make_row(0, 7, 0, 0),
                    make_row(7, 7, 0, 0),
                    make_row(0, 7, 0, 0),
                    make_row(0, 0, 0, 0),
                ));
                states.push(make_state(
                    make_row(0, 7, 0, 0),
                    make_row(7, 7, 7, 0),
                    make_row(0, 0, 0, 0),
                    make_row(0, 0, 0, 0),
                ));
                states.push(make_state(
                    make_row(0, 7, 0, 0),
                    make_row(0, 7, 7, 0),
                    make_row(0, 7, 0, 0),
                    make_row(0, 0, 0, 0),
                ));
            },
        }
        proof {
            lemma_states_deep_view(states);
            assert(states.deep_view() =~= kind_states(kind));
            match kind {
                PieceKind::I => {
                    assert(kind_states(kind)[0][3][0] == 1);
                    assert(kind_states(kind)[1][0][1] == 1);
                },
                PieceKind::L => {
                    assert(kind_states(kind)[0][0][0] == 2);
                    assert(kind_states(kind)[1][0][0] == 2);
                    assert(kind_states(kind)[2][1][0] == 2);
                    assert(kind_states(kind)[3][0][1] == 2);
                },
                PieceKind::J => {
                    assert(kind_states(kind)[0][0][0] == 3);
                    assert(kind_states(kind)[1][0][1] == 3);
                    assert(kind_states(kind)[2][0][0] == 3);
                    assert(kind_states(kind)[3][0][1] == 3);
                },
                PieceKind::O => {
                    assert(kind_states(kind)[0][0][0] == 4);
                },
                PieceKind::S => {
                    assert(kind_states(kind)[0][0][1] == 5);
                    assert(kind_states(kind)[1][0][0] == 5);
                },
                PieceKind::Z => {
                    assert(kind_states(kind)[0][0][0] == 6);
                    assert(kind_states(kind)[1][0][1] == 6);
                },
                PieceKind::T => {
                    assert(kind_states(kind)[0][0][0] == 7);
                    assert(kind_states(kind)[1][0][1] == 7);
                    assert(kind_states(kind)[2][0][1] == 7);
                    assert(kind_states(kind)[3][0][1] == 7);
                },
            }
        }
        Tetrimino { states, x: 4, y: 0, current_state: 0 }
    }

    /// Pure collision check of rotation state `tmp_state` anchored at `(x, y)`
    /// against the board: true iff every occupied cell lands on a free board
    /// cell.
    pub fn test_position(
        &self,
        game_map: &Vec<Vec<u8>>,
        tmp_state: usize,
        x: isize,
        y: usize,
    ) -> (r: bool)
        requires
            self.wf(),
            tmp_state < self.states@.len(),
            x <= isize::MAX - 3,
            y <= usize::MAX - 3,
        ensures
            r == fits(self.states.deep_view()[tmp_state as int], game_map.deep_view(), x as int, y as int),
    {
        let state: &Vec<Vec<u8>> = &self.states[tmp_state];
        let ghost st = self.states.deep_view()[tmp_state as int];
        let ghost map = game_map.deep_view();
        proof {
            lemma_states_deep_view(self.states);
            lemma_rows_deep_view(*state);
            lemma_rows_deep_view(*game_map);
            assert(st == state.deep_view());
            assert(state_wf(st));
        }
        let mut dy: usize = 0;
        while dy < 4
            invariant
                dy <= 4,
                forall|py: int, px: int|
                    0 <= py < dy && 0 <= px < 4 && #[trigger] st[py][px] != 0
                        ==> cell_free(map, y + py, x + px),
            decreases 4 - dy,
        {
            let mut dx: usize = 0;
            while dx < 4
                invariant
                    dy < 4,
                    dx <= 4,
                    forall|py: int, px: int|
                        0 <= py < dy && 0 <= px < 4 && #[trigger] st[py][px] != 0
                            ==> cell_free(map, y + py, x + px),
                    forall|px: int|
                        0 <= px < dx && #[trigger] st[dy as int][px] != 0
                            ==> cell_free(map, y + dy, x + px),
                decreases 4 - dx,
            {
                proof {
                    lemma_states_deep_view(self.states);
                    lemma_rows_deep_view(*state);
                    lemma_rows_deep_view(*game_map);
                    assert(st == state.deep_view());
                    assert(state@.len() == 4);
                    assert(state.deep_view()[dy as int] == state@[dy as int]@);
                    assert(st[dy as int].len() == 4);
                }
                let cell = state[dy][dx];
                proof {
                    assert(cell == st[dy as int][dx as int]);
                }
                if cell != 0 {
                    if y + dy >= game_map.len() {
                        proof {
                            assert(!cell_free(map, y + dy, x + dx));
                        }
                        return false;
                    }
                    let row: &Vec<u8> = &game_map[y + dy];
                    proof {
                        assert(row@ == map[y + dy]);
                    }
                    let col: isize = x + dx as isize;
                    if col < 0 {
                        proof {
                            assert(!cell_free(map, y + dy, x + dx));
                        }
                        return false;
                    }
                    if col as usize >= row.len() {
                        proof {
                            assert(!cell_free(map, y + dy, x + dx));
                        }
                        return false;
                    }
                    if row[col as usize] != 0 {
                        proof {
                            assert(!cell_free(map, y + dy, x + dx));
                        }
                        return false;
                    }
                }
                dx = dx + 1;
            }
            dy = dy + 1;
        }
        true
    }

    /// Collision check of the piece's own current state and anchor, used right
    /// after spawning to detect a blocked spawn (game over).
    pub fn test_current_position(&self, game_map: &Vec<Vec<u8>>) -> (r: bool)
        requires
            self.wf(),
            self.x <= isize::MAX - 3,
            self.y <= usize::MAX - 3,
        ensures
            r == fits(self.current_grid(), game_map.deep_view(), self.x as int, self.y as int),
    {
        self.test_position(game_map, self.current_state as usize, self.x, self.y)
    }

    /// Tries to move the anchor to `(new_x, new_y)` at the current rotation
    /// state: commits the move and returns true iff the new position passes
    /// the collision test, otherwise leaves the piece unchanged.
    pub fn change_position(
        &mut self,
        game_map: &Vec<Vec<u8>>,
        new_x: isize,
        new_y: usize,
    ) -> (r: bool)
        requires
            old(self).wf(),
            new_x <= isize::MAX - 3,
            new_y <= usize::MAX - 3,
        ensures
            final(self).wf(),
            r == fits(old(self).current_grid(), game_map.deep_view(), new_x as int, new_y as int),
            r ==> *final(self) == (Tetrimino { x: new_x, y: new_y, ..*old(self) }),
            !r ==> *final(self) == *old(self),
    {
        if self.test_position(game_map, self.current_state as usize, new_x, new_y) {
            self.x = new_x;
            self.y = new_y;
            true
        } else {
            false
        }
    }

    /// Tries to rotate to the next rotation state, searching the wall-kick
    /// offsets in priority order; commits the first offset whose shifted
    /// position passes the collision test, otherwise leaves the piece
    /// unchanged and returns false.
    pub fn rotate(&mut self, game_map: &Vec<Vec<u8>>) -> (r: bool)
        requires
            old(self).wf(),
            isize::MIN + 3 <= old(self).x <= isize::MAX - 5,
            old(self).y <= usize::MAX - 3,
        ensures
            final(self).wf(),
            r == (exists|i: int|
                0 <= i < 6 && #[trigger] old(self).kicked_fit(game_map.deep_view(), i)),
            !r ==> *final(self) == *old(self),
            r ==> (exists|i: int|
                #[trigger] rotate_commit(*old(self), *final(self), game_map.deep_view(), i)),
            r ==> fits(
                final(self).current_grid(),
                game_map.deep_view(),
                final(self).x as int,
                final(self).y as int,
            ),
    {
        let ghost gmv = game_map.deep_view();
        let mut tmp_state: usize = self.current_state as usize + 1;
        if tmp_state >= self.states.len() {
            tmp_state = 0;
        }
        proof {
            assert(tmp_state as int == self.next_state_index());
        }
        let mut i: usize = 0;
        while i < 6
            invariant
                i <= 6,
                *self == *old(self),
                forall|j: int| 0 <= j < i ==> !old(self).kicked_fit(gmv, j),
            decreases 6 - i,
        {
            let k = kick_at(i);
            let nx: isize = self.x + k;
            if self.test_position(game_map, tmp_state, nx, self.y) {
                self.current_state = tmp_state as u8;
                self.x = nx;
                proof {
                    assert(rotate_commit(*old(self), *self, gmv, i as int));
                }
                return true;
            }
            i = i + 1;
        }
        false
    }
}

/// The outcome of a successful rotation: the `i`-th wall-kick offset is the
/// first that fits, and the piece moved to it in the next rotation state.
pub open spec fn rotate_commit(pre: Tetrimino, post: Tetrimino, map: Seq<Seq<u8>>, i: int) -> bool {
    &&& 0 <= i < 6
    &&& pre.kicked_fit(map, i)
    &&& (forall|j: int| 0 <= j < i ==> !pre.kicked_fit(map, j))
    &&& post == (Tetrimino {
        x: (pre.x + kick_offset(i)) as isize,
        current_state: pre.next_state_index() as u8,
        ..pre
    })
}

/// The `i`-th wall-kick offset as an executable value.
fn kick_at(i: usize) -> (k: isize)
    requires
        i < 6,
    ensures
        k as int == kick_offset(i as int),
{
    if i == 0 {
        0
    } else if i == 1 {
        -1
    } else if i == 2 {
        1
    } else if i == 3 {
        -2
    } else if i == 4 {
        2
    } else {
        -3
    }
}

} // verus!
