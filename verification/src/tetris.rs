//! The board and game session: a persistent 10x16 grid of cells, the active
//! piece, score / level / line counters, lock-in of the active piece, and
//! full-row clearing with score and level progression.
use crate::selector::PieceSelector;
use crate::tetrimino::{
    fits, kind_states, lemma_rows_deep_view, lemma_states_deep_view, PieceKind, Tetrimino,
};
use vstd::prelude::*;

verus! {

/// A board row of 10 empty cells.
pub open spec fn empty_row() -> Seq<u8> {
    Seq::new(10, |x: int| 0u8)
}

/// The grid invariant: exactly 16 rows of exactly 10 columns each.
pub open spec fn grid_wf(g: Seq<Seq<u8>>) -> bool {
    &&& g.len() == 16
    &&& forall|y: int| 0 <= y < 16 ==> (#[trigger] g[y]).len() == 10
}

/// A row is complete iff every cell is occupied.
pub open spec fn row_full(r: Seq<u8>) -> bool {
    forall|x: int| 0 <= x < r.len() ==> r[x] != 0
}

/// The rows of `g` that are not complete, keeping their relative order.
pub open spec fn keep_rows(g: Seq<Seq<u8>>) -> Seq<Seq<u8>>
    decreases g.len(),
{
    if g.len() == 0 {
        Seq::empty()
    } else if row_full(g.last()) {
        keep_rows(g.drop_last())
    } else {
        keep_rows(g.drop_last()).push(g.last())
    }
}

/// How many rows of `g` are complete.
pub open spec fn full_count(g: Seq<Seq<u8>>) -> nat
    decreases g.len(),
{
    if g.len() == 0 {
        0
    } else {
        full_count(g.drop_last()) + if row_full(g.last()) {
            1nat
        } else {
            0nat
        }
    }
}

/// Complete rows and incomplete rows together account for every row.
pub proof fn lemma_keep_rows_count(g: Seq<Seq<u8>>)
    ensures
        keep_rows(g).len() + full_count(g) == g.len(),
    decreases g.len(),
{
    if g.len() > 0 {
        lemma_keep_rows_count(g.drop_last());
    }
}

/// The grid after line clearing: complete rows are removed, the surviving
/// rows keep their order, and one empty row enters at the top for each
/// removed row.
pub open spec fn cleared_grid(g: Seq<Seq<u8>>) -> Seq<Seq<u8>> {
    Seq::new(full_count(g), |i: int| empty_row()) + keep_rows(g)
}

/// The value of board cell `(y, x)` once the nonzero cells of the 4x4 grid
/// `st`, anchored at `(px, py)`, scanned in row-major order up to `p` cells,
/// have been written over `map`.
pub open spec fn lock_cell_upto(
    map: Seq<Seq<u8>>,
    st: Seq<Seq<u8>>,
    px: int,
    py: int,
    y: int,
    x: int,
    p: int,
) -> u8 {
    if py <= y < py + 4 && px <= x < px + 4 && (y - py) * 4 + (x - px) < p && st[y - py][x
        - px] != 0 {
        st[y - py][x - px]
    } else {
        map[y][x]
    }
}

/// The board grid after the active piece locks in: every nonzero cell of the
/// rotation-state grid `st`, anchored at `(px, py)`, overwrites the board
/// cell it maps to; cells that fall outside the board are clipped; all other
/// board cells are unchanged.
pub open spec fn lock_grid(map: Seq<Seq<u8>>, st: Seq<Seq<u8>>, px: int, py: int) -> Seq<
    Seq<u8>,
> {
    Seq::new(
        map.len(),
        |y: int| Seq::new(map[y].len(), |x: int| lock_cell_upto(map, st, px, py, y, x, 16)),
    )
}

/// Lines needed to move past `level`: the ascending threshold table.
pub open spec fn line_threshold(level: int) -> int {
    20 * level
}

/// The level after one more cleared line has been counted: crossing the
/// current level's threshold moves one level up, to at most level 10.
pub open spec fn bumped_level(level: int, lines: int) -> int {
    if level < 10 && lines >= line_threshold(level) {
        level + 1
    } else {
        level
    }
}

/// The level after `cleared` more lines have been counted one by one,
/// starting from `level` with `lines` lines already counted.
pub open spec fn level_after(level: int, lines: int, cleared: nat) -> int
    decreases cleared,
{
    if cleared == 0 {
        level
    } else {
        level_after(bumped_level(level, lines + 1), lines + 1, (cleared - 1) as nat)
    }
}

/// Counting lines never lowers the level and never passes level 10.
pub proof fn lemma_level_after_bounds(level: int, lines: int, cleared: nat)
    requires
        1 <= level <= 10,
    ensures
        level <= level_after(level, lines, cleared) <= 10,
    decreases cleared,
{
    if cleared > 0 {
        lemma_level_after_bounds(bumped_level(level, lines + 1), lines + 1, (cleared - 1) as nat);
    }
}

/// The per-level gravity interval in milliseconds, consumed by the timing
/// layer to pace the automatic one-row drop.
pub open spec fn gravity_ms(level: int) -> int {
    seq![1000int, 850, 700, 600, 500, 400, 300, 250, 221, 190][level - 1]
}

/// A game session: the persistent grid, the score / level / line counters,
/// the active piece (if any) and the piece selector of this session.
pub struct Tetris {
    pub game_map: Vec<Vec<u8>>,
    pub current_level: u32,
    pub score: u32,
    pub number_of_lines: u32,
    pub current_tetrimino: Option<Tetrimino>,
    pub selector: PieceSelector,
}

impl Tetris {
    /// Session invariant: a 16x10 grid, a level between 1 and 10, and a
    /// well-formed active piece whose anchor stays in the committed range.
    pub open spec fn wf(&self) -> bool {
        &&& grid_wf(self.game_map.deep_view())
        &&& 1 <= self.current_level <= 10
        &&& match self.current_tetrimino {
            Option::Some(t) => t.wf() && -4 < t.x < 10 && t.y < 16,
            Option::None => true,
        }
    }

    /// A fresh session: an empty grid, level 1, no score, no lines, no
    /// active piece, and a selector with no memory.
    pub fn new() -> (t: Tetris)
        ensures
            t.wf(),
            t.game_map.deep_view() == Seq::new(16, |y: int| empty_row()),
            t.current_level == 1,
            t.score == 0,
            t.number_of_lines == 0,
            t.current_tetrimino is None,
            t.selector.prev == 7,
    {
        let mut game_map: Vec<Vec<u8>> = Vec::new();
        let mut y: usize = 0;
        while y < 16
            invariant
                y <= 16,
                game_map@.len() == y,
                forall|i: int| 0 <= i < y ==> (#[trigger] game_map@[i])@ == empty_row(),
            decreases 16 - y,
        {
            game_map.push(empty_row_vec());
            y = y + 1;
        }
        proof {
            lemma_rows_deep_view(game_map);
            assert(game_map.deep_view() =~= Seq::new(16, |r: int| empty_row()));
        }
        Tetris {
            game_map,
            current_level: 1,
            score: 0,
            number_of_lines: 0,
            current_tetrimino: None,
            selector: PieceSelector::new(),
        }
    }

    /// Asks the session's selector for the next kind and returns a freshly
    /// spawned piece of that kind. Board state is untouched; the caller
    /// installs the piece and checks its spawn position for game over.
    pub fn create_new_tetrimino(&mut self) -> (t: Tetrimino)
        ensures
            t.wf(),
            t.x == 4,
            t.y == 0,
            t.current_state == 0,
            exists|k: PieceKind|
                t.states.deep_view() == #[trigger] kind_states(k)
                    && final(self).selector.prev == crate::selector::kind_index(k),
            *final(self) == (Tetris { selector: final(self).selector, ..*old(self) }),
    {
        let kind = self.selector.next();
        Tetrimino::new(kind)
    }

    /// Writes the active piece's occupied cells into the grid, awards the
    /// current level's point value for the lock, clears the piece, and runs
    /// line clearing. Does nothing when no piece is active.
    pub fn make_permanent(&mut self)
        requires
            old(self).wf(),
            old(self).current_tetrimino is Some ==> old(self).score + 1170 <= u32::MAX
                && old(self).number_of_lines + 16 <= u32::MAX,
        ensures
            final(self).wf(),
            old(self).current_tetrimino is None ==> *final(self) == *old(self),
            old(self).current_tetrimino matches Some(t) ==> {
                let locked = lock_grid(
                    old(self).game_map.deep_view(),
                    t.current_grid(),
                    t.x as int,
                    t.y as int,
                );
                &&& final(self).current_tetrimino is None
                &&& final(self).game_map.deep_view() == cleared_grid(locked)
                &&& final(self).score == old(self).score + old(self).current_level + full_count(
                    locked,
                ) * old(self).current_level + (if full_count(locked) == 16 {
                    1000int
                } else {
                    0int
                })
                &&& final(self).number_of_lines == old(self).number_of_lines + full_count(locked)
                &&& final(self).current_level == level_after(
                    old(self).current_level as int,
                    old(self).number_of_lines as int,
                    full_count(locked),
                )
                &&& final(self).selector == old(self).selector
            },
            final(self).score >= old(self).score,
            final(self).current_level >= old(self).current_level,
            final(self).number_of_lines >= old(self).number_of_lines,
    {
        let topt = self.current_tetrimino.take();
        match topt {
            None => {},
            Some(t) => {
                let ghost g0 = self.game_map.deep_view();
                let ghost st = t.current_grid();
                let ghost px = t.x as int;
                let ghost py = t.y as int;
                let st_vec: &Vec<Vec<u8>> = &t.states[t.current_state as usize];
                proof {
                    lemma_states_deep_view(t.states);
                    lemma_rows_deep_view(*st_vec);
                    assert(st == st_vec.deep_view());
                    lemma_rows_deep_view(self.game_map);
                    assert(self.game_map@.len() == 16);
                    assert forall|ry: int| 0 <= ry < 16 implies (#[trigger] self.game_map@[ry])@.len()
                        == 10 by {
                        assert(self.game_map.deep_view()[ry] == self.game_map@[ry]@);
                        assert(g0[ry].len() == 10);
                    }
                    assert forall|ry: int, rx: int|
                        0 <= ry < 16 && 0 <= rx < 10 implies (#[trigger] self.game_map@[ry]@[rx])
                        == g0[ry][rx] by {
                        assert(self.game_map.deep_view()[ry] == self.game_map@[ry]@);
                    }
                }
                let mut dy: usize = 0;
                while dy < 4
                    invariant
                        dy <= 4,
                        self.game_map@.len() == 16,
                        forall|ry: int|
                            0 <= ry < 16 ==> (#[trigger] self.game_map@[ry])@.len() == 10,
                        forall|ry: int, rx: int|
                            0 <= ry < 16 && 0 <= rx < 10 ==> (#[trigger] self.game_map@[ry]@[rx])
                                == lock_cell_upto(g0, st, px, py, ry, rx, 4 * dy),
                        self.score == old(self).score,
                        self.current_level == old(self).current_level,
                        self.number_of_lines == old(self).number_of_lines,
                        self.current_tetrimino is None,
                        self.selector == old(self).selector,
                    decreases 4 - dy,
                {
                    let mut dx: usize = 0;
                    while dx < 4
                        invariant
                            dy < 4,
                            dx <= 4,
                            self.game_map@.len() == 16,
                            forall|ry: int|
                                0 <= ry < 16 ==> (#[trigger] self.game_map@[ry])@.len() == 10,
                            forall|ry: int, rx: int|
                                0 <= ry < 16 && 0 <= rx < 10 ==> (
                                #[trigger] self.game_map@[ry]@[rx]) == lock_cell_upto(
                                    g0,
                                    st,
                                    px,
                                    py,
                                    ry,
                                    rx,
                                    4 * dy + dx,
                                ),
                            self.score == old(self).score,
                            self.current_level == old(self).current_level,
                            self.number_of_lines == old(self).number_of_lines,
                            self.current_tetrimino is None,
                            self.selector == old(self).selector,
                        decreases 4 - dx,
                    {
                        proof {
                            lemma_rows_deep_view(*st_vec);
                            assert(st_vec@.len() == 4);
                            assert(st_vec.deep_view()[dy as int] == st_vec@[dy as int]@);
                            assert(st[dy as int].len() == 4);
                        }
                        let cell = st_vec[dy][dx];
                        proof {
                            assert(cell == st[dy as int][dx as int]);
                        }
                        if cell != 0 {
                            let yy = t.y + dy;
                            if yy < self.game_map.len() {
                                let xx: isize = t.x + dx as isize;
                                if xx >= 0 {
                                    let xxu = xx as usize;
                                    if xxu < self.game_map[yy].len() {
                                        self.game_map[yy][xxu] = cell;
                                    }
                                }
                            }
                        }
                        proof {
                            assert forall|ry: int, rx: int|
                                0 <= ry < 16 && 0 <= rx < 10 implies (
                            #[trigger] self.game_map@[ry]@[rx]) == lock_cell_upto(
                                g0,
                                st,
                                px,
                                py,
                                ry,
                                rx,
                                4 * dy + dx + 1,
                            ) by {
                                if py <= ry < py + 4 && px <= rx < px + 4 {
                                    let ddy = ry - py;
                                    let ddx = rx - px;
                                    if ddy != dy || ddx != dx {
                                        assert(ddy * 4 + ddx != 4 * dy + dx);
                                    }
                                }
                            }
                        }
                        dx = dx + 1;
                    }
                    dy = dy + 1;
                }
                proof {
                    lemma_rows_deep_view(self.game_map);
                    assert(self.game_map.deep_view() =~~= lock_grid(g0, st, px, py));
                }
                let level = self.current_level;
                self.update_score(level);
                self.check_lines();
            },
        }
    }

    /// Scans for complete rows; each one is removed, awards the current
    /// level's point value and counts one cleared line (which may raise the
    /// level). A grid left entirely empty earns a fixed 1000-point bonus.
    /// Empty rows are inserted at the top until the grid has 16 rows again.
    fn check_lines(&mut self)
        requires
            grid_wf(old(self).game_map.deep_view()),
            1 <= old(self).current_level <= 10,
            old(self).score + 1160 <= u32::MAX,
            old(self).number_of_lines + 16 <= u32::MAX,
        ensures
            final(self).game_map.deep_view() == cleared_grid(old(self).game_map.deep_view()),
            grid_wf(final(self).game_map.deep_view()),
            final(self).score == old(self).score + full_count(old(self).game_map.deep_view())
                * old(self).current_level + (if full_count(old(self).game_map.deep_view()) == 16 {
                1000int
            } else {
                0int
            }),
            final(self).number_of_lines == old(self).number_of_lines + full_count(
                old(self).game_map.deep_view(),
            ),
            final(self).current_level == level_after(
                old(self).current_level as int,
                old(self).number_of_lines as int,
                full_count(old(self).game_map.deep_view()),
            ),
            1 <= final(self).current_level <= 10,
            final(self).current_tetrimino == old(self).current_tetrimino,
            final(self).selector == old(self).selector,
            final(self).score >= old(self).score,
            final(self).current_level >= old(self).current_level,
            final(self).number_of_lines >= old(self).number_of_lines,
    {
        let ghost g0 = self.game_map.deep_view();
        let mut rows: Vec<Vec<u8>> = Vec::new();
        core::mem::swap(&mut rows, &mut self.game_map);
        proof {
            lemma_rows_deep_view(rows);
            assert(rows.deep_view() =~= g0.skip(0));
            assert(g0.take(0) =~= Seq::<Seq<u8>>::empty());
        }
        let mut kept: Vec<Vec<u8>> = Vec::new();
        let mut removed: u32 = 0;
        let mut i: usize = 0;
        while i < 16
            invariant
                i <= 16,
                rows.deep_view() =~= g0.skip(i as int),
                kept.deep_view() == keep_rows(g0.take(i as int)),
                forall|k: int| 0 <= k < kept@.len() ==> (#[trigger] kept@[k])@.len() == 10,
                removed == full_count(g0.take(i as int)),
                removed <= i,
                self.score == old(self).score,
                self.current_level == old(self).current_level,
                self.number_of_lines == old(self).number_of_lines,
                self.current_tetrimino == old(self).current_tetrimino,
                self.selector == old(self).selector,
            decreases 16 - i,
        {
            let ghost prev_rows = rows@;
            proof {
                lemma_rows_deep_view(rows);
                assert(rows.deep_view()[0] == g0.skip(i as int)[0]);
                assert(rows@[0]@ == g0[i as int]);
            }
            let row = rows.remove(0);
            proof {
                assert(row@ == g0[i as int]);
                assert(rows@ =~= prev_rows.subrange(1, prev_rows.len() as int));
                lemma_rows_deep_view(rows);
                assert forall|k: int| 0 <= k < rows@.len() implies #[trigger] rows.deep_view()[k]
                    == g0.skip(i + 1)[k] by {
                    assert(rows@[k] == prev_rows[k + 1]);
                    assert(rows@[k]@ == g0.skip(i as int)[k + 1]);
                }
            }
            let full = row_is_full(&row);
            let ghost prev_kept = kept.deep_view();
            if full {
                removed = removed + 1;
            } else {
                kept.push(row);
            }
            proof {
                lemma_rows_deep_view(kept);
                assert(g0.take(i + 1).drop_last() =~= g0.take(i as int));
                assert(g0.take(i + 1).last() == g0[i as int]);
                assert(rows.deep_view() =~= g0.skip(i + 1));
                if !full {
                    assert(kept.deep_view() =~= prev_kept.push(row@));
                }
            }
            i = i + 1;
        }
        proof {
            assert(g0.take(16) =~= g0);
            lemma_keep_rows_count(g0);
        }
        let current_level = self.current_level;
        proof {
            assert(removed * current_level <= 160) by (nonlinear_arith)
                requires
                    0 <= removed <= 16,
                    0 <= current_level <= 10,
            ;
        }
        let mut score_add: u32 = removed * current_level;
        if kept.len() == 0 {
            score_add = score_add + 1000;
        }
        self.update_score(score_add);
        let ghost lines0 = self.number_of_lines;
        let ghost level0 = self.current_level;
        let mut j: u32 = 0;
        while j < removed
            invariant
                j <= removed,
                removed <= 16,
                self.number_of_lines == lines0 + j,
                1 <= self.current_level <= 10,
                self.current_level >= level0,
                level_after(
                    self.current_level as int,
                    self.number_of_lines as int,
                    (removed - j) as nat,
                ) == level_after(level0 as int, lines0 as int, removed as nat),
                lines0 + 16 <= u32::MAX,
                self.score == old(self).score + score_add,
                self.game_map@.len() == 0,
                self.current_tetrimino == old(self).current_tetrimino,
                self.selector == old(self).selector,
            decreases removed - j,
        {
            let ghost cur_level = self.current_level as int;
            let ghost cur_lines = self.number_of_lines as int;
            self.increase_line();
            proof {
                assert(level_after(cur_level, cur_lines, (removed - j) as nat) == level_after(
                    bumped_level(cur_level, cur_lines + 1),
                    cur_lines + 1,
                    (removed - j - 1) as nat,
                ));
            }
            j = j + 1;
        }
        let mut new_map: Vec<Vec<u8>> = Vec::new();
        let mut e: u32 = 0;
        while e < removed
            invariant
                e <= removed,
                new_map@.len() == e,
                forall|k: int| 0 <= k < e ==> (#[trigger] new_map@[k])@ == empty_row(),
            decreases removed - e,
        {
            new_map.push(empty_row_vec());
            e = e + 1;
        }
        let ghost keptv = kept.deep_view();
        proof {
            lemma_rows_deep_view(kept);
        }
        new_map.append(&mut kept);
        proof {
            lemma_rows_deep_view(new_map);
            assert(new_map.deep_view() =~= cleared_grid(g0));
        }
        self.game_map = new_map;
    }

    /// Adds `to_add` points to the score; nothing else changes.
    fn update_score(&mut self, to_add: u32)
        requires
            old(self).score + to_add <= u32::MAX,
        ensures
            *final(self) == (Tetris { score: (old(self).score + to_add) as u32, ..*old(self) }),
    {
        self.score = self.score + to_add;
    }

    /// Moves one level up; nothing else changes.
    fn increase_level(&mut self)
        requires
            old(self).current_level < 10,
        ensures
            *final(self) == (Tetris {
                current_level: (old(self).current_level + 1) as u32,
                ..*old(self)
            }),
    {
        self.current_level = self.current_level + 1;
    }

    /// Counts one cleared line; crossing the current level's line threshold
    /// moves one level up.
    fn increase_line(&mut self)
        requires
            old(self).number_of_lines < u32::MAX,
            1 <= old(self).current_level <= 10,
        ensures
            *final(self) == (Tetris {
                number_of_lines: (old(self).number_of_lines + 1) as u32,
                current_level: bumped_level(
                    old(self).current_level as int,
                    old(self).number_of_lines + 1,
                ) as u32,
                ..*old(self)
            }),
            old(self).current_level <= final(self).current_level <= 10,
    {
        self.number_of_lines = self.number_of_lines + 1;
        if self.current_level < 10 {
            let threshold = 20 * self.current_level;
            if self.number_of_lines >= threshold {
                self.increase_level();
            }
        }
    }
}

/// True iff every cell of the row is occupied.
fn row_is_full(row: &Vec<u8>) -> (b: bool)
    ensures
        b == row_full(row@),
{
    let mut x: usize = 0;
    while x < row.len()
        invariant
            x <= row@.len(),
            forall|k: int| 0 <= k < x ==> row@[k] != 0,
        decreases row@.len() - x,
    {
        if row[x] == 0 {
            return false;
        }
        x = x + 1;
    }
    true
}

/// A freshly allocated empty board row.
fn empty_row_vec() -> (r: Vec<u8>)
    ensures
        r@ == empty_row(),
{
    let mut r: Vec<u8> = Vec::new();
    let mut x: usize = 0;
    while x < 10
        invariant
            x <= 10,
            r@.len() == x,
            forall|k: int| 0 <= k < x ==> r@[k] == 0,
        decreases 10 - x,
    {
        r.push(0);
        x = x + 1;
    }
    proof {
        assert(r@ =~= empty_row());
    }
    r
}

/// True iff the gravity interval of the session's level has elapsed: the
/// timing layer then attempts the automatic one-row drop.
pub fn is_time_over(tetris: &Tetris, elapsed_millis: u32) -> (r: bool)
    requires
        tetris.wf(),
    ensures
        r == (elapsed_millis > gravity_ms(tetris.current_level as int)),
{
    let level = tetris.current_level;
    let interval: u32 = if level == 1 {
        1000
    } else if level == 2 {
        850
    } else if level == 3 {
        700
    } else if level == 4 {
        600
    } else if level == 5 {
        500
    } else if level == 6 {
        400
    } else if level == 7 {
        300
    } else if level == 8 {
        250
    } else if level == 9 {
        221
    } else {
        190
    };
    elapsed_millis > interval
}

} // verus!
