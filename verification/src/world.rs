use vstd::prelude::*;
use vstd::pervasive::VecAdditionalExecFns;
use vstd::string::StringExecFns;
use crate::position::{manhattan_distance, Position};
use crate::unit::{attacker_after_attack, defender_after_attack, lemma_no_mutual_destruction, Unit};

verus! {

/// The battlefield: a `size` by `size` board holding at most one unit per
/// cell. The cell at `(x, y)` lives at index `x * size + y` of the grid, so a
/// cell is empty exactly when its slot is `None`. Every unit on the board is
/// alive (positive health) and well formed; a unit that dies is removed at
/// once and never left behind at zero health.
pub struct World {
    pub grid: Vec<Option<Unit>>,
    pub size: u16,
}

/// How many cells of `cells` hold a unit.
pub open spec fn count_units(cells: Seq<Option<Unit>>) -> int
    decreases cells.len(),
{
    if cells.len() == 0 {
        0
    } else {
        count_units(cells.drop_last()) + if cells.last() is Some {
            1int
        } else {
            0int
        }
    }
}

/// Replacing one cell changes the unit count by exactly the difference the
/// two cell states make.
pub proof fn lemma_count_units_update(cells: Seq<Option<Unit>>, i: int, v: Option<Unit>)
    requires
        0 <= i < cells.len(),
    ensures
        count_units(cells.update(i, v)) == count_units(cells) - (if cells[i] is Some {
            1int
        } else {
            0int
        }) + (if v is Some {
            1int
        } else {
            0int
        }),
    decreases cells.len(),
{
    let updated = cells.update(i, v);
    if i == cells.len() - 1 {
        assert(updated.drop_last() =~= cells.drop_last());
        assert(updated.last() == v);
    } else {
        assert(updated.drop_last() =~= cells.drop_last().update(i, v));
        assert(updated.last() == cells.last());
        lemma_count_units_update(cells.drop_last(), i, v);
    }
}

impl World {
    /// Board well-formedness: the grid covers the whole board, and every unit
    /// standing on it is alive and has positive defense.
    pub open spec fn wf(self) -> bool {
        &&& self.grid@.len() == self.size * self.size
        &&& forall|i: int|
            0 <= i < self.grid@.len() && (#[trigger] self.grid@[i]) is Some ==> self.grid@[i]->Some_0.wf()
                && self.grid@[i]->Some_0.health > 0
    }

    pub open spec fn in_bounds(self, p: Position) -> bool {
        p.x < self.size && p.y < self.size
    }

    /// The grid slot that backs the cell at `p`.
    pub open spec fn cell_index(self, p: Position) -> int {
        p.x * self.size + p.y
    }

    /// The occupant of the cell at `p`, for `p` within bounds.
    pub open spec fn unit_at(self, p: Position) -> Option<Unit> {
        self.grid@[self.cell_index(p)]
    }

    pub open spec fn occupied_at(self, p: Position) -> bool {
        self.in_bounds(p) && self.unit_at(p) is Some
    }

    /// When a move from `from` to `to` is carried out: the origin holds a
    /// unit, the destination is a free cell of the board, and the two lie
    /// within the movement range of one.
    pub open spec fn move_allowed(self, from: Position, to: Position) -> bool {
        &&& self.occupied_at(from)
        &&& self.in_bounds(to)
        &&& !self.occupied_at(to)
        &&& manhattan_distance(from, to) <= 1
    }

    /// How many units stand on the board.
    pub open spec fn unit_count(self) -> int {
        count_units(self.grid@)
    }

    /// The character that renders the cell at `(x, y)`: `'x'` when occupied,
    /// `'0'` when free.
    pub open spec fn cell_char(self, x: int, y: int) -> char {
        if self.grid@[x * self.size + y] is Some {
            'x'
        } else {
            '0'
        }
    }

    /// The first `y` cell characters of the line for row `x`.
    pub open spec fn row_prefix_chars(self, x: int, y: int) -> Seq<char>
        decreases y,
    {
        if y <= 0 {
            Seq::empty()
        } else {
            self.row_prefix_chars(x, y - 1).push(self.cell_char(x, y - 1))
        }
    }

    /// The first `x` rendered lines of the board, each closed by a newline.
    pub open spec fn rows_prefix_chars(self, x: int) -> Seq<char>
        decreases x,
    {
        if x <= 0 {
            Seq::empty()
        } else {
            self.rows_prefix_chars(x - 1) + self.row_prefix_chars(x - 1, self.size as int).push(
                '\n',
            )
        }
    }

    /// The textual rendering of the whole board: one newline-terminated line
    /// per value of `x`, cells in increasing `y` order within a line.
    pub open spec fn rendered_map(self) -> Seq<char> {
        self.rows_prefix_chars(self.size as int)
    }

    /// Whether a unit standing at `current` could step onto the cell `p`:
    /// the cell is another one than its own, free, and within the movement
    /// range of one.
    pub open spec fn can_step_to(self, current: Position, p: Position) -> bool {
        p != current && !(self.unit_at(p) is Some) && manhattan_distance(p, current) <= 1
    }

    /// The movement options found in row `x` up to (excluding) column `y`,
    /// in scan order.
    pub open spec fn steps_row_prefix(self, current: Position, x: int, y: int) -> Seq<Position>
        decreases y,
    {
        if y <= 0 {
            Seq::empty()
        } else {
            let rest = self.steps_row_prefix(current, x, y - 1);
            let p = Position { x: x as u16, y: (y - 1) as u16 };
            if self.can_step_to(current, p) {
                rest.push(p)
            } else {
                rest
            }
        }
    }

    /// The movement options found in the first `x` rows, in scan order.
    pub open spec fn steps_prefix(self, current: Position, x: int) -> Seq<Position>
        decreases x,
    {
        if x <= 0 {
            Seq::empty()
        } else {
            self.steps_prefix(current, x - 1) + self.steps_row_prefix(
                current,
                x - 1,
                self.size as int,
            )
        }
    }

    /// Where a unit at `current` may stand next: the current position itself
    /// exactly once, followed by every other free cell of the board within
    /// the movement range of one, enumerated in row-major scan order.
    pub open spec fn possible_next_positions(self, current: Position) -> Seq<Position> {
        seq![current] + self.steps_prefix(current, self.size as int)
    }

    pub fn new(size: u16) -> (world: World)
        ensures
            world.wf(),
            world.size == size,
            forall|i: int| 0 <= i < world.grid@.len() ==> world.grid@[i] is None,
            forall|p: Position| !world.occupied_at(p),
            world.unit_count() == 0,
    {
        proof {
            lemma_area_fits(size);
        }
        let cell_total: usize = (size as usize) * (size as usize);
        let mut grid: Vec<Option<Unit>> = Vec::new();
        while grid.len() < cell_total
            invariant
                grid@.len() <= cell_total,
                forall|i: int| 0 <= i < grid@.len() ==> grid@[i] is None,
                count_units(grid@) == 0,
            decreases cell_total - grid.len(),
        {
            let ghost prior = grid@;
            grid.push(None);
            proof {
                assert(grid@.drop_last() =~= prior);
            }
        }
        let world = World { grid, size };
        proof {
            assert forall|p: Position| !world.occupied_at(p) by {
                if world.in_bounds(p) {
                    lemma_cell_index_in_range(world, p);
                }
            }
        }
        world
    }

    /// Places `unit` at `position`, overwriting any occupant already there;
    /// checking for a conflict is the caller's responsibility. Units put on
    /// the board must be alive, and the cell must lie on the board, so that
    /// the board invariant survives.
    pub fn insert_unit(&mut self, unit: Unit, position: Position)
        requires
            old(self).wf(),
            old(self).in_bounds(position),
            unit.wf(),
            unit.health > 0,
        ensures
            final(self).wf(),
            final(self).size == old(self).size,
            final(self).unit_at(position) == Some(unit),
            final(self).occupied_at(position),
            forall|q: Position|
                old(self).in_bounds(q) && q != position
                    ==> final(self).unit_at(q) == old(self).unit_at(q),
            final(self).unit_count() == old(self).unit_count() + (if old(self).occupied_at(
                position,
            ) {
                0int
            } else {
                1int
            }),
    {
        proof {
            lemma_cell_index_in_range(*self, position);
            lemma_area_fits(self.size);
            lemma_count_units_update(self.grid@, self.cell_index(position), Some(unit));
        }
        let idx: usize = (position.x as usize) * (self.size as usize) + (position.y as usize);
        self.grid.set(idx, Some(unit));
        proof {
            assert forall|q: Position| old(self).in_bounds(q) && q != position implies self.unit_at(
                q,
            ) == old(self).unit_at(q) by {
                lemma_cell_index_in_range(*old(self), q);
                if old(self).cell_index(q) == old(self).cell_index(position) {
                    lemma_cell_index_injective(*old(self), q, position);
                }
            }
        }
    }

    /// Moves the unit at `current_position` to `new_position` and reports
    /// success. The move happens exactly when the origin is occupied, the
    /// destination is a free cell of the board, and the Manhattan distance
    /// between the two is at most the movement range of one; otherwise the
    /// board is left untouched.
    pub fn move_unit(&mut self, current_position: Position, new_position: Position) -> (moved:
        bool)
        requires
            old(self).wf(),
        ensures
            final(self).wf(),
            final(self).size == old(self).size,
            moved == old(self).move_allowed(current_position, new_position),
            moved ==> final(self).unit_at(new_position) == old(self).unit_at(current_position),
            moved ==> final(self).unit_at(current_position) is None,
            moved ==> forall|q: Position|
                old(self).in_bounds(q) && q != current_position && q != new_position
                    ==> final(self).unit_at(q) == old(self).unit_at(q),
            final(self).unit_count() == old(self).unit_count(),
            !moved ==> *final(self) == *old(self),
    {
        let movement_distance: u32 = 1;
        if !self.occupied(current_position) || self.occupied(new_position) || new_position.x
            >= self.size || new_position.y >= self.size || current_position.get_distance_to(
            new_position,
        ) > movement_distance {
            return false;
        }
        proof {
            lemma_cell_index_in_range(*self, current_position);
            lemma_cell_index_in_range(*self, new_position);
            lemma_area_fits(self.size);
            if self.cell_index(current_position) == self.cell_index(new_position) {
                lemma_cell_index_injective(*self, current_position, new_position);
            }
        }
        let from_idx: usize = (current_position.x as usize) * (self.size as usize) + (
        current_position.y as usize);
        let to_idx: usize = (new_position.x as usize) * (self.size as usize) + (
        new_position.y as usize);
        let unit: Option<Unit> = self.grid[from_idx];
        proof {
            lemma_count_units_update(self.grid@, from_idx as int, None);
        }
        self.grid.set(from_idx, None);
        proof {
            lemma_count_units_update(self.grid@, to_idx as int, unit);
        }
        self.grid.set(to_idx, unit);
        proof {
            assert forall|q: Position|
                old(self).in_bounds(q) && q != current_position && q
                    != new_position implies self.unit_at(q) == old(self).unit_at(q) by {
                lemma_cell_index_in_range(*old(self), q);
                if old(self).cell_index(q) == old(self).cell_index(current_position) {
                    lemma_cell_index_injective(*old(self), q, current_position);
                }
                if old(self).cell_index(q) == old(self).cell_index(new_position) {
                    lemma_cell_index_injective(*old(self), q, new_position);
                }
            }
        }
        true
    }

    /// Resolves one combat exchange between the units standing at the two
    /// positions. An attack beyond the range of one is ignored entirely.
    /// Within range, both positions must hold a unit and must differ: calling
    /// in on an empty cell is a contract violation on the caller, not a
    /// recoverable condition. Each survivor returns to its cell; a unit whose
    /// health the exchange exhausted is dropped from the board for good.
    pub fn attack(&mut self, attack_position: Position, defend_position: Position)
        requires
            old(self).wf(),
            manhattan_distance(attack_position, defend_position) <= 1 ==> {
                &&& old(self).occupied_at(attack_position)
                &&& old(self).occupied_at(defend_position)
                &&& attack_position != defend_position
            },
        ensures
            final(self).wf(),
            final(self).size == old(self).size,
            manhattan_distance(attack_position, defend_position) > 1 ==> *final(self) == *old(
                self,
            ),
            manhattan_distance(attack_position, defend_position) <= 1 ==> ({
                let a0 = old(self).unit_at(attack_position)->Some_0;
                let d0 = old(self).unit_at(defend_position)->Some_0;
                let a1 = attacker_after_attack(a0, d0);
                let d1 = defender_after_attack(a0, d0);
                &&& final(self).unit_at(attack_position) == (if a1.health > 0 {
                    Some(a1)
                } else {
                    None::<Unit>
                })
                &&& final(self).unit_at(defend_position) == (if d1.health > 0 {
                    Some(d1)
                } else {
                    None::<Unit>
                })
                &&& forall|q: Position|
                    old(self).in_bounds(q) && q != attack_position && q != defend_position
                        ==> final(self).unit_at(q) == old(self).unit_at(q)
                &&& final(self).unit_count() == old(self).unit_count() - (if a1.health == 0 {
                    1int
                } else {
                    0int
                }) - (if d1.health == 0 {
                    1int
                } else {
                    0int
                })
            }),
    {
        if attack_position.get_distance_to(defend_position) > 1 {
            return ;
        }
        proof {
            lemma_cell_index_in_range(*self, attack_position);
            lemma_cell_index_in_range(*self, defend_position);
            lemma_area_fits(self.size);
            if self.cell_index(attack_position) == self.cell_index(defend_position) {
                lemma_cell_index_injective(*self, attack_position, defend_position);
            }
        }
        let attack_idx: usize = (attack_position.x as usize) * (self.size as usize) + (
        attack_position.y as usize);
        let defend_idx: usize = (defend_position.x as usize) * (self.size as usize) + (
        defend_position.y as usize);
        let mut attacker: Unit = self.grid[attack_idx].unwrap();
        let mut defender: Unit = self.grid[defend_idx].unwrap();
        proof {
            lemma_count_units_update(self.grid@, attack_idx as int, None);
        }
        self.grid.set(attack_idx, None);
        proof {
            lemma_count_units_update(self.grid@, defend_idx as int, None);
        }
        self.grid.set(defend_idx, None);
        let (attacker_is_alive, defender_is_alive) = attacker.attack(&mut defender);
        if attacker_is_alive {
            proof {
                lemma_count_units_update(self.grid@, attack_idx as int, Some(attacker));
            }
            self.grid.set(attack_idx, Some(attacker));
        }
        if defender_is_alive {
            proof {
                lemma_count_units_update(self.grid@, defend_idx as int, Some(defender));
            }
            self.grid.set(defend_idx, Some(defender));
        }
        proof {
            assert forall|q: Position|
                old(self).in_bounds(q) && q != attack_position && q
                    != defend_position implies self.unit_at(q) == old(self).unit_at(q) by {
                lemma_cell_index_in_range(*old(self), q);
                if old(self).cell_index(q) == old(self).cell_index(attack_position) {
                    lemma_cell_index_injective(*old(self), q, attack_position);
                }
                if old(self).cell_index(q) == old(self).cell_index(defend_position) {
                    lemma_cell_index_injective(*old(self), q, defend_position);
                }
            }
        }
    }

    pub fn get_size(&self) -> (size: u16)
        ensures
            size == self.size,
    {
        self.size
    }

    pub fn occupied(&self, position: Position) -> (r: bool)
        requires
            self.wf(),
        ensures
            r == self.occupied_at(position),
    {
        if position.x < self.size && position.y < self.size {
            proof {
                lemma_cell_index_in_range(*self, position);
                lemma_area_fits(self.size);
            }
            let idx: usize = (position.x as usize) * (self.size as usize) + (position.y as usize);
            self.grid[idx].is_some()
        } else {
            false
        }
    }

    /// Renders the board as text: `size` lines of `size` characters, `'x'`
    /// for an occupied cell and `'0'` for a free one, each line closed by a
    /// newline.
    pub fn get_map(&self) -> (map: String)
        requires
            self.wf(),
        ensures
            map@ == self.rendered_map(),
    {
        let mut map = String::new();
        let mut x: u16 = 0;
        while x < self.size
            invariant
                self.wf(),
                x <= self.size,
                map@ == self.rows_prefix_chars(x as int),
            decreases self.size - x,
        {
            let mut y: u16 = 0;
            proof {
                assert(self.row_prefix_chars(x as int, 0) =~= Seq::<char>::empty());
                assert(map@ =~= self.rows_prefix_chars(x as int) + self.row_prefix_chars(
                    x as int,
                    0,
                ));
            }
            while y < self.size
                invariant
                    self.wf(),
                    x < self.size,
                    y <= self.size,
                    map@ == self.rows_prefix_chars(x as int) + self.row_prefix_chars(
                        x as int,
                        y as int,
                    ),
                decreases self.size - y,
            {
                proof {
                    lemma_cell_index_in_range(*self, Position { x, y });
                    lemma_area_fits(self.size);
                }
                let idx: usize = (x as usize) * (self.size as usize) + (y as usize);
                let ghost before = map@;
                if self.grid[idx].is_some() {
                    map.append("x");
                    proof {
                        reveal_strlit("x");
                        assert(map@ =~= before.push(self.cell_char(x as int, y as int)));
                    }
                } else {
                    map.append("0");
                    proof {
                        reveal_strlit("0");
                        assert(map@ =~= before.push(self.cell_char(x as int, y as int)));
                    }
                }
                y = y + 1;
                proof {
                    assert(map@ =~= self.rows_prefix_chars(x as int) + self.row_prefix_chars(
                        x as int,
                        y as int,
                    ));
                }
            }
            map.append("\n");
            x = x + 1;
            proof {
                reveal_strlit("\n");
                assert(map@ =~= self.rows_prefix_chars(x as int));
            }
        }
        map
    }

    /// Lists where the unit at `current_position` may stand next: the current
    /// position first, then every other free cell within the movement range
    /// of one, scanned in row-major order.
    pub fn get_possible_next_positions(&self, current_position: Position) -> (positions: Vec<
        Position,
    >)
        requires
            self.wf(),
        ensures
            positions@ == self.possible_next_positions(current_position),
    {
        let mut possible_next_positions: Vec<Position> = Vec::new();
        possible_next_positions.push(current_position);
        let movement_distance: u32 = 1;
        proof {
            assert(possible_next_positions@ =~= seq![current_position] + self.steps_prefix(
                current_position,
                0,
            ));
        }
        let mut x: u16 = 0;
        while x < self.size
            invariant
                self.wf(),
                movement_distance == 1,
                x <= self.size,
                possible_next_positions@ == seq![current_position] + self.steps_prefix(
                    current_position,
                    x as int,
                ),
            decreases self.size - x,
        {
            let mut y: u16 = 0;
            proof {
                assert(self.steps_row_prefix(current_position, x as int, 0)
                    =~= Seq::<Position>::empty());
                assert(possible_next_positions@ =~= seq![current_position] + self.steps_prefix(
                    current_position,
                    x as int,
                ) + self.steps_row_prefix(current_position, x as int, 0));
            }
            while y < self.size
                invariant
                    self.wf(),
                    movement_distance == 1,
                    x < self.size,
                    y <= self.size,
                    possible_next_positions@ == seq![current_position] + self.steps_prefix(
                        current_position,
                        x as int,
                    ) + self.steps_row_prefix(current_position, x as int, y as int),
                decreases self.size - y,
            {
                let ghost base = seq![current_position] + self.steps_prefix(
                    current_position,
                    x as int,
                );
                let ghost row_so_far = self.steps_row_prefix(current_position, x as int, y as int);
                let potential_new_position = Position::new(x, y);
                let other = !(potential_new_position == current_position);
                let free = !self.occupied(potential_new_position);
                let close = potential_new_position.get_distance_to(current_position)
                    <= movement_distance;
                proof {
                    assert(self.in_bounds(potential_new_position));
                    assert((other && free && close) == self.can_step_to(
                        current_position,
                        potential_new_position,
                    ));
                }
                if other && free && close {
                    possible_next_positions.push(potential_new_position);
                    proof {
                        assert(possible_next_positions@ =~= base + row_so_far.push(
                            potential_new_position,
                        ));
                    }
                }
                y = y + 1;
                proof {
                    assert(self.steps_row_prefix(current_position, x as int, y as int) == (
                    if self.can_step_to(current_position, potential_new_position) {
                        row_so_far.push(potential_new_position)
                    } else {
                        row_so_far
                    }));
                    assert(possible_next_positions@ == base + self.steps_row_prefix(
                        current_position,
                        x as int,
                        y as int,
                    ));
                }
            }
            x = x + 1;
            proof {
                assert(possible_next_positions@ =~= seq![current_position] + self.steps_prefix(
                    current_position,
                    x as int,
                ));
            }
        }
        possible_next_positions
    }

    /// How many units stand on the board.
    pub fn get_unit_count(&self) -> (count: usize)
        ensures
            count == self.unit_count(),
    {
        let mut count: usize = 0;
        let mut idx: usize = 0;
        while idx < self.grid.len()
            invariant
                idx <= self.grid@.len(),
                count == count_units(self.grid@.take(idx as int)),
                count <= idx,
            decreases self.grid@.len() - idx,
        {
            proof {
                assert(self.grid@.take(idx + 1).drop_last() =~= self.grid@.take(idx as int));
                assert(self.grid@.take(idx + 1).last() == self.grid@[idx as int]);
            }
            if self.grid[idx].is_some() {
                count = count + 1;
            }
            idx = idx + 1;
        }
        proof {
            assert(self.grid@.take(self.grid@.len() as int) =~= self.grid@);
        }
        count
    }
}

/// One exchange on the board removes at most one unit: every unit standing on
/// a well-formed board is alive, and a live attacker survives any exchange in
/// which the defender falls, so the two can never die together.
pub proof fn lemma_attack_removes_at_most_one(
    world: World,
    attack_position: Position,
    defend_position: Position,
)
    requires
        world.wf(),
        world.occupied_at(attack_position),
        world.occupied_at(defend_position),
    ensures
        ({
            let a0 = world.unit_at(attack_position)->Some_0;
            let d0 = world.unit_at(defend_position)->Some_0;
            !(attacker_after_attack(a0, d0).health == 0 && defender_after_attack(a0, d0).health
                == 0)
        }),
{
    lemma_cell_index_in_range(world, attack_position);
    lemma_cell_index_in_range(world, defend_position);
    let a0 = world.unit_at(attack_position)->Some_0;
    let d0 = world.unit_at(defend_position)->Some_0;
    lemma_no_mutual_destruction(a0, d0);
}

/// A line prefix holds one character per cell rendered so far.
proof fn lemma_row_prefix_chars_length(world: World, x: int, y: int)
    requires
        y >= 0,
    ensures
        world.row_prefix_chars(x, y).len() == y,
    decreases y,
{
    if y > 0 {
        lemma_row_prefix_chars_length(world, x, y - 1);
    }
}

/// The first `x` rendered lines hold `x * (size + 1)` characters.
proof fn lemma_rows_prefix_chars_length(world: World, x: int)
    requires
        x >= 0,
    ensures
        world.rows_prefix_chars(x).len() == x * (world.size + 1),
    decreases x,
{
    if x > 0 {
        lemma_rows_prefix_chars_length(world, x - 1);
        lemma_row_prefix_chars_length(world, x - 1, world.size as int);
        assert(world.rows_prefix_chars(x).len() == (x - 1) * (world.size + 1) + (world.size + 1));
        assert(world.rows_prefix_chars(x).len() == x * (world.size + 1)) by (nonlinear_arith)
            requires
                world.rows_prefix_chars(x).len() == (x - 1) * (world.size + 1) + (world.size + 1),
        ;
    } else {
        assert(x * (world.size + 1) == 0) by (nonlinear_arith)
            requires
                x == 0,
        ;
    }
}

/// The board rendering holds one character per cell and one newline per row:
/// `size * (size + 1)` characters in all.
pub proof fn lemma_rendered_map_length(world: World)
    ensures
        world.rendered_map().len() == world.size * (world.size + 1),
{
    lemma_rows_prefix_chars_length(world, world.size as int);
}

/// Every movement option gathered from the rows of the board is a free cell
/// of the board within the movement range of one.
proof fn lemma_steps_row_prefix_sound(world: World, current: Position, x: int, y: int)
    requires
        0 <= x < world.size,
        0 <= y <= world.size,
    ensures
        forall|i: int|
            0 <= i < world.steps_row_prefix(current, x, y).len() ==> world.in_bounds(
                #[trigger] world.steps_row_prefix(current, x, y)[i],
            ) && world.can_step_to(current, world.steps_row_prefix(current, x, y)[i]),
    decreases y,
{
    if y > 0 {
        lemma_steps_row_prefix_sound(world, current, x, y - 1);
        let rest = world.steps_row_prefix(current, x, y - 1);
        let row = world.steps_row_prefix(current, x, y);
        let p = Position { x: x as u16, y: (y - 1) as u16 };
        assert forall|i: int| 0 <= i < row.len() implies world.in_bounds(#[trigger] row[i])
            && world.can_step_to(current, row[i]) by {
            if world.can_step_to(current, p) {
                assert(row == rest.push(p));
                if i < rest.len() {
                    assert(row[i] == rest[i]);
                } else {
                    assert(row[i] == p);
                }
            } else {
                assert(row == rest);
            }
        }
    }
}

/// As above, over whole rows of the board.
proof fn lemma_steps_prefix_sound(world: World, current: Position, x: int)
    requires
        0 <= x <= world.size,
    ensures
        forall|i: int|
            0 <= i < world.steps_prefix(current, x).len() ==> world.in_bounds(
                #[trigger] world.steps_prefix(current, x)[i],
            ) && world.can_step_to(current, world.steps_prefix(current, x)[i]),
    decreases x,
{
    if x > 0 {
        lemma_steps_prefix_sound(world, current, x - 1);
        lemma_steps_row_prefix_sound(world, current, x - 1, world.size as int);
        let prev = world.steps_prefix(current, x - 1);
        let row = world.steps_row_prefix(current, x - 1, world.size as int);
        let all = world.steps_prefix(current, x);
        assert(all == prev + row);
        assert forall|i: int| 0 <= i < all.len() implies world.in_bounds(#[trigger] all[i])
            && world.can_step_to(current, all[i]) by {
            if i < prev.len() {
                assert(all[i] == prev[i]);
            } else {
                assert(all[i] == row[i - prev.len()]);
            }
        }
    }
}

/// The movement options from `current` always begin with `current` itself,
/// and every further option is a different, free cell of the board within
/// the movement range of one.
pub proof fn lemma_possible_next_positions_sound(world: World, current: Position)
    ensures
        world.possible_next_positions(current).len() >= 1,
        world.possible_next_positions(current)[0] == current,
        forall|i: int|
            1 <= i < world.possible_next_positions(current).len() ==> world.in_bounds(
                #[trigger] world.possible_next_positions(current)[i],
            ) && world.can_step_to(current, world.possible_next_positions(current)[i]),
{
    lemma_steps_prefix_sound(world, current, world.size as int);
}

/// A board area never exceeds what a machine word holds, since coordinates
/// are sixteen-bit.
pub proof fn lemma_area_fits(size: u16)
    ensures
        (size as int) * (size as int) <= 0xFFFF * 0xFFFF,
{
    assert((size as int) * (size as int) <= 0xFFFF * 0xFFFF) by (nonlinear_arith)
        requires
            size <= 0xFFFF,
    ;
}

/// A cell of a well-formed board is backed by a grid slot within range.
pub proof fn lemma_cell_index_in_range(world: World, p: Position)
    requires
        world.wf(),
        world.in_bounds(p),
    ensures
        0 <= world.cell_index(p) < world.grid@.len(),
{
    assert(p.x * world.size + p.y < world.size * world.size) by (nonlinear_arith)
        requires
            p.x < world.size,
            p.y < world.size,
    ;
}

/// Distinct cells of the board are backed by distinct grid slots.
pub proof fn lemma_cell_index_injective(world: World, p: Position, q: Position)
    requires
        world.in_bounds(p),
        world.in_bounds(q),
        world.cell_index(p) == world.cell_index(q),
    ensures
        p == q,
{
    assert(p.x == q.x && p.y == q.y) by (nonlinear_arith)
        requires
            p.x < world.size,
            p.y < world.size,
            q.x < world.size,
            q.y < world.size,
            p.x * world.size + p.y == q.x * world.size + q.y,
    ;
}

} // verus!
