use vstd::prelude::*;
use vstd::relations::injective_on;
use vstd::set_lib::{lemma_int_range, lemma_len_subset, lemma_map_size, set_int_range};
use crate::board::{
    Cell, MIN_SIDE, contains_cell, distinct_cells, first_index, in_play, limit_of, play_limit,
    position_of, scans_before,
};
use crate::direction::{Direction, opposite_of};
use crate::rng::{draw_in, seeded_rng};

verus! {

/// How many food items the board holds when there is room for them.
pub const FOOD_TARGET: usize = 10;

/// How many random cells food placement tries before it scans the board.
pub const MAX_ATTEMPTS: u32 = 100;

/// The draws that food placement looks at: the first `MAX_ATTEMPTS`.
pub open spec fn attempts(draws: Seq<Cell>) -> Seq<Cell> {
    if draws.len() <= MAX_ATTEMPTS {
        draws
    } else {
        draws.take(MAX_ATTEMPTS as int)
    }
}

/// The mathematical state of a game: everything but the generator.
pub struct GameView {
    pub snake: Seq<Cell>,
    pub food: Seq<Cell>,
    pub direction: Direction,
    pub game_over: bool,
    pub width: u16,
    pub height: u16,
}

impl GameView {
    /// The state every reachable game is in.
    pub open spec fn wf(self) -> bool {
        &&& self.width >= MIN_SIDE
        &&& self.height >= MIN_SIDE
        &&& self.snake.len() >= 1
        &&& distinct_cells(self.snake)
        &&& distinct_cells(self.food)
        &&& forall|i: int|
            0 <= i < self.food.len() ==> #[trigger] in_play(self.width, self.height, self.food[i])
                && !self.snake.contains(self.food[i])
    }

    /// A cell where food may go: playable, under neither snake nor food.
    pub open spec fn is_free(self, c: Cell) -> bool {
        &&& in_play(self.width, self.height, c)
        &&& !self.snake.contains(c)
        &&& !self.food.contains(c)
    }

    /// No free cell is left.
    pub open spec fn board_full(self) -> bool {
        forall|c: Cell| !#[trigger] self.is_free(c)
    }

    /// `c` is the first free cell in row-major order.
    pub open spec fn first_free_at(self, c: Cell) -> bool {
        &&& self.is_free(c)
        &&& forall|d: Cell| #[trigger] scans_before(d, c) ==> !self.is_free(d)
    }

    /// What the exhaustive scan finds: the first free cell in row-major order.
    pub open spec fn scan_pick(self) -> Option<Cell> {
        if exists|c: Cell| self.first_free_at(c) {
            Some(choose|c: Cell| self.first_free_at(c))
        } else {
            None
        }
    }

    /// `draws[i]` is the first free cell among `draws`.
    pub open spec fn first_free_draw_at(self, draws: Seq<Cell>, i: int) -> bool {
        &&& 0 <= i < draws.len()
        &&& self.is_free(draws[i])
        &&& forall|j: int| 0 <= j < i ==> !#[trigger] self.is_free(draws[j])
    }

    /// The first free cell among the random attempts `draws`.
    pub open spec fn draw_pick(self, draws: Seq<Cell>) -> Option<Cell> {
        if exists|i: int| self.first_free_draw_at(draws, i) {
            Some(draws[choose|i: int| self.first_free_draw_at(draws, i)])
        } else {
            None
        }
    }

    /// Where food placement puts the next item, given the random cells it
    /// draws: the first free one among the first `MAX_ATTEMPTS` draws, else
    /// the first free cell in row-major order, else nowhere.
    pub open spec fn pick(self, draws: Seq<Cell>) -> Option<Cell> {
        match self.draw_pick(attempts(draws)) {
            Some(c) => Some(c),
            None => self.scan_pick(),
        }
    }

    /// The state after one food placement with the given draws.
    pub open spec fn place(self, draws: Seq<Cell>) -> GameView {
        match self.pick(draws) {
            Some(c) => GameView { food: self.food.push(c), ..self },
            None => self,
        }
    }

    /// Draws that food placement can make: at most `MAX_ATTEMPTS`, each in
    /// the playable area.
    pub open spec fn draws_fit(self, draws: Seq<Cell>) -> bool {
        &&& draws.len() <= MAX_ATTEMPTS
        &&& forall|i: int| 0 <= i < draws.len() ==> #[trigger] in_play(self.width, self.height, draws[i])
    }

    /// Food placements one after another until `FOOD_TARGET` items lie on
    /// the board, or a placement finds no room; `rounds[k]` holds the draws
    /// of the `k`-th placement.
    #[verifier::opaque]
    pub open spec fn refill(self, rounds: Seq<Seq<Cell>>) -> GameView
        decreases rounds.len(),
    {
        if self.food.len() >= FOOD_TARGET || rounds.len() == 0 {
            self
        } else {
            let next = self.place(rounds[0]);
            if next.food.len() == self.food.len() {
                next
            } else {
                next.refill(rounds.drop_first())
            }
        }
    }

    /// Every round of draws is one that food placement can make.
    pub open spec fn rounds_fit(self, rounds: Seq<Seq<Cell>>) -> bool {
        forall|k: int| 0 <= k < rounds.len() ==> #[trigger] self.draws_fit(rounds[k])
    }

    /// The cell the head moves to: one step in the current direction. A step
    /// below zero stays at zero; a step past the playable limit stops on it,
    /// which `hits` then classes as out of bounds.
    pub open spec fn next_head(self) -> Cell {
        let x = self.snake[0].0;
        let y = self.snake[0].1;
        match self.direction {
            Direction::Up => (x, if y == 0 { 0 } else { (y - 1) as u16 }),
            Direction::Down => (
                x,
                if y >= play_limit(self.height) { play_limit(self.height) as u16 } else { (y + 1) as u16 },
            ),
            Direction::Left => (if x == 0 { 0 } else { (x - 1) as u16 }, y),
            Direction::Right => (
                if x >= play_limit(self.width) { play_limit(self.width) as u16 } else { (x + 1) as u16 },
                y,
            ),
        }
    }

    /// Moving the head onto `c` ends the game: `c` is outside the playable
    /// area or on the snake.
    pub open spec fn hits(self, c: Cell) -> bool {
        !in_play(self.width, self.height, c) || self.snake.contains(c)
    }

    /// The head moves onto `next_head`; food there is eaten and the tail
    /// stays, otherwise the tail follows.
    pub open spec fn advance(self) -> GameView {
        let h = self.next_head();
        if self.food.contains(h) {
            GameView {
                snake: seq![h] + self.snake,
                food: self.food.remove(first_index(self.food, h)),
                ..self
            }
        } else {
            GameView { snake: (seq![h] + self.snake).drop_last(), ..self }
        }
    }

    /// One tick, with `rounds` the draws of the food placements it makes:
    /// nothing once the game is over; a collision ends the game and moves
    /// nothing; otherwise the snake advances and food is replenished.
    pub open spec fn tick(self, rounds: Seq<Seq<Cell>>) -> GameView {
        if self.game_over {
            self
        } else if self.hits(self.next_head()) {
            GameView { game_over: true, ..self }
        } else {
            self.advance().refill(rounds)
        }
    }

    /// Ticks one after another, `runs[k]` holding the draws of the `k`-th.
    pub open spec fn tick_all(self, runs: Seq<Seq<Seq<Cell>>>) -> GameView
        decreases runs.len(),
    {
        if runs.len() == 0 {
            self
        } else {
            self.tick(runs[0]).tick_all(runs.drop_first())
        }
    }

    /// A requested heading: taken unless it reverses the current one.
    pub open spec fn steer(self, d: Direction) -> GameView {
        if d == opposite_of(self.direction) {
            self
        } else {
            GameView { direction: d, ..self }
        }
    }

    /// A fresh game: one snake cell at `start`, heading right, no food yet.
    pub open spec fn initial(width: u16, height: u16, start: Cell) -> GameView {
        GameView {
            snake: seq![start],
            food: Seq::empty(),
            direction: Direction::Right,
            game_over: false,
            width,
            height,
        }
    }
}

/// A starting cell the constructor can draw: two cells clear of the border
/// at the low end and of the playable limit at the high end.
pub open spec fn start_fits(width: u16, height: u16, start: Cell) -> bool {
    &&& 2 <= start.0 < play_limit(width) - 2
    &&& 2 <= start.1 < play_limit(height) - 2
}

/// Food placed on a free cell keeps a well-formed state well-formed.
pub proof fn lemma_add_food_keeps_wf(v: GameView, c: Cell)
    requires
        v.wf(),
        v.is_free(c),
    ensures
        (GameView { food: v.food.push(c), ..v }).wf(),
{
    let w = GameView { food: v.food.push(c), ..v };
    assert forall|i: int| 0 <= i < w.food.len() implies #[trigger] in_play(w.width, w.height, w.food[i])
        && !w.snake.contains(w.food[i]) by {
        if i < v.food.len() {
            assert(w.food[i] == v.food[i]);
        }
    }
    assert forall|i: int, j: int| 0 <= i < j < w.food.len() implies w.food[i] != w.food[j] by {
        if j == v.food.len() {
            assert(v.food.contains(v.food[i]));
        }
    }
}


/// One more placement extends a run of placements: what `refill` makes of
/// `rounds` followed by anything is what it makes of the state reached.
pub proof fn lemma_refill_step(
    start: GameView,
    rounds: Seq<Seq<Cell>>,
    before: GameView,
    d: Seq<Cell>,
)
    requires
        start.rounds_fit(rounds),
        before.width == start.width,
        before.height == start.height,
        before.draws_fit(d),
        forall|rest: Seq<Seq<Cell>>| start.refill(rounds + rest) == #[trigger] before.refill(rest),
    ensures
        start.rounds_fit(rounds.push(d)),
        forall|rest: Seq<Seq<Cell>>|
            start.refill(rounds.push(d) + rest) == #[trigger] before.refill(seq![d] + rest),
{
    assert forall|rest: Seq<Seq<Cell>>|
        start.refill(rounds.push(d) + rest) == #[trigger] before.refill(seq![d] + rest) by {
        assert(rounds.push(d) + rest =~= rounds + (seq![d] + rest));
        assert(start.refill(rounds + (seq![d] + rest)) == before.refill(seq![d] + rest));
    }
    assert forall|i: int| 0 <= i < d.len() implies #[trigger] in_play(start.width, start.height, d[i]) by {
        assert(in_play(before.width, before.height, d[i]));
    }
    assert forall|k: int| 0 <= k < rounds.push(d).len() implies #[trigger] start.draws_fit(
        rounds.push(d)[k]) by {
        if k < rounds.len() {
            assert(start.draws_fit(rounds[k]));
        }
    }
}

/// A placement that adds food hands the rest of the rounds on to the state
/// it reached.
pub proof fn lemma_refill_unfold(before: GameView, d: Seq<Cell>, rest: Seq<Seq<Cell>>)
    requires
        before.food.len() < FOOD_TARGET,
        before.place(d).food.len() != before.food.len(),
    ensures
        before.refill(seq![d] + rest) == before.place(d).refill(rest),
{
    reveal(GameView::refill);
    assert((seq![d] + rest).drop_first() =~= rest);
    assert((seq![d] + rest)[0] == d);
}

/// `refill` with no rounds left, or on a state that already holds enough
/// food, changes nothing.
pub proof fn lemma_refill_none(v: GameView, rounds: Seq<Seq<Cell>>)
    requires
        rounds.len() == 0 || v.food.len() >= FOOD_TARGET,
    ensures
        v.refill(rounds) == v,
{
    reveal(GameView::refill);
}

/// A placement that adds nothing ends `refill`.
pub proof fn lemma_refill_stall(v: GameView, d: Seq<Cell>, rest: Seq<Seq<Cell>>)
    requires
        v.place(d).food.len() == v.food.len(),
    ensures
        v.refill(seq![d] + rest) == v.place(d),
{
    reveal(GameView::refill);
    assert((seq![d] + rest)[0] == d);
    if v.food.len() >= FOOD_TARGET {
        assert(v.place(d) == v) by {
            if v.pick(d) is Some {
                assert(v.place(d).food.len() == v.food.len() + 1);
            }
        }
    }
}

/// A move that does not collide keeps a well-formed state well-formed.
pub proof fn lemma_advance_keeps_wf(v: GameView)
    requires
        v.wf(),
        !v.hits(v.next_head()),
    ensures
        v.advance().wf(),
{
    let h = v.next_head();
    let a = v.advance();
    let grown = seq![h] + v.snake;
    assert forall|i: int, j: int| 0 <= i < j < grown.len() implies grown[i] != grown[j] by {
        if i == 0 {
            assert(grown[j] == v.snake[j - 1]);
        } else {
            assert(grown[i] == v.snake[i - 1] && grown[j] == v.snake[j - 1]);
        }
    }
    if v.food.contains(h) {
        let k = first_index(v.food, h);
        assert(0 <= k < v.food.len() && v.food[k] == h);
        assert forall|i: int| 0 <= i < a.food.len() implies #[trigger] in_play(a.width, a.height, a.food[i])
            && !a.snake.contains(a.food[i]) by {
            let src = if i < k { i } else { i + 1 };
            assert(a.food[i] == v.food[src]);
            assert(v.food[src] != h);
            assert(in_play(v.width, v.height, v.food[src]));
            if a.snake.contains(a.food[i]) {
                let m = choose|m: int| 0 <= m < a.snake.len() && a.snake[m] == a.food[i];
                if m > 0 {
                    assert(v.snake[m - 1] == a.food[i]);
                }
            }
        }
        assert forall|i: int, j: int| 0 <= i < j < a.food.len() implies a.food[i] != a.food[j] by {
            let si = if i < k { i } else { i + 1 };
            let sj = if j < k { j } else { j + 1 };
            assert(a.food[i] == v.food[si] && a.food[j] == v.food[sj]);
        }
    } else {
        assert forall|i: int, j: int| 0 <= i < j < a.snake.len() implies a.snake[i] != a.snake[j] by {
            assert(a.snake[i] == grown[i] && a.snake[j] == grown[j]);
        }
        assert forall|i: int| 0 <= i < a.food.len() implies #[trigger] in_play(a.width, a.height, a.food[i])
            && !a.snake.contains(a.food[i]) by {
            assert(in_play(v.width, v.height, v.food[i]));
            if a.snake.contains(a.food[i]) {
                let m = choose|m: int| 0 <= m < a.snake.len() && a.snake[m] == a.food[i];
                assert(a.snake[m] == grown[m]);
                if m > 0 {
                    assert(v.snake[m - 1] == a.food[i]);
                } else {
                    assert(v.food.contains(h));
                }
            }
        }
    }
}

/// A board of at least `MIN_SIDE` by `MIN_SIDE` has sixteen playable cells,
/// so snake and food on at most ten cells leave one free.
pub proof fn lemma_room_for_food(v: GameView)
    requires
        v.width >= MIN_SIDE,
        v.height >= MIN_SIDE,
        v.snake.len() + v.food.len() <= FOOD_TARGET,
    ensures
        !v.board_full(),
{
    let corner = set_int_range(0, 16);
    let cell_at = |k: int| (((k % 4) + 1) as u16, ((k / 4) + 1) as u16);
    let cells = corner.map(cell_at);
    lemma_int_range(0, 16);
    assert(injective_on(cell_at, corner)) by {
        assert forall|a: int, b: int|
            corner.contains(a) && corner.contains(b) && #[trigger] cell_at(a) == #[trigger] cell_at(b)
            implies a == b by {
            assert(a % 4 == b % 4 && a / 4 == b / 4);
        }
    }
    lemma_map_size(corner, cells, cell_at);
    if v.board_full() {
        let taken = v.snake + v.food;
        assert forall|c: Cell| cells.contains(c) implies taken.to_set().contains(c) by {
            let k = choose|k: int| corner.contains(k) && cell_at(k) == c;
            assert(in_play(v.width, v.height, c));
            assert(!v.is_free(c));
            if v.snake.contains(c) {
                let i = choose|i: int| 0 <= i < v.snake.len() && v.snake[i] == c;
                assert(taken[i] == c);
            } else {
                let i = choose|i: int| 0 <= i < v.food.len() && v.food[i] == c;
                assert(taken[v.snake.len() + i] == c);
            }
        }
        taken.lemma_cardinality_of_set();
        lemma_len_subset(cells, taken.to_set());
    }
}

/// Why a game cannot be built.
#[derive(Clone, Copy, Debug, PartialEq, Eq, Structural)]
pub enum BoardError {
    /// Width or height is below `MIN_SIDE`.
    TooSmall,
}

/// A running or finished game with its own seeded generator.
pub struct Game {
    snake: Vec<Cell>,
    food: Vec<Cell>,
    direction: Direction,
    game_over: bool,
    width: u16,
    height: u16,
    rng: rand::rngs::StdRng,
}

impl View for Game {
    type V = GameView;

    closed spec fn view(&self) -> GameView {
        GameView {
            snake: self.snake@,
            food: self.food@,
            direction: self.direction,
            game_over: self.game_over,
            width: self.width,
            height: self.height,
        }
    }
}

impl Game {
    /// The game's state is well-formed.
    pub open spec fn wf(&self) -> bool {
        self@.wf()
    }

    /// Whether food may go on `c`.
    pub fn is_free_cell(&self, c: Cell) -> (r: bool)
        ensures
            r == self@.is_free(c),
    {
        let max_x = limit_of(self.width);
        let max_y = limit_of(self.height);
        1 <= c.0 && c.0 < max_x && 1 <= c.1 && c.1 < max_y && !contains_cell(&self.snake, c)
            && !contains_cell(&self.food, c)
    }

    /// The first free cell in row-major order, if any.
    pub fn scan_free_cell(&self) -> (r: Option<Cell>)
        ensures
            r == self@.scan_pick(),
            r is None <==> self@.board_full(),
    {
        let max_x = limit_of(self.width);
        let max_y = limit_of(self.height);
        let mut y: u16 = 1;
        while y < max_y
            invariant
                1 <= y,
                max_x == play_limit(self.width),
                max_y == play_limit(self.height),
                forall|d: Cell| d.1 < y && #[trigger] self@.is_free(d) ==> false,
            decreases max_y - y,
        {
            let mut x: u16 = 1;
            while x < max_x
                invariant
                    1 <= x,
                    1 <= y < max_y,
                    max_x == play_limit(self.width),
                    max_y == play_limit(self.height),
                    forall|d: Cell| (d.1 < y || (d.1 == y && d.0 < x)) && #[trigger] self@.is_free(d) ==> false,
                decreases max_x - x,
            {
                if self.is_free_cell((x, y)) {
                    let c: Cell = (x, y);
                    assert(self@.first_free_at(c));
                    assert forall|c2: Cell| self@.first_free_at(c2) implies c2 == c by {
                        if scans_before(c, c2) {
                            assert(!self@.is_free(c));
                        }
                        if scans_before(c2, c) {
                            assert(!self@.is_free(c2));
                        }
                    }
                    return Some(c);
                }
                x += 1;
            }
            y += 1;
        }
        assert(!exists|c: Cell| self@.first_free_at(c));
        None
    }

    /// Where the next food item goes for the random attempts `draws`: the
    /// first free one among the first `MAX_ATTEMPTS`, else the first free cell
    /// in row-major order, else nowhere.
    pub fn pick_food_cell(&self, draws: &Vec<Cell>) -> (r: Option<Cell>)
        ensures
            r == self@.pick(draws@),
    {
        let n: usize = if draws.len() < MAX_ATTEMPTS as usize {
            draws.len()
        } else {
            MAX_ATTEMPTS as usize
        };
        let ghost tried = attempts(draws@);
        assert(tried.len() == n);
        let mut i: usize = 0;
        while i < n
            invariant
                0 <= i <= n,
                n == tried.len(),
                n <= draws@.len(),
                tried == attempts(draws@),
                forall|j: int| 0 <= j < i ==> !#[trigger] self@.is_free(tried[j]),
            decreases n - i,
        {
            assert(tried[i as int] == draws@[i as int]);
            if self.is_free_cell(draws[i]) {
                assert(self@.first_free_draw_at(tried, i as int));
                let ghost k = choose|k: int| self@.first_free_draw_at(tried, k);
                assert(self@.first_free_draw_at(tried, i as int));
                assert(k == i) by {
                    if k < i {
                        assert(!self@.is_free(tried[k]));
                    } else if k > i {
                        assert(!self@.is_free(tried[i as int]));
                    }
                }
                return Some(draws[i]);
            }
            i += 1;
        }
        assert(!exists|k: int| self@.first_free_draw_at(tried, k));
        self.scan_free_cell()
    }

    /// Puts one food item on a free cell: up to `MAX_ATTEMPTS` random
    /// playable cells, each taken if free, then the first free cell in
    /// row-major order; on a full board nothing changes.
    pub fn generate_food(&mut self)
        requires
            old(self).wf(),
        ensures
            final(self).wf(),
            exists|draws: Seq<Cell>|
                old(self)@.draws_fit(draws) && final(self)@ == old(self)@.place(draws),
            final(self)@.food.len() == old(self)@.food.len() + 1 || (old(self)@.board_full()
                && final(self)@ == old(self)@),
    {
        let max_x = limit_of(self.width);
        let max_y = limit_of(self.height);
        let ghost start = self@;
        let ghost mut drawn: Seq<Cell> = Seq::empty();
        let mut tries: u32 = 0;
        while tries < MAX_ATTEMPTS
            invariant
                self@ == start,
                start == old(self)@,
                start.wf(),
                max_x == play_limit(start.width),
                max_y == play_limit(start.height),
                tries <= MAX_ATTEMPTS,
                drawn.len() == tries,
                start.draws_fit(drawn),
                forall|j: int| 0 <= j < tries ==> !#[trigger] start.is_free(drawn[j]),
            decreases MAX_ATTEMPTS - tries,
        {
            let x = draw_in(&mut self.rng, 1, max_x);
            let y = draw_in(&mut self.rng, 1, max_y);
            let c: Cell = (x, y);
            proof {
                drawn = drawn.push(c);
                assert(start.draws_fit(drawn)) by {
                    assert forall|j: int| 0 <= j < drawn.len() implies #[trigger] in_play(start.width, start.height, drawn[j]) by {
                        if j < tries {
                            assert(in_play(start.width, start.height, drawn.drop_last()[j]));
                        }
                    }
                }
            }
            if self.is_free_cell(c) {
                proof {
                    let last = tries as int;
                    assert(attempts(drawn) == drawn);
                    assert(start.first_free_draw_at(drawn, last));
                    let k = choose|k: int| start.first_free_draw_at(drawn, k);
                    assert(k == last) by {
                        if k < last {
                            assert(!start.is_free(drawn[k]));
                        }
                    }
                    lemma_add_food_keeps_wf(start, c);
                }
                self.food.push(c);
                assert(self@ == start.place(drawn));
                assert(old(self)@.draws_fit(drawn) && self@ == old(self)@.place(drawn));
                return;
            }
            tries += 1;
        }
        assert(attempts(drawn) == drawn);
        assert(!exists|k: int| start.first_free_draw_at(drawn, k));
        match self.scan_free_cell() {
            Some(c) => {
                proof {
                    lemma_add_food_keeps_wf(start, c);
                }
                self.food.push(c);
            },
            None => {},
        }
    }

    /// Places food until `FOOD_TARGET` items lie on the board or no free cell
    /// is left.
    fn refill_food(&mut self)
        requires
            old(self).wf(),
        ensures
            final(self).wf(),
            exists|rounds: Seq<Seq<Cell>>|
                old(self)@.rounds_fit(rounds) && final(self)@ == old(self)@.refill(rounds),
            final(self)@.food.len() >= FOOD_TARGET || final(self)@.board_full(),
            final(self)@.snake == old(self)@.snake,
            final(self)@.direction == old(self)@.direction,
            final(self)@.game_over == old(self)@.game_over,
            old(self)@.food.len() <= FOOD_TARGET ==> final(self)@.food.len() <= FOOD_TARGET,
    {
        let ghost start = self@;
        let ghost mut rounds: Seq<Seq<Cell>> = Seq::empty();
        while self.food.len() < FOOD_TARGET
            invariant
                self.wf(),
                start == old(self)@,
                self@.width == start.width,
                self@.height == start.height,
                self@.snake == start.snake,
                self@.direction == start.direction,
                self@.game_over == start.game_over,
                start.food.len() <= FOOD_TARGET ==> self@.food.len() <= FOOD_TARGET,
                start.rounds_fit(rounds),
                forall|rest: Seq<Seq<Cell>>|
                    start.refill(rounds + rest) == #[trigger] self@.refill(rest),
            decreases FOOD_TARGET - self@.food.len(),
        {
            let ghost before = self@;
            let n = self.food.len();
            self.generate_food();
            let ghost d = choose|d: Seq<Cell>| before.draws_fit(d) && self@ == before.place(d);
            proof {
                lemma_refill_step(start, rounds, before, d);
                rounds = rounds.push(d);
            }
            if self.food.len() == n {
                proof {
                    lemma_refill_stall(before, d, Seq::empty());
                    assert(start.refill(rounds + Seq::empty()) == before.refill(seq![d] + Seq::empty()));
                    assert(rounds + Seq::<Seq<Cell>>::empty() =~= rounds);
                }
                return;
            }
            proof {
                assert forall|rest: Seq<Seq<Cell>>|
                    start.refill(rounds + rest) == #[trigger] self@.refill(rest) by {
                    lemma_refill_unfold(before, d, rest);
                }
            }
        }
        assert(rounds + Seq::<Seq<Cell>>::empty() =~= rounds);
        assert(start.refill(rounds + Seq::empty()) == self@.refill(Seq::empty()));
        proof {
            lemma_refill_none(self@, Seq::empty());
        }
    }
    /// A game on a `width` by `height` board whose generator is seeded with
    /// `seed`: one snake cell at a random start, heading right, and food
    /// placed up to `FOOD_TARGET` items.
    pub fn new(width: u16, height: u16, seed: u64) -> (r: Result<Game, BoardError>)
        ensures
            r is Err <==> width < MIN_SIDE || height < MIN_SIDE,
            r matches Ok(g) ==> {
                &&& g.wf()
                &&& exists|start: Cell, rounds: Seq<Seq<Cell>>|
                    start_fits(width, height, start) && GameView::initial(width, height, start).rounds_fit(
                        rounds,
                    ) && g@ == GameView::initial(width, height, start).refill(rounds)
                &&& g@.food.len() == FOOD_TARGET
            },
    {
        if width < MIN_SIDE || height < MIN_SIDE {
            return Err(BoardError::TooSmall);
        }
        let mut rng = seeded_rng(seed);
        let max_x = limit_of(width);
        let max_y = limit_of(height);
        let start_x = draw_in(&mut rng, 2, max_x - 2);
        let start_y = draw_in(&mut rng, 2, max_y - 2);
        let mut game = Game {
            snake: vec![(start_x, start_y)],
            food: Vec::new(),
            direction: Direction::Right,
            game_over: false,
            width,
            height,
            rng,
        };
        let ghost start: Cell = (start_x, start_y);
        assert(game.snake@ =~= seq![start]);
        assert(game.food@ =~= Seq::<Cell>::empty());
        assert(game@ == GameView::initial(width, height, start));
        game.refill_food();
        proof {
            if game@.food.len() < FOOD_TARGET {
                lemma_room_for_food(game@);
            }
        }
        Ok(game)
    }

    /// Advances the game by one tick: nothing once it is over; a move out of
    /// the playable area or onto the snake ends it and moves nothing;
    /// otherwise the head moves one cell, eats the food there (and the snake
    /// grows) or drags the tail along, and food is replenished.
    pub fn update(&mut self)
        requires
            old(self).wf(),
        ensures
            final(self).wf(),
            exists|rounds: Seq<Seq<Cell>>|
                old(self)@.rounds_fit(rounds) && final(self)@ == old(self)@.tick(rounds),
            old(self)@.game_over ==> *final(self) == *old(self),
            !old(self)@.game_over && old(self)@.hits(old(self)@.next_head()) ==> final(self)@ == (
            GameView { game_over: true, ..old(self)@ }),
            !old(self)@.game_over && !old(self)@.hits(old(self)@.next_head()) ==> {
                &&& final(self)@.snake == old(self)@.advance().snake
                &&& final(self)@.food.len() >= FOOD_TARGET || final(self)@.board_full()
            },
    {
        if self.game_over {
            assert(self@.tick(Seq::empty()) == self@);
            return;
        }
        let head = self.snake[0];
        let max_x = limit_of(self.width);
        let max_y = limit_of(self.height);
        let new_head: Cell = match self.direction {
            Direction::Up => (head.0, head.1.saturating_sub(1)),
            Direction::Down => (head.0, if head.1 >= max_y { max_y } else { head.1 + 1 }),
            Direction::Left => (head.0.saturating_sub(1), head.1),
            Direction::Right => (if head.0 >= max_x { max_x } else { head.0 + 1 }, head.1),
        };
        let ghost v = self@;
        assert(new_head == v.next_head());
        if new_head.0 == 0 || new_head.0 >= max_x || new_head.1 == 0 || new_head.1 >= max_y
            || contains_cell(&self.snake, new_head) {
            self.game_over = true;
            assert(self@ == v.tick(Seq::empty()));
            return;
        }
        proof {
            lemma_advance_keeps_wf(v);
        }
        self.snake.insert(0, new_head);
        match position_of(&self.food, new_head) {
            Some(i) => {
                self.food.remove(i);
            },
            None => {
                self.snake.pop();
            },
        }
        assert(self.snake@ =~= v.advance().snake);
        assert(self@ == v.advance());
        self.refill_food();
        proof {
            let a = v.advance();
            let r = choose|r: Seq<Seq<Cell>>| a.rounds_fit(r) && self@ == a.refill(r);
            assert forall|k: int| 0 <= k < r.len() implies #[trigger] v.draws_fit(r[k]) by {
                assert(a.draws_fit(r[k]));
            }
            assert(self@ == v.tick(r));
        }
    }

    /// Asks for a new heading: taken unless it reverses the current one.
    pub fn set_direction(&mut self, d: Direction)
        requires
            old(self).wf(),
        ensures
            final(self).wf(),
            final(self)@ == old(self)@.steer(d),
    {
        if d != self.direction.opposite() {
            self.direction = d;
        }
    }

    /// The snake's cells, head first.
    pub fn snake(&self) -> (r: &Vec<Cell>)
        ensures
            r@ == self@.snake,
    {
        &self.snake
    }

    /// The food cells, in the order they were placed.
    pub fn food(&self) -> (r: &Vec<Cell>)
        ensures
            r@ == self@.food,
    {
        &self.food
    }

    /// The current heading.
    pub fn direction(&self) -> (r: Direction)
        ensures
            r == self@.direction,
    {
        self.direction
    }

    /// Whether the game has ended.
    pub fn is_game_over(&self) -> (r: bool)
        ensures
            r == self@.game_over,
    {
        self.game_over
    }

    /// The board's `(width, height)`.
    pub fn frame_size(&self) -> (r: (u16, u16))
        ensures
            r == (self@.width, self@.height),
    {
        (self.width, self.height)
    }

    /// Takes all food off the board.
    pub fn clear_food(&mut self)
        requires
            old(self).wf(),
        ensures
            final(self).wf(),
            final(self)@ == (GameView { food: Seq::empty(), ..old(self)@ }),
    {
        self.food = Vec::new();
    }

    /// Replaces the snake's cells, head first.
    pub fn set_snake(&mut self, snake: Vec<Cell>)
        requires
            old(self).wf(),
            snake@.len() >= 1,
            distinct_cells(snake@),
            forall|i: int| 0 <= i < old(self)@.food.len() ==> !snake@.contains(#[trigger] old(self)@.food[i]),
        ensures
            final(self).wf(),
            final(self)@ == (GameView { snake: snake@, ..old(self)@ }),
    {
        self.snake = snake;
    }

    /// Replaces the food cells.
    pub fn set_food(&mut self, food: Vec<Cell>)
        requires
            old(self).wf(),
            distinct_cells(food@),
            forall|i: int|
                0 <= i < food@.len() ==> #[trigger] in_play(old(self)@.width, old(self)@.height, food@[i])
                    && !old(self)@.snake.contains(food@[i]),
        ensures
            final(self).wf(),
            final(self)@ == (GameView { food: food@, ..old(self)@ }),
    {
        self.food = food;
    }
}

} // verus!
