use vstd::prelude::*;
use crate::board::{Cell, MIN_SIDE, distinct_cells, in_play};
use crate::direction::{Direction, opposite_of};
use crate::game::{GameView, lemma_add_food_keeps_wf, lemma_advance_keeps_wf, start_fits};

verus! {

impl GameView {
    /// Heading requests in order, then one tick with the draws `rounds`.
    pub open spec fn turn(self, requests: Seq<Direction>, rounds: Seq<Seq<Cell>>) -> GameView {
        self.steer_all(requests).tick(rounds)
    }

    /// Heading requests one after another.
    pub open spec fn steer_all(self, requests: Seq<Direction>) -> GameView
        decreases requests.len(),
    {
        if requests.len() == 0 {
            self
        } else {
            self.steer(requests[0]).steer_all(requests.drop_first())
        }
    }

    /// Turns one after another: the heading requests made between two ticks,
    /// and the draws of that tick.
    pub open spec fn play(self, turns: Seq<(Seq<Direction>, Seq<Seq<Cell>>)>) -> GameView
        decreases turns.len(),
    {
        if turns.len() == 0 {
            self
        } else {
            self.turn(turns[0].0, turns[0].1).play(turns.drop_first())
        }
    }
}

/// The state a game reaches from a fresh board of `width` by `height` with
/// the snake at `start`, the draws `first` of the initial food, and `turns`.
pub open spec fn reached(
    width: u16,
    height: u16,
    start: Cell,
    first: Seq<Seq<Cell>>,
    turns: Seq<(Seq<Direction>, Seq<Seq<Cell>>)>,
) -> GameView {
    GameView::initial(width, height, start).refill(first).play(turns)
}

/// A placement keeps a well-formed state well-formed.
pub proof fn lemma_place_keeps_wf(v: GameView, d: Seq<Cell>)
    requires
        v.wf(),
    ensures
        v.place(d).wf(),
        v.place(d).snake == v.snake,
        v.place(d).direction == v.direction,
        v.place(d).game_over == v.game_over,
        v.place(d).width == v.width,
        v.place(d).height == v.height,
{
    let tried = crate::game::attempts(d);
    if exists|i: int| v.first_free_draw_at(tried, i) {
        let i = choose|i: int| v.first_free_draw_at(tried, i);
        lemma_add_food_keeps_wf(v, tried[i]);
    } else if exists|c: Cell| v.first_free_at(c) {
        let c = choose|c: Cell| v.first_free_at(c);
        lemma_add_food_keeps_wf(v, c);
    }
}

/// Replenishing food keeps a well-formed state well-formed and leaves all
/// but the food as it was.
pub proof fn lemma_refill_keeps_wf(v: GameView, rounds: Seq<Seq<Cell>>)
    requires
        v.wf(),
    ensures
        v.refill(rounds).wf(),
        v.refill(rounds).snake == v.snake,
        v.refill(rounds).direction == v.direction,
        v.refill(rounds).game_over == v.game_over,
        v.refill(rounds).width == v.width,
        v.refill(rounds).height == v.height,
    decreases rounds.len(),
{
    reveal(GameView::refill);
    if v.food.len() < crate::game::FOOD_TARGET && rounds.len() > 0 {
        lemma_place_keeps_wf(v, rounds[0]);
        let next = v.place(rounds[0]);
        if next.food.len() != v.food.len() {
            lemma_refill_keeps_wf(next, rounds.drop_first());
        }
    }
}

/// A tick keeps a well-formed state well-formed.
pub proof fn lemma_tick_keeps_wf(v: GameView, rounds: Seq<Seq<Cell>>)
    requires
        v.wf(),
    ensures
        v.tick(rounds).wf(),
{
    if !v.game_over && !v.hits(v.next_head()) {
        lemma_advance_keeps_wf(v);
        lemma_refill_keeps_wf(v.advance(), rounds);
    }
}

/// Turns keep a well-formed state well-formed.
pub proof fn lemma_play_keeps_wf(v: GameView, turns: Seq<(Seq<Direction>, Seq<Seq<Cell>>)>)
    requires
        v.wf(),
    ensures
        v.play(turns).wf(),
    decreases turns.len(),
{
    if turns.len() > 0 {
        lemma_steer_all_keeps_wf(v, turns[0].0);
        lemma_tick_keeps_wf(v.steer_all(turns[0].0), turns[0].1);
        lemma_play_keeps_wf(v.turn(turns[0].0, turns[0].1), turns.drop_first());
    }
}

/// Heading requests keep a well-formed state well-formed.
pub proof fn lemma_steer_all_keeps_wf(v: GameView, requests: Seq<Direction>)
    requires
        v.wf(),
    ensures
        v.steer_all(requests).wf(),
    decreases requests.len(),
{
    if requests.len() > 0 {
        lemma_steer_all_keeps_wf(v.steer(requests[0]), requests.drop_first());
    }
}

/// Every reachable state is well-formed.
pub proof fn lemma_reached_wf(
    width: u16,
    height: u16,
    start: Cell,
    first: Seq<Seq<Cell>>,
    turns: Seq<(Seq<Direction>, Seq<Seq<Cell>>)>,
)
    requires
        width >= MIN_SIDE,
        height >= MIN_SIDE,
        start_fits(width, height, start),
    ensures
        reached(width, height, start, first, turns).wf(),
{
    let v = GameView::initial(width, height, start);
    assert(v.snake.len() == 1);
    lemma_refill_keeps_wf(v, first);
    lemma_play_keeps_wf(v.refill(first), turns);
}

/// In every reachable state the snake covers no cell twice.
pub proof fn law_snake_cells_distinct(
    width: u16,
    height: u16,
    start: Cell,
    first: Seq<Seq<Cell>>,
    turns: Seq<(Seq<Direction>, Seq<Seq<Cell>>)>,
)
    requires
        width >= MIN_SIDE,
        height >= MIN_SIDE,
        start_fits(width, height, start),
    ensures
        distinct_cells(reached(width, height, start, first, turns).snake),
{
    lemma_reached_wf(width, height, start, first, turns);
}

/// In every reachable state each food item lies in the playable area, off
/// the snake, and on a cell of its own.
pub proof fn law_food_on_free_cells(
    width: u16,
    height: u16,
    start: Cell,
    first: Seq<Seq<Cell>>,
    turns: Seq<(Seq<Direction>, Seq<Seq<Cell>>)>,
)
    requires
        width >= MIN_SIDE,
        height >= MIN_SIDE,
        start_fits(width, height, start),
    ensures
        ({
            let v = reached(width, height, start, first, turns);
            &&& distinct_cells(v.food)
            &&& forall|i: int|
                0 <= i < v.food.len() ==> #[trigger] in_play(width, height, v.food[i])
                    && !v.snake.contains(v.food[i])
        }),
{
    lemma_reached_wf(width, height, start, first, turns);
    let v = reached(width, height, start, first, turns);
    assert(v.width == width && v.height == height) by {
        lemma_reached_frame(width, height, start, first, turns);
    }
}

/// The board size never changes.
pub proof fn lemma_reached_frame(
    width: u16,
    height: u16,
    start: Cell,
    first: Seq<Seq<Cell>>,
    turns: Seq<(Seq<Direction>, Seq<Seq<Cell>>)>,
)
    requires
        width >= MIN_SIDE,
        height >= MIN_SIDE,
        start_fits(width, height, start),
    ensures
        reached(width, height, start, first, turns).width == width,
        reached(width, height, start, first, turns).height == height,
{
    let v = GameView::initial(width, height, start);
    lemma_refill_keeps_wf(v, first);
    lemma_play_keeps_frame(v.refill(first), turns);
}

/// Turns leave the board size as it is.
pub proof fn lemma_play_keeps_frame(v: GameView, turns: Seq<(Seq<Direction>, Seq<Seq<Cell>>)>)
    requires
        v.wf(),
    ensures
        v.play(turns).width == v.width,
        v.play(turns).height == v.height,
    decreases turns.len(),
{
    if turns.len() > 0 {
        let s = v.steer_all(turns[0].0);
        lemma_steer_all_keeps_frame(v, turns[0].0);
        lemma_steer_all_keeps_wf(v, turns[0].0);
        if !s.game_over && !s.hits(s.next_head()) {
            lemma_advance_keeps_wf(s);
            lemma_refill_keeps_wf(s.advance(), turns[0].1);
        }
        lemma_tick_keeps_wf(s, turns[0].1);
        lemma_play_keeps_frame(v.turn(turns[0].0, turns[0].1), turns.drop_first());
    }
}

/// Heading requests leave all but the heading as it is.
pub proof fn lemma_steer_all_keeps_frame(v: GameView, requests: Seq<Direction>)
    ensures
        v.steer_all(requests).width == v.width,
        v.steer_all(requests).height == v.height,
    decreases requests.len(),
{
    if requests.len() > 0 {
        lemma_steer_all_keeps_frame(v.steer(requests[0]), requests.drop_first());
    }
}

/// A tick that eats food makes the snake one cell longer; any other tick of
/// a running game keeps its length; a collision leaves the snake in place.
pub proof fn law_growth(v: GameView, rounds: Seq<Seq<Cell>>)
    requires
        v.wf(),
        !v.game_over,
    ensures
        ({
            let t = v.tick(rounds);
            &&& t.game_over ==> t.snake == v.snake
            &&& !t.game_over ==> t.snake.len() == v.snake.len() + if v.food.contains(v.next_head()) {
                1int
            } else {
                0int
            }
        }),
{
    if !v.hits(v.next_head()) {
        lemma_advance_keeps_wf(v);
        lemma_refill_keeps_wf(v.advance(), rounds);
    }
}

/// A request for the heading opposite to the current one changes nothing.
pub proof fn law_reversal_ignored(v: GameView, d: Direction)
    requires
        d == opposite_of(v.direction),
    ensures
        v.steer(d) == v,
{
}

/// Once the game is over, any number of ticks leave it as it is.
pub proof fn law_game_over_is_final(v: GameView, runs: Seq<Seq<Seq<Cell>>>)
    requires
        v.game_over,
    ensures
        v.tick_all(runs) == v,
    decreases runs.len(),
{
    if runs.len() > 0 {
        law_game_over_is_final(v.tick(runs[0]), runs.drop_first());
    }
}

/// Two games built on the same board, with the same starting cell and the
/// same draws, and then given the same turns, are in the same state: the
/// same snake, the same food in the same order of placement, and the same
/// heading and outcome.
pub proof fn law_same_draws_same_game(
    width: u16,
    height: u16,
    start: Cell,
    first: Seq<Seq<Cell>>,
    turns: Seq<(Seq<Direction>, Seq<Seq<Cell>>)>,
    a: GameView,
    b: GameView,
)
    requires
        a == GameView::initial(width, height, start).refill(first),
        b == GameView::initial(width, height, start).refill(first),
    ensures
        a.play(turns) == b.play(turns),
        a.play(turns) == reached(width, height, start, first, turns),
{
}

} // verus!
