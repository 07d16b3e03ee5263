//! The game engine: the field, the cursor and selection, the move counter
//! and the undo log, with every player-facing operation.

use circular_buffer::CircularBuffer;
use rand::rngs::ThreadRng;
use rand::seq::SliceRandom;
use vstd::arithmetic::div_mod::{
    lemma_add_mod_noop, lemma_mod_add_multiples_vanish, lemma_mod_sub_multiples_vanish,
    lemma_small_mod,
};
use vstd::math::min;
use vstd::prelude::*;

use crate::board::{
    all_foundations_full, apply_move, board_wf, cards_of, foundation_ok, foundation_total,
    is_foundation, lemma_foundation_bounded, lemma_legal_move_keeps_wf, lemma_move_back_restores,
    lemma_no_foundation_to_foundation, move_legal, FIELD_SIZE, FOUNDATIONS, TABLEAU_SIZE,
    TABLEAU_START,
};
use crate::cards::{
    is_full_deck, lemma_standard_deck_is_full, new_standard_deck, opposite_colors, Card, CLUBS,
    DECK_SIZE, DIAMONDS, HEARTS, RANKS, SPADES, SUITS,
};
use crate::history::{log_move, log_push, logged_moves, new_log, take_last_move, Move, UNDO_LEVELS};

verus! {

/// What a game is, as a mathematical value.
pub ghost struct GameView {
    /// The stacks of the field: foundations, free cells, then tableau columns.
    pub stacks: Seq<Seq<Card>>,
    /// The field index under the cursor.
    pub highlighted: int,
    /// The field index whose top card the player has picked up, if any.
    pub selected: Option<int>,
    /// Moves made and not undone.
    pub move_count: int,
    /// The undo log, oldest move first.
    pub history: Seq<Move>,
    /// Display preference; no rule depends on it.
    pub high_contrast: bool,
}

/// The stacks dealt from `deck`: card `i` goes to tableau column `i % 8`,
/// each column keeping the order of the deck.
pub open spec fn dealt(deck: Seq<Card>) -> Seq<Seq<Card>>
    decreases deck.len(),
{
    if deck.len() == 0 {
        Seq::new(FIELD_SIZE as nat, |i: int| Seq::<Card>::empty())
    } else {
        let f = dealt(deck.drop_last());
        let col = TABLEAU_START + (deck.len() - 1) % (TABLEAU_SIZE as int);
        f.update(col, f[col].push(deck.last()))
    }
}

/// The game after the player tries to move the top card of `from` onto `to`:
/// when the move is legal, the card moves, the selection is cleared, the
/// move is counted (the counter stops at its maximum) and logged; otherwise
/// nothing changes.
pub open spec fn after_move(v: GameView, from: int, to: int) -> GameView {
    if move_legal(v.stacks, from, to) {
        GameView {
            stacks: apply_move(v.stacks, from, to),
            selected: None,
            move_count: if v.move_count < u32::MAX { v.move_count + 1 } else { v.move_count },
            history: log_push(v.history, Move { from: from as u8, to: to as u8 }),
            ..v
        }
    } else {
        v
    }
}

/// The game after an undo: the last logged move is played backwards, legal
/// or not, uncounted and dropped from the log, and the selection
/// is cleared; nothing changes when the log is empty.
pub open spec fn after_undo(v: GameView) -> GameView {
    if v.history.len() == 0 {
        v
    } else {
        let m = v.history.last();
        GameView {
            stacks: apply_move(v.stacks, m.to as int, m.from as int),
            selected: None,
            move_count: v.move_count - 1,
            history: v.history.drop_last(),
            ..v
        }
    }
}

/// A game state is consistent with its undo log when each logged move was
/// legal on the board it was made on and led to the next board.
pub open spec fn log_consistent(
    stacks: Seq<Seq<Card>>,
    history: Seq<Move>,
    past: Seq<Seq<Seq<Card>>>,
) -> bool {
    &&& past.len() == history.len()
    &&& forall|k: int|
        0 <= k < past.len() ==> {
            &&& board_wf(#[trigger] past[k])
            &&& move_legal(past[k], history[k].from as int, history[k].to as int)
            &&& apply_move(past[k], history[k].from as int, history[k].to as int) == (if k + 1
                < past.len() {
                past[k + 1]
            } else {
                stacks
            })
        }
}

/// The field index `k` steps from `h`, to the right or to the left,
/// wrapping around the field.
pub open spec fn cursor_step(h: int, k: int, right: bool) -> int {
    if right {
        (h + k) % (FIELD_SIZE as int)
    } else {
        (h - k) % (FIELD_SIZE as int)
    }
}

/// Where the cursor may rest: on a non-empty stack while nothing is
/// selected; on a legal destination for the selected card, or on the
/// selected stack itself, while a card is selected.
pub open spec fn cursor_target(v: GameView, i: int) -> bool {
    match v.selected {
        Some(s) => move_legal(v.stacks, s, i) || i == s,
        None => v.stacks[i].len() > 0,
    }
}

/// `h` is the first place the cursor may rest, stepping from the current
/// one in the given direction.
pub open spec fn next_cursor(v: GameView, h: int, right: bool) -> bool {
    exists|k: int|
        1 <= k <= FIELD_SIZE && h == #[trigger] cursor_step(v.highlighted, k, right) && cursor_target(
            v,
            h,
        ) && forall|j: int|
            1 <= j < k ==> !cursor_target(v, #[trigger] cursor_step(v.highlighted, j, right))
}

/// The game after the player presses on the highlighted card: it is picked
/// up when nothing is selected, put back when it is the selected one, and
/// otherwise the selected card is tried on it.
pub open spec fn after_press(v: GameView) -> GameView {
    match v.selected {
        None => GameView { selected: Some(v.highlighted), ..v },
        Some(s) => if s == v.highlighted {
            GameView { selected: None, ..v }
        } else {
            after_move(v, s, v.highlighted)
        },
    }
}

/// The pair `(s1, t1)` comes before `(s2, t2)` in the quick-stack scan,
/// sources outer and foundations inner.
pub open spec fn scanned_before(s1: int, t1: int, s2: int, t2: int) -> bool {
    s1 < s2 || (s1 == s2 && t1 < t2)
}

/// No card on the field can go to a foundation.
pub open spec fn no_foundation_move(f: Seq<Seq<Card>>) -> bool {
    forall|s: int, t: int| 0 <= s < FIELD_SIZE && 0 <= t < FOUNDATIONS ==> !#[trigger] move_legal(f, s, t)
}

/// `(s, t)` is the first pair in scan order whose move onto a foundation is
/// legal.
pub open spec fn first_foundation_move(f: Seq<Seq<Card>>, s: int, t: int) -> bool {
    &&& 0 <= s < FIELD_SIZE
    &&& 0 <= t < FOUNDATIONS
    &&& move_legal(f, s, t)
    &&& forall|s1: int, t1: int|
        0 <= s1 && 0 <= t1 < FOUNDATIONS && scanned_before(s1, t1, s, t) ==> !#[trigger] move_legal(
            f,
            s1,
            t1,
        )
}

/// The game after the player's moves `moves`, in order.
pub open spec fn after_moves(v: GameView, moves: Seq<(int, int)>) -> GameView
    decreases moves.len(),
{
    if moves.len() == 0 {
        v
    } else {
        after_move(after_moves(v, moves.drop_last()), moves.last().0, moves.last().1)
    }
}

/// Each of `moves` is, on the game it is made on, the first foundation
/// move in scan order.
pub open spec fn greedy_foundation_moves(v: GameView, moves: Seq<(int, int)>) -> bool
    decreases moves.len(),
{
    moves.len() == 0 || (greedy_foundation_moves(v, moves.drop_last()) && first_foundation_move(
        after_moves(v, moves.drop_last()).stacks,
        moves.last().0,
        moves.last().1,
    ))
}

/// A game of FreeCell.
pub struct Game {
    field: Vec<Vec<Card>>,
    highlighted_card: usize,
    selected_card_opt: Option<usize>,
    undo_history: CircularBuffer<UNDO_LEVELS, Move>,
    move_count: u32,
    high_contrast: bool,
    /// The board before each logged move.
    past: Ghost<Seq<Seq<Seq<Card>>>>,
}

impl View for Game {
    type V = GameView;

    closed spec fn view(&self) -> GameView {
        GameView {
            stacks: Seq::new(self.field@.len(), |i: int| self.field@[i]@),
            highlighted: self.highlighted_card as int,
            selected: match self.selected_card_opt {
                Some(s) => Some(s as int),
                None => None,
            },
            move_count: self.move_count as int,
            history: logged_moves(self.undo_history),
            high_contrast: self.high_contrast,
        }
    }
}

impl Game {
    /// The game invariant: the board is well formed (see `board_wf`), the
    /// cursor and selection are field indices, and the undo log can be
    /// replayed backwards to earlier well-formed boards.
    pub closed spec fn wf(&self) -> bool {
        &&& self.field@.len() == FIELD_SIZE
        &&& board_wf(self@.stacks)
        &&& self.highlighted_card < FIELD_SIZE
        &&& (self.selected_card_opt matches Some(s) ==> s < FIELD_SIZE)
        &&& self@.history.len() <= UNDO_LEVELS
        &&& self@.history.len() <= self.move_count
        &&& log_consistent(self@.stacks, self@.history, self.past@)
    }

    /// Deals `deck` round-robin onto the tableau, starting a game with the
    /// cursor on the first tableau column, nothing selected, no moves made.
    pub fn from_deck(deck: Vec<Card>) -> (g: Game)
        requires
            is_full_deck(deck@.to_multiset()),
        ensures
            g.wf(),
            g@ == (GameView {
                stacks: dealt(deck@),
                highlighted: TABLEAU_START as int,
                selected: None,
                move_count: 0,
                history: Seq::empty(),
                high_contrast: false,
            }),
    {
        let mut field: Vec<Vec<Card>> = Vec::new();
        let mut k: usize = 0;
        while k < FIELD_SIZE
            invariant
                k <= FIELD_SIZE,
                field@.len() == k,
                forall|i: int| 0 <= i < k ==> (#[trigger] field@[i])@ == Seq::<Card>::empty(),
            decreases FIELD_SIZE - k,
        {
            field.push(Vec::new());
            k = k + 1;
        }
        assert(Seq::new(field@.len(), |i: int| field@[i]@) =~= dealt(deck@.take(0)));
        let mut i: usize = 0;
        while i < deck.len()
            invariant
                i <= deck@.len(),
                field@.len() == FIELD_SIZE,
                Seq::new(field@.len(), |j: int| field@[j]@) == dealt(deck@.take(i as int)),
            decreases deck@.len() - i,
        {
            let col = TABLEAU_START + i % TABLEAU_SIZE;
            field[col].push(deck[i]);
            i = i + 1;
            assert(deck@.take(i as int).drop_last() =~= deck@.take(i - 1));
            assert(Seq::new(field@.len(), |j: int| field@[j]@) =~= dealt(deck@.take(i as int)));
        }
        assert(deck@.take(deck@.len() as int) =~= deck@);
        let g = Game {
            field,
            highlighted_card: TABLEAU_START,
            selected_card_opt: None,
            undo_history: new_log(),
            move_count: 0,
            high_contrast: false,
            past: Ghost(Seq::empty()),
        };
        proof {
            lemma_dealt_facts(deck@);
        }
        g
    }

    /// Starts a game from a freshly shuffled standard deck.
    pub fn new(rng: &mut ThreadRng) -> (g: Game)
        ensures
            g.wf(),
            exists|deck: Seq<Card>|
                is_full_deck(deck.to_multiset()) && g@ == (GameView {
                    stacks: #[trigger] dealt(deck),
                    highlighted: TABLEAU_START as int,
                    selected: None,
                    move_count: 0,
                    history: Seq::empty(),
                    high_contrast: false,
                }),
    {
        let mut deck = new_standard_deck(RANKS, SUITS);
        shuffle_deck(&mut deck, rng);
        proof {
            lemma_standard_deck_is_full();
        }
        Game::from_deck(deck)
    }

    /// All four foundations hold their whole suit.
    pub fn is_won(&self) -> (r: bool)
        requires
            self.wf(),
        ensures
            r == all_foundations_full(self@.stacks),
    {
        let mut i: usize = 0;
        while i < FOUNDATIONS
            invariant
                self.wf(),
                i <= FOUNDATIONS,
                forall|j: int| 0 <= j < i ==> (#[trigger] self@.stacks[j]).len() == RANKS,
            decreases FOUNDATIONS - i,
        {
            if self.field[i].len() != RANKS as usize {
                assert(self@.stacks[i as int].len() != RANKS);
                return false;
            }
            i = i + 1;
        }
        true
    }

    /// Switches the display between normal and high-contrast colours.
    pub fn toggle_high_contrast(&mut self)
        requires
            old(self).wf(),
        ensures
            final(self).wf(),
            final(self)@ == (GameView { high_contrast: !old(self)@.high_contrast, ..old(self)@ }),
    {
        self.high_contrast = !self.high_contrast;
    }

    /// The field index under the cursor.
    pub fn highlighted_card(&self) -> (r: usize)
        ensures
            r == self@.highlighted,
    {
        self.highlighted_card
    }

    /// The field index of the selected card, if any.
    pub fn selected_card(&self) -> (r: Option<usize>)
        ensures
            r matches Some(s) ==> self@.selected == Some(s as int),
            r is None ==> self@.selected is None,
    {
        self.selected_card_opt
    }

    /// Moves made and not undone.
    pub fn move_count(&self) -> (r: u32)
        ensures
            r == self@.move_count,
    {
        self.move_count
    }

    /// Whether the display is in high-contrast mode.
    pub fn high_contrast(&self) -> (r: bool)
        ensures
            r == self@.high_contrast,
    {
        self.high_contrast
    }

    /// The stack at field index `i`, bottom card first.
    pub fn stack(&self, i: usize) -> (r: &Vec<Card>)
        requires
            self.wf(),
            i < FIELD_SIZE,
        ensures
            r@ == self@.stacks[i as int],
    {
        &self.field[i]
    }

    fn are_opposite_colors(card1: Card, card2: Card) -> (r: bool)
        ensures
            r == opposite_colors(card1, card2),
    {
        if card1.suit == HEARTS || card1.suit == DIAMONDS {
            return card2.suit == SPADES || card2.suit == CLUBS;
        }
        if card1.suit == SPADES || card1.suit == CLUBS {
            return card2.suit == HEARTS || card2.suit == DIAMONDS;
        }
        false
    }

    /// Whether moving the top card of `from` onto `to` is legal; false for
    /// indices outside the field.
    pub fn move_is_valid(&self, from: usize, to: usize) -> (r: bool)
        requires
            self.wf(),
        ensures
            r == move_legal(self@.stacks, from as int, to as int),
    {
        if from >= FIELD_SIZE || to >= FIELD_SIZE || from == to {
            return false;
        }
        let from_stack = &self.field[from];
        let to_stack = &self.field[to];
        if from_stack.len() == 0 {
            return false;
        }
        let card = from_stack[from_stack.len() - 1];
        if to < FOUNDATIONS {
            if to_stack.len() > 0 {
                let top = to_stack[to_stack.len() - 1];
                card.rank as u16 == top.rank as u16 + 1 && card.suit == top.suit
            } else {
                card.rank == 1 && to as u16 + 1 == card.suit as u16
            }
        } else if to < TABLEAU_START {
            to_stack.len() == 0
        } else {
            if to_stack.len() > 0 {
                let top = to_stack[to_stack.len() - 1];
                card.rank as u16 + 1 == top.rank as u16 && Game::are_opposite_colors(card, top)
            } else {
                true
            }
        }
    }

    /// Moves the top card of `from` onto `to`, if there is one, and clears
    /// the selection.
    fn execute_move(&mut self, from: usize, to: usize)
        requires
            old(self).field@.len() == FIELD_SIZE,
            from < FIELD_SIZE,
            to < FIELD_SIZE,
        ensures
            final(self).field@.len() == FIELD_SIZE,
            final(self)@ == (GameView {
                stacks: apply_move(old(self)@.stacks, from as int, to as int),
                selected: None,
                ..old(self)@
            }),
            final(self).highlighted_card == old(self).highlighted_card,
            final(self).move_count == old(self).move_count,
            final(self).undo_history == old(self).undo_history,
            final(self).past == old(self).past,
    {
        let n = self.field[from].len();
        if n > 0 {
            let card = self.field[from][n - 1];
            self.field[from].pop();
            self.field[to].push(card);
        }
        self.selected_card_opt = None;
        assert(self@.stacks =~= apply_move(old(self)@.stacks, from as int, to as int));
    }

    /// Makes the move from `from` to `to` when it is legal, counting and
    /// logging it; does nothing otherwise.
    pub fn player_try_execute_move(&mut self, from: usize, to: usize)
        requires
            old(self).wf(),
        ensures
            final(self).wf(),
            final(self)@ == after_move(old(self)@, from as int, to as int),
    {
        if self.move_is_valid(from, to) {
            let ghost before = self@.stacks;
            let ghost past = self.past@;
            let ghost log = self@.history;
            self.execute_move(from, to);
            if self.move_count < u32::MAX {
                self.move_count = self.move_count + 1;
            }
            let m = Move { from: from as u8, to: to as u8 };
            log_move(&mut self.undo_history, m);
            self.past = Ghost(
                if log.len() >= UNDO_LEVELS {
                    past.drop_first().push(before)
                } else {
                    past.push(before)
                },
            );
            proof {
                lemma_legal_move_keeps_wf(before, from as int, to as int);
                let h = self@.history;
                let p = self.past@;
                assert forall|k: int| 0 <= k < p.len() implies {
                    &&& board_wf(#[trigger] p[k])
                    &&& move_legal(p[k], h[k].from as int, h[k].to as int)
                    &&& apply_move(p[k], h[k].from as int, h[k].to as int) == (if k + 1
                        < p.len() {
                        p[k + 1]
                    } else {
                        self@.stacks
                    })
                } by {
                    if log.len() >= UNDO_LEVELS {
                        if k + 1 < p.len() {
                            assert(p[k] == past[k + 1]);
                            assert(h[k] == log[k + 1]);
                        }
                    } else {
                        if k + 1 < p.len() {
                            assert(p[k] == past[k]);
                            assert(h[k] == log[k]);
                        }
                    }
                }
            }
        }
    }

    /// Takes back the most recent logged move, playing it backwards with no
    /// legality test; does nothing when the log is empty.
    pub fn perform_undo(&mut self)
        requires
            old(self).wf(),
        ensures
            final(self).wf(),
            final(self)@ == after_undo(old(self)@),
    {
        let ghost past = self.past@;
        let ghost log = self@.history;
        let last_move_opt = take_last_move(&mut self.undo_history);
        match last_move_opt {
            Some(last_move) => {
                let ghost k = past.len() - 1;
                proof {
                    lemma_move_back_restores(past[k], last_move.from as int, last_move.to as int);
                }
                self.execute_move(last_move.to as usize, last_move.from as usize);
                self.move_count = self.move_count - 1;
                self.past = Ghost(past.drop_last());
                proof {
                    let p = self.past@;
                    assert forall|j: int| 0 <= j < p.len() implies {
                        &&& board_wf(#[trigger] p[j])
                        &&& move_legal(p[j], log[j].from as int, log[j].to as int)
                        &&& apply_move(p[j], log[j].from as int, log[j].to as int) == (if j + 1
                            < p.len() {
                            p[j + 1]
                        } else {
                            self@.stacks
                        })
                    } by {
                        assert(p[j] == past[j]);
                    }
                }
            },
            None => {},
        }
    }

    fn is_cursor_target(&self, i: usize) -> (r: bool)
        requires
            self.wf(),
            i < FIELD_SIZE,
        ensures
            r == cursor_target(self@, i as int),
    {
        match self.selected_card_opt {
            Some(selected_card) => self.move_is_valid(selected_card, i) || selected_card == i,
            None => self.field[i].len() > 0,
        }
    }

    /// Steps the cursor in one direction until it rests on a place where it
    /// may rest; the selected stack, or some non-empty stack, is always met
    /// within one round of the field.
    fn move_cursor(&mut self, right: bool)
        requires
            old(self).wf(),
        ensures
            final(self).wf(),
            final(self)@ == (GameView { highlighted: final(self)@.highlighted, ..old(self)@ }),
            next_cursor(old(self)@, final(self)@.highlighted, right),
    {
        let ghost v = self@;
        let start = self.highlighted_card;
        let ghost t: int = match v.selected {
            Some(s) => s,
            None => choose|i: int| 0 <= i < FIELD_SIZE && (#[trigger] v.stacks[i]).len() > 0,
        };
        proof {
            if v.selected is None {
                crate::board::lemma_some_stack_nonempty(v.stacks);
            }
        }
        let ghost k0 = lemma_step_reaches(start as int, t, right);
        assert(cursor_target(v, t));
        let mut k: usize = 1;
        proof {
            lemma_step_advance(start as int, 0, right);
        }
        let mut h: usize = if right {
            (start + 1) % FIELD_SIZE
        } else {
            (start + FIELD_SIZE - 1) % FIELD_SIZE
        };
        while !self.is_cursor_target(h)
            invariant
                self.wf(),
                self@ == v,
                v.highlighted == start,
                start < FIELD_SIZE,
                1 <= k <= k0,
                k0 <= FIELD_SIZE,
                h < FIELD_SIZE,
                h == cursor_step(start as int, k as int, right),
                cursor_target(v, cursor_step(start as int, k0, right)),
                forall|j: int| 1 <= j < k ==> !cursor_target(v, #[trigger] cursor_step(start as int, j, right)),
            decreases FIELD_SIZE - k,
        {
            proof {
                lemma_step_advance(start as int, k as int, right);
            }
            h = if right {
                (h + 1) % FIELD_SIZE
            } else {
                (h + FIELD_SIZE - 1) % FIELD_SIZE
            };
            k = k + 1;
        }
        self.highlighted_card = h;
        assert(self@ =~= GameView { highlighted: h as int, ..v });
    }

    /// Moves the cursor left to the next place where it may rest.
    pub fn move_cursor_left(&mut self)
        requires
            old(self).wf(),
        ensures
            final(self).wf(),
            final(self)@ == (GameView { highlighted: final(self)@.highlighted, ..old(self)@ }),
            next_cursor(old(self)@, final(self)@.highlighted, false),
    {
        self.move_cursor(false);
    }

    /// Moves the cursor right to the next place where it may rest.
    pub fn move_cursor_right(&mut self)
        requires
            old(self).wf(),
        ensures
            final(self).wf(),
            final(self)@ == (GameView { highlighted: final(self)@.highlighted, ..old(self)@ }),
            next_cursor(old(self)@, final(self)@.highlighted, true),
    {
        self.move_cursor(true);
    }

    /// The first pair (source, foundation) in scan order whose move is
    /// legal, sources outer and foundations inner; `None` when there is none.
    fn find_foundation_move(&self) -> (r: Option<(usize, usize)>)
        requires
            self.wf(),
        ensures
            r matches None ==> no_foundation_move(self@.stacks),
            r matches Some((s, t)) ==> first_foundation_move(self@.stacks, s as int, t as int),
    {
        let mut source_column: usize = 0;
        while source_column < FIELD_SIZE
            invariant
                self.wf(),
                source_column <= FIELD_SIZE,
                forall|s1: int, t1: int|
                    0 <= s1 < source_column && 0 <= t1 < FOUNDATIONS ==> !#[trigger] move_legal(
                        self@.stacks,
                        s1,
                        t1,
                    ),
            decreases FIELD_SIZE - source_column,
        {
            let mut target_column: usize = 0;
            while target_column < FOUNDATIONS
                invariant
                    self.wf(),
                    source_column < FIELD_SIZE,
                    target_column <= FOUNDATIONS,
                    forall|s1: int, t1: int|
                        0 <= s1 < source_column && 0 <= t1 < FOUNDATIONS ==> !#[trigger] move_legal(
                            self@.stacks,
                            s1,
                            t1,
                        ),
                    forall|t1: int|
                        0 <= t1 < target_column ==> !#[trigger] move_legal(
                            self@.stacks,
                            source_column as int,
                            t1,
                        ),
                decreases FOUNDATIONS - target_column,
            {
                if self.move_is_valid(source_column, target_column) {
                    return Some((source_column, target_column));
                }
                target_column = target_column + 1;
            }
            source_column = source_column + 1;
        }
        None
    }

    /// Moves cards to the foundations, each time the first legal move in
    /// scan order, until no card can go there. Every card it moves goes to a
    /// foundation, so it makes at most one move per card of the deck; each
    /// move is counted, logged and clears the selection like a player's move.
    pub fn quick_stack_to_foundations(&mut self)
        requires
            old(self).wf(),
        ensures
            final(self).wf(),
            exists|moves: Seq<(int, int)>|
                #[trigger] greedy_foundation_moves(old(self)@, moves) && final(self)@ == after_moves(
                    old(self)@,
                    moves,
                ) && moves.len() <= DECK_SIZE,
            no_foundation_move(final(self)@.stacks),
            forall|i: int|
                is_foundation(i) ==> (#[trigger] old(self)@.stacks[i]).is_prefix_of(
                    final(self)@.stacks[i],
                ),
            forall|i: int|
                FOUNDATIONS <= i < FIELD_SIZE ==> (#[trigger] final(self)@.stacks[i]).is_prefix_of(
                    old(self)@.stacks[i],
                ),
            foundation_total(old(self)@.stacks) <= foundation_total(final(self)@.stacks) <= DECK_SIZE,
            final(self)@.move_count == min(
                old(self)@.move_count + foundation_total(final(self)@.stacks) - foundation_total(
                    old(self)@.stacks,
                ),
                u32::MAX as int,
            ),
            final(self)@.selected == if foundation_total(final(self)@.stacks) == foundation_total(
                old(self)@.stacks,
            ) {
                old(self)@.selected
            } else {
                None
            },
            final(self)@.highlighted == old(self)@.highlighted,
            final(self)@.high_contrast == old(self)@.high_contrast,
    {
        let ghost v = self@;
        let ghost mut moves: Seq<(int, int)> = Seq::empty();
        proof {
            lemma_foundations_total_bounded(v.stacks);
        }
        loop
            invariant
                self.wf(),
                greedy_foundation_moves(v, moves),
                self@ == after_moves(v, moves),
                moves.len() == foundation_total(self@.stacks) - foundation_total(v.stacks),
                forall|i: int|
                    is_foundation(i) ==> (#[trigger] v.stacks[i]).is_prefix_of(self@.stacks[i]),
                forall|i: int|
                    FOUNDATIONS <= i < FIELD_SIZE ==> (#[trigger] self@.stacks[i]).is_prefix_of(
                        v.stacks[i],
                    ),
                foundation_total(v.stacks) <= foundation_total(self@.stacks) <= DECK_SIZE,
                self@.move_count == min(
                    v.move_count + foundation_total(self@.stacks) - foundation_total(v.stacks),
                    u32::MAX as int,
                ),
                self@.selected == if foundation_total(self@.stacks) == foundation_total(v.stacks) {
                    v.selected
                } else {
                    None
                },
                self@.highlighted == v.highlighted,
                self@.high_contrast == v.high_contrast,
                v.move_count <= u32::MAX,
            ensures
                self.wf(),
                greedy_foundation_moves(v, moves),
                self@ == after_moves(v, moves),
                moves.len() == foundation_total(self@.stacks) - foundation_total(v.stacks),
                no_foundation_move(self@.stacks),
                forall|i: int|
                    is_foundation(i) ==> (#[trigger] v.stacks[i]).is_prefix_of(self@.stacks[i]),
                forall|i: int|
                    FOUNDATIONS <= i < FIELD_SIZE ==> (#[trigger] self@.stacks[i]).is_prefix_of(
                        v.stacks[i],
                    ),
                foundation_total(v.stacks) <= foundation_total(self@.stacks) <= DECK_SIZE,
                self@.move_count == min(
                    v.move_count + foundation_total(self@.stacks) - foundation_total(v.stacks),
                    u32::MAX as int,
                ),
                self@.selected == if foundation_total(self@.stacks) == foundation_total(v.stacks) {
                    v.selected
                } else {
                    None
                },
                self@.highlighted == v.highlighted,
                self@.high_contrast == v.high_contrast,
            decreases DECK_SIZE - foundation_total(self@.stacks),
        {
            match self.find_foundation_move() {
                Some((source_column, target_column)) => {
                    let ghost before = self@.stacks;
                    proof {
                        if source_column < FOUNDATIONS {
                            lemma_no_foundation_to_foundation(
                                before,
                                source_column as int,
                                target_column as int,
                            );
                        }
                    }
                    self.player_try_execute_move(source_column, target_column);
                    proof {
                        let prev = moves;
                        moves = moves.push((source_column as int, target_column as int));
                        assert(moves.drop_last() =~= prev);
                        let now = self@.stacks;
                        lemma_foundations_total_bounded(now);
                        assert forall|i: int| is_foundation(i) implies (
                        #[trigger] v.stacks[i]).is_prefix_of(now[i]) by {
                            assert(v.stacks[i].is_prefix_of(before[i]));
                            if i == target_column {
                                assert(now[i] =~= before[i].push(before[source_column as int].last()));
                                assert(before[i].is_prefix_of(now[i]));
                            }
                        }
                        assert forall|i: int| FOUNDATIONS <= i < FIELD_SIZE implies (
                        #[trigger] now[i]).is_prefix_of(v.stacks[i]) by {
                            assert(before[i].is_prefix_of(v.stacks[i]));
                            if i == source_column {
                                assert(now[i] =~= before[i].drop_last());
                                assert(now[i].is_prefix_of(before[i]));
                            }
                        }
                    }
                },
                None => {
                    break ;
                },
            }
        }
    }

    /// Selects the highlighted card, deselects it, or tries to move the
    /// selected card onto it.
    pub fn handle_card_press(&mut self)
        requires
            old(self).wf(),
        ensures
            final(self).wf(),
            final(self)@ == after_press(old(self)@),
    {
        match self.selected_card_opt {
            None => {
                self.selected_card_opt = Some(self.highlighted_card);
                assert(self@ =~= after_press(old(self)@));
            },
            Some(selected_card) => {
                if selected_card == self.highlighted_card {
                    self.selected_card_opt = None;
                    assert(self@ =~= after_press(old(self)@));
                } else {
                    let to = self.highlighted_card;
                    self.player_try_execute_move(selected_card, to);
                }
            },
        }
    }
}

#[verifier::external_type_specification]
#[verifier::external_body]
pub struct ExThreadRng(ThreadRng);

/// Relies on rand's `SliceRandom::shuffle`: it only swaps items of the
/// slice, so the deck keeps its cards, in some order.
#[verifier::external_body]
fn shuffle_deck(deck: &mut Vec<Card>, rng: &mut ThreadRng)
    ensures
        final(deck)@.to_multiset() == old(deck)@.to_multiset(),
{
    deck.shuffle(rng);
}

/// On every reachable game, the field holds each card of the standard deck
/// exactly once and nothing else.
pub proof fn lemma_each_card_once(g: &Game)
    requires
        g.wf(),
    ensures
        is_full_deck(cards_of(g@.stacks)),
{
}

/// On every reachable game, foundation `i` is empty or holds the cards of
/// suit `i + 1` from the Ace up without gaps.
pub proof fn lemma_foundations_ascending(g: &Game)
    requires
        g.wf(),
    ensures
        forall|i: int| is_foundation(i) ==> foundation_ok(#[trigger] g@.stacks[i], i),
{
}

/// A legal move followed at once by an undo gives back the board, the
/// cursor, the selection and the move count, when nothing was selected
/// before and the move counter had not reached its maximum.
pub proof fn lemma_move_then_undo(v: GameView, from: int, to: int)
    requires
        board_wf(v.stacks),
        move_legal(v.stacks, from, to),
        v.selected is None,
        v.move_count < u32::MAX,
    ensures
        after_undo(after_move(v, from, to)).stacks == v.stacks,
        after_undo(after_move(v, from, to)).highlighted == v.highlighted,
        after_undo(after_move(v, from, to)).selected == v.selected,
        after_undo(after_move(v, from, to)).move_count == v.move_count,
{
    lemma_move_back_restores(v.stacks, from, to);
}

/// A freshly dealt game is not won.
pub proof fn lemma_dealt_not_won(deck: Seq<Card>)
    ensures
        !all_foundations_full(dealt(deck)),
{
    lemma_dealt_facts(deck);
    assert(dealt(deck)[0].len() == 0);
}

/// The foundations hold at most the whole deck.
proof fn lemma_foundations_total_bounded(f: Seq<Seq<Card>>)
    requires
        board_wf(f),
    ensures
        foundation_total(f) <= DECK_SIZE,
{
    lemma_foundation_bounded(f, 0);
    lemma_foundation_bounded(f, 1);
    lemma_foundation_bounded(f, 2);
    lemma_foundation_bounded(f, 3);
}

/// One more step moves the cursor by one place, wrapping around.
proof fn lemma_step_advance(start: int, k: int, right: bool)
    requires
        0 <= start < FIELD_SIZE,
    ensures
        0 <= cursor_step(start, k, right) < FIELD_SIZE,
        cursor_step(start, k + 1, right) == if right {
            (cursor_step(start, k, right) + 1) % (FIELD_SIZE as int)
        } else {
            (cursor_step(start, k, right) + FIELD_SIZE - 1) % (FIELD_SIZE as int)
        },
{
    let m = FIELD_SIZE as int;
    assert(m == 16);
    if right {
        lemma_add_mod_noop(start + k, 1, m);
    } else {
        lemma_add_mod_noop(start - k, m - 1, m);
        lemma_mod_add_multiples_vanish(start - k - 1, m);
    }
}

/// Every field index is reached within one round from any start.
proof fn lemma_step_reaches(start: int, t: int, right: bool) -> (k: int)
    requires
        0 <= start < FIELD_SIZE,
        0 <= t < FIELD_SIZE,
    ensures
        1 <= k <= FIELD_SIZE,
        cursor_step(start, k, right) == t,
{
    let m = FIELD_SIZE as int;
    if right {
        let k = if t > start { t - start } else { t - start + m };
        lemma_mod_add_multiples_vanish(t, m);
        lemma_small_mod(t as nat, m as nat);
        k
    } else {
        let k = if start > t { start - t } else { start - t + m };
        lemma_mod_sub_multiples_vanish(t, m);
        lemma_small_mod(t as nat, m as nat);
        k
    }
}

/// Dealing keeps the cards of the deck and leaves foundations and free
/// cells empty.
proof fn lemma_dealt_facts(deck: Seq<Card>)
    ensures
        dealt(deck).len() == FIELD_SIZE,
        cards_of(dealt(deck)) == deck.to_multiset(),
        forall|i: int| 0 <= i < TABLEAU_START ==> (#[trigger] dealt(deck)[i]).len() == 0,
    decreases deck.len(),
{
    broadcast use vstd::seq_lib::group_to_multiset_ensures;

    if deck.len() == 0 {
        crate::board::lemma_cards_of_all_empty(dealt(deck));
    } else {
        lemma_dealt_facts(deck.drop_last());
        let f = dealt(deck.drop_last());
        let col = TABLEAU_START + (deck.len() - 1) % (TABLEAU_SIZE as int);
        crate::board::lemma_cards_of_update(f, col, f[col].push(deck.last()));
        assert(deck.drop_last().push(deck.last()) =~= deck);
        assert(cards_of(dealt(deck)) =~= deck.to_multiset());
    }
}

} // verus!
