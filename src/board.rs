//! The field of stacks as a mathematical model: its zones, the rules for a
//! legal move, the effect of a move, and the board invariants.

use vstd::multiset::Multiset;
use vstd::prelude::*;

use crate::cards::{deck_of, is_full_deck, is_valid_card, opposite_colors, Card, RANKS, SUITS};

verus! {

/// Number of foundations, one per suit, at field indices `0..FOUNDATIONS`.
pub const FOUNDATIONS: usize = 4;

/// Number of free cells, at field indices `FOUNDATIONS..FOUNDATIONS + FREE_CELLS`.
pub const FREE_CELLS: usize = 4;

/// Number of tableau columns, at the end of the field.
pub const TABLEAU_SIZE: usize = 8;

/// Index of the first tableau column.
pub const TABLEAU_START: usize = FOUNDATIONS + FREE_CELLS;

/// Number of stacks in the field.
pub const FIELD_SIZE: usize = TABLEAU_START + TABLEAU_SIZE;

pub open spec fn is_foundation(i: int) -> bool {
    0 <= i < FOUNDATIONS
}

pub open spec fn is_free_cell(i: int) -> bool {
    FOUNDATIONS <= i < TABLEAU_START
}

/// The foundation reserved for a suit.
pub open spec fn foundation_of(suit: u8) -> int {
    suit - 1
}

/// All cards on the field, whatever stack they lie on.
pub open spec fn cards_of(f: Seq<Seq<Card>>) -> Multiset<Card>
    decreases f.len(),
{
    if f.len() == 0 {
        Multiset::empty()
    } else {
        cards_of(f.drop_last()).add(f.last().to_multiset())
    }
}

/// Foundation `i` holds the cards of suit `i + 1` from the Ace up, without gaps.
pub open spec fn foundation_ok(s: Seq<Card>, i: int) -> bool {
    forall|j: int| 0 <= j < s.len() ==> (#[trigger] s[j]).rank == j + 1 && s[j].suit == i + 1
}

/// The board invariant: sixteen stacks holding the standard deck once over,
/// foundations built up by suit from the Ace, free cells of at most one card.
pub open spec fn board_wf(f: Seq<Seq<Card>>) -> bool {
    &&& f.len() == FIELD_SIZE
    &&& is_full_deck(cards_of(f))
    &&& forall|i: int| is_foundation(i) ==> foundation_ok(#[trigger] f[i], i)
    &&& forall|i: int| is_free_cell(i) ==> (#[trigger] f[i]).len() <= 1
}

/// Moving the top card of `from` onto `to` obeys the rules.
pub open spec fn move_legal(f: Seq<Seq<Card>>, from: int, to: int) -> bool {
    &&& 0 <= from < f.len()
    &&& 0 <= to < f.len()
    &&& to < FIELD_SIZE
    &&& from != to
    &&& f[from].len() > 0
    &&& {
        let c = f[from].last();
        if is_foundation(to) {
            if f[to].len() > 0 {
                c.rank == f[to].last().rank + 1 && c.suit == f[to].last().suit
            } else {
                c.rank == 1 && foundation_of(c.suit) == to
            }
        } else if is_free_cell(to) {
            f[to].len() == 0
        } else {
            f[to].len() == 0 || (c.rank + 1 == f[to].last().rank && opposite_colors(
                c,
                f[to].last(),
            ))
        }
    }
}

/// The field after the top card of `from` is taken off and put on `to`;
/// unchanged when `from` is empty.
pub open spec fn apply_move(f: Seq<Seq<Card>>, from: int, to: int) -> Seq<Seq<Card>> {
    if f[from].len() == 0 {
        f
    } else {
        let g = f.update(from, f[from].drop_last());
        g.update(to, g[to].push(f[from].last()))
    }
}

/// Number of cards on the foundations.
pub open spec fn foundation_total(f: Seq<Seq<Card>>) -> int {
    (f[0].len() + f[1].len() + f[2].len() + f[3].len()) as int
}

/// Every foundation holds its whole suit.
pub open spec fn all_foundations_full(f: Seq<Seq<Card>>) -> bool {
    forall|i: int| is_foundation(i) ==> (#[trigger] f[i]).len() == RANKS
}

pub(crate) proof fn lemma_cards_of_update(f: Seq<Seq<Card>>, i: int, s: Seq<Card>)
    requires
        0 <= i < f.len(),
    ensures
        forall|x: Card| #[trigger]
            cards_of(f.update(i, s)).count(x) + f[i].to_multiset().count(x) == cards_of(f).count(x)
                + s.to_multiset().count(x),
    decreases f.len(),
{
    let g = f.update(i, s);
    assert(cards_of(g) == cards_of(g.drop_last()).add(g.last().to_multiset()));
    assert(cards_of(f) == cards_of(f.drop_last()).add(f.last().to_multiset()));
    if i == f.len() - 1 {
        assert(g.drop_last() =~= f.drop_last());
    } else {
        assert(g.drop_last() =~= f.drop_last().update(i, s));
        assert(g.last() == f.last());
        lemma_cards_of_update(f.drop_last(), i, s);
    }
}

proof fn lemma_cards_of_contains(f: Seq<Seq<Card>>, i: int, x: Card)
    requires
        0 <= i < f.len(),
    ensures
        f[i].to_multiset().count(x) <= cards_of(f).count(x),
    decreases f.len(),
{
    if i < f.len() - 1 {
        lemma_cards_of_contains(f.drop_last(), i, x);
    }
}

/// Every card on a well-formed field is a card of the standard deck.
pub proof fn lemma_cards_valid(f: Seq<Seq<Card>>, i: int, j: int)
    requires
        board_wf(f),
        0 <= i < f.len(),
        0 <= j < f[i].len(),
    ensures
        is_valid_card(f[i][j]),
{
    broadcast use vstd::seq_lib::group_to_multiset_ensures;

    assert(f[i].contains(f[i][j]));
    lemma_cards_of_contains(f, i, f[i][j]);
}

/// A move relocates a card: the cards on the field stay the same.
pub proof fn lemma_move_keeps_cards(f: Seq<Seq<Card>>, from: int, to: int)
    requires
        0 <= from < f.len(),
        0 <= to < f.len(),
    ensures
        cards_of(apply_move(f, from, to)) == cards_of(f),
{
    broadcast use vstd::seq_lib::group_to_multiset_ensures;

    if f[from].len() > 0 {
        let c = f[from].last();
        let rest = f[from].drop_last();
        assert(f[from] =~= rest.push(c));
        let g = f.update(from, rest);
        lemma_cards_of_update(f, from, rest);
        let h = g.update(to, g[to].push(c));
        lemma_cards_of_update(g, to, g[to].push(c));
        assert(cards_of(h) =~= cards_of(f));
    }
}

/// A legal move keeps the board invariant.
pub proof fn lemma_legal_move_keeps_wf(f: Seq<Seq<Card>>, from: int, to: int)
    requires
        board_wf(f),
        move_legal(f, from, to),
    ensures
        board_wf(apply_move(f, from, to)),
{
    lemma_move_keeps_cards(f, from, to);
    let h = apply_move(f, from, to);
    assert forall|i: int| is_foundation(i) implies foundation_ok(#[trigger] h[i], i) by {
        if i == to {
            let c = f[from].last();
            lemma_cards_valid(f, from, f[from].len() - 1);
            if f[to].len() > 0 {
                assert(foundation_ok(f[to], to));
                assert(f[to].last() == f[to][f[to].len() - 1]);
            }
        } else {
            assert(foundation_ok(f[i], i));
            if i == from {
                assert(h[i] =~= f[i].drop_last());
            }
        }
    }
    assert forall|i: int| is_free_cell(i) implies (#[trigger] h[i]).len() <= 1 by {
        assert(f[i].len() <= 1);
    }
}

/// Moving a card back from where it went restores the field.
pub proof fn lemma_move_back_restores(f: Seq<Seq<Card>>, from: int, to: int)
    requires
        0 <= from < f.len(),
        0 <= to < f.len(),
        from != to,
        f[from].len() > 0,
    ensures
        apply_move(apply_move(f, from, to), to, from) == f,
{
    let h = apply_move(f, from, to);
    assert(h[to].len() > 0);
    assert(h[to].drop_last() =~= f[to]);
    assert(f[from].drop_last().push(f[from].last()) =~= f[from]);
    assert(apply_move(h, to, from) =~= f);
}

/// A well-formed field is never empty: some stack holds a card.
pub proof fn lemma_some_stack_nonempty(f: Seq<Seq<Card>>)
    requires
        board_wf(f),
    ensures
        exists|i: int| 0 <= i < FIELD_SIZE && (#[trigger] f[i]).len() > 0,
{
    let ace = Card { rank: 1, suit: 1 };
    if forall|i: int| 0 <= i < FIELD_SIZE ==> (#[trigger] f[i]).len() == 0 {
        lemma_cards_of_all_empty(f);
        assert(cards_of(f).count(ace) == 1);
    }
}

pub(crate) proof fn lemma_cards_of_all_empty(f: Seq<Seq<Card>>)
    requires
        forall|i: int| 0 <= i < f.len() ==> (#[trigger] f[i]).len() == 0,
    ensures
        cards_of(f) =~= Multiset::empty(),
    decreases f.len(),
{
    broadcast use vstd::seq_lib::group_to_multiset_ensures;

    if f.len() > 0 {
        lemma_cards_of_all_empty(f.drop_last());
        assert(f.last().len() == 0);
        assert(f.last().to_multiset().len() == 0);
    }
}

/// A card on a foundation can never go to another foundation.
pub proof fn lemma_no_foundation_to_foundation(f: Seq<Seq<Card>>, s: int, t: int)
    requires
        board_wf(f),
        is_foundation(s),
        is_foundation(t),
    ensures
        !move_legal(f, s, t),
{
    if f[s].len() > 0 {
        assert(foundation_ok(f[s], s));
        assert(f[s].last() == f[s][f[s].len() - 1]);
        if f[t].len() > 0 {
            assert(foundation_ok(f[t], t));
            assert(f[t].last() == f[t][f[t].len() - 1]);
        }
    }
}

/// A foundation never holds more than a suit.
pub proof fn lemma_foundation_bounded(f: Seq<Seq<Card>>, i: int)
    requires
        board_wf(f),
        is_foundation(i),
    ensures
        f[i].len() <= RANKS,
{
    if f[i].len() > 0 {
        let k = f[i].len() - 1;
        assert(foundation_ok(f[i], i));
        assert(f[i][k].rank == k + 1);
        lemma_cards_valid(f, i, k);
    }
}

} // verus!
