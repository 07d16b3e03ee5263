//! Playing cards and the standard deck.

use vstd::multiset::Multiset;
use vstd::prelude::*;

verus! {

/// Number of ranks in a suit: Ace (1) to King (13).
pub const RANKS: u8 = 13;

/// Number of suits in the deck.
pub const SUITS: u8 = 4;

/// Number of cards in the deck.
pub const DECK_SIZE: usize = 52;

pub const HEARTS: u8 = 1;
pub const CLUBS: u8 = 2;
pub const DIAMONDS: u8 = 3;
pub const SPADES: u8 = 4;

/// A playing card. Rank runs from 1 (Ace) to 13 (King); suit is one of
/// `HEARTS`, `CLUBS`, `DIAMONDS`, `SPADES`. A card of rank 0 stands for
/// "no card".
#[derive(Clone, Copy, Debug, PartialEq, Eq, Structural)]
pub struct Card {
    pub rank: u8,
    pub suit: u8,
}

impl Default for Card {
    /// The "no card" placeholder: rank 0, suit 0.
    fn default() -> (c: Card)
        ensures
            c == (Card { rank: 0, suit: 0 }),
    {
        Card { rank: 0, suit: 0 }
    }
}

/// A card of the standard deck.
pub open spec fn is_valid_card(c: Card) -> bool {
    1 <= c.rank <= RANKS && 1 <= c.suit <= SUITS
}

pub open spec fn is_red(suit: u8) -> bool {
    suit == HEARTS || suit == DIAMONDS
}

pub open spec fn is_black(suit: u8) -> bool {
    suit == CLUBS || suit == SPADES
}

/// One card red and the other black.
pub open spec fn opposite_colors(a: Card, b: Card) -> bool {
    (is_red(a.suit) && is_black(b.suit)) || (is_black(a.suit) && is_red(b.suit))
}

/// The deck of `ranks * suits` cards in generation order: card `i` has
/// rank `i % ranks + 1` and suit `i / ranks + 1`.
pub open spec fn deck_of(ranks: nat, suits: nat) -> Seq<Card> {
    Seq::new(ranks * suits, |i: int| Card { rank: (i % ranks as int + 1) as u8, suit: (i / ranks as int + 1) as u8 })
}

/// Exactly one of each card of the standard deck, and nothing else.
pub open spec fn is_full_deck(m: Multiset<Card>) -> bool {
    forall|c: Card| #[trigger] m.count(c) == if is_valid_card(c) { 1nat } else { 0nat }
}

/// The position of a valid card in the standard deck's generation order.
pub open spec fn deck_position(c: Card) -> int {
    (c.suit - 1) * RANKS + (c.rank - 1)
}

/// Creates the deck of `ranks * suits` cards, ranks `1..=ranks` within
/// each suit `1..=suits`, suit by suit.
pub fn new_standard_deck(ranks: u8, suits: u8) -> (deck: Vec<Card>)
    requires
        ranks * suits <= u8::MAX,
    ensures
        deck@ == deck_of(ranks as nat, suits as nat),
{
    let n: u8 = ranks * suits;
    let mut deck: Vec<Card> = Vec::with_capacity(n as usize);
    let mut i: u8 = 0;
    while i < n
        invariant
            n == ranks * suits,
            i <= n,
            deck@ == deck_of(ranks as nat, suits as nat).take(i as int),
        decreases n - i,
    {
        assert(ranks >= 1) by (nonlinear_arith)
            requires
                i < n,
                n == ranks * suits,
        ;
        assert(i / ranks <= i) by (nonlinear_arith)
            requires
                ranks >= 1,
        ;
        deck.push(Card { rank: i % ranks + 1, suit: i / ranks + 1 });
        i = i + 1;
        assert(deck@ =~= deck_of(ranks as nat, suits as nat).take(i as int));
    }
    assert(deck@ =~= deck_of(ranks as nat, suits as nat));
    deck
}

/// The first `n` cards of the standard deck hold each valid card whose
/// position is below `n` once, and nothing else.
proof fn lemma_standard_prefix(n: int)
    requires
        0 <= n <= DECK_SIZE,
    ensures
        forall|c: Card| #[trigger]
            deck_of(RANKS as nat, SUITS as nat).take(n).to_multiset().count(c) == if is_valid_card(c)
                && deck_position(c) < n {
                1nat
            } else {
                0nat
            },
    decreases n,
{
    let d = deck_of(RANKS as nat, SUITS as nat);
    broadcast use vstd::seq_lib::group_to_multiset_ensures;

    if n == 0 {
        assert(d.take(0) =~= Seq::<Card>::empty());
    } else {
        lemma_standard_prefix(n - 1);
        let k = n - 1;
        assert(d.take(n) =~= d.take(k).push(d[k]));
        vstd::arithmetic::div_mod::lemma_fundamental_div_mod(k, 13);
        let top = d[k];
        assert(is_valid_card(top));
        assert(deck_position(top) == k);
        assert forall|c: Card| #[trigger]
            d.take(n).to_multiset().count(c) == if is_valid_card(c) && deck_position(c) < n {
                1nat
            } else {
                0nat
            } by {
            if c == top {
            } else if is_valid_card(c) {
                assert(deck_position(c) != k);
            }
        }
    }
}

/// The standard 13-by-4 deck holds each card exactly once.
pub proof fn lemma_standard_deck_is_full()
    ensures
        is_full_deck(deck_of(RANKS as nat, SUITS as nat).to_multiset()),
{
    lemma_standard_prefix(DECK_SIZE as int);
    assert(deck_of(RANKS as nat, SUITS as nat).take(DECK_SIZE as int) =~= deck_of(
        RANKS as nat,
        SUITS as nat,
    ));
}

} // verus!
