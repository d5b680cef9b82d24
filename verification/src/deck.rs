//! Cards and the deck: suits, the rank order peculiar to Sueca, point
//! values, the canonical 40-card deck, shuffling and hand dealing.

use rand::seq::SliceRandom;
use vstd::prelude::*;

verus! {

/// One of the four suits. No suit outranks another by itself; only the
/// trump and led suit of a trick matter.
#[derive(Clone, Copy, Debug, PartialEq, Eq, Structural)]
pub enum Suit {
    Club,
    Heart,
    Diamond,
    Spade,
}

/// The ten card symbols, declared in ascending rank order:
/// 2 < 3 < 4 < 5 < 6 < Queen < Knight < King < 7 < Ace.
#[derive(Clone, Copy, Debug, PartialEq, Eq, PartialOrd, Ord, Structural)]
pub enum Symbol {
    Two,
    Three,
    Four,
    Five,
    Six,
    Queen,
    Knight,
    King,
    Seven,
    Ace,
}

/// A playing card: a suit paired with a symbol. Equality is structural;
/// the full deck holds each of the 40 combinations exactly once.
#[derive(Clone, Copy, Debug, PartialEq, Eq, Structural)]
pub struct Card {
    pub suit: Suit,
    pub symbol: Symbol,
}

/// Position of a symbol in the rank order: 0 for the weakest (Two) up to
/// 9 for the strongest (Ace).
pub open spec fn rank_value(s: Symbol) -> int {
    match s {
        Symbol::Two => 0,
        Symbol::Three => 1,
        Symbol::Four => 2,
        Symbol::Five => 3,
        Symbol::Six => 4,
        Symbol::Queen => 5,
        Symbol::Knight => 6,
        Symbol::King => 7,
        Symbol::Seven => 8,
        Symbol::Ace => 9,
    }
}

/// Point value of a symbol: Ace 11, Seven 10, King 4, Knight 3, Queen 2,
/// number cards below Seven 0. Each suit is worth 30, the deck 120.
pub open spec fn symbol_points(s: Symbol) -> int {
    match s {
        Symbol::Queen => 2,
        Symbol::Knight => 3,
        Symbol::King => 4,
        Symbol::Seven => 10,
        Symbol::Ace => 11,
        _ => 0,
    }
}

/// Point value of a card; only the symbol matters.
pub open spec fn points_of(c: Card) -> int {
    symbol_points(c.symbol)
}

impl Symbol {
    /// The rank position as a machine integer, for comparing two symbols.
    pub fn rank_index(&self) -> (r: u8)
        ensures
            r as int == rank_value(*self),
    {
        match self {
            Symbol::Two => 0,
            Symbol::Three => 1,
            Symbol::Four => 2,
            Symbol::Five => 3,
            Symbol::Six => 4,
            Symbol::Queen => 5,
            Symbol::Knight => 6,
            Symbol::King => 7,
            Symbol::Seven => 8,
            Symbol::Ace => 9,
        }
    }
}

impl Card {
    /// The point value this card contributes to a trick.
    pub fn points(&self) -> (r: u32)
        ensures
            r as int == points_of(*self),
    {
        match self.symbol {
            Symbol::Queen => 2,
            Symbol::Knight => 3,
            Symbol::King => 4,
            Symbol::Seven => 10,
            Symbol::Ace => 11,
            _ => 0,
        }
    }
}

/// The suit at a position of the canonical deck order (one suit per run
/// of ten cards).
pub open spec fn suit_at(i: int) -> Suit {
    if i == 0 {
        Suit::Club
    } else if i == 1 {
        Suit::Heart
    } else if i == 2 {
        Suit::Diamond
    } else {
        Suit::Spade
    }
}

/// The symbol at a position within a suit's run, in ascending rank order.
pub open spec fn symbol_at(j: int) -> Symbol {
    if j == 0 {
        Symbol::Two
    } else if j == 1 {
        Symbol::Three
    } else if j == 2 {
        Symbol::Four
    } else if j == 3 {
        Symbol::Five
    } else if j == 4 {
        Symbol::Six
    } else if j == 5 {
        Symbol::Queen
    } else if j == 6 {
        Symbol::Knight
    } else if j == 7 {
        Symbol::King
    } else if j == 8 {
        Symbol::Seven
    } else {
        Symbol::Ace
    }
}

/// Position of a suit in the canonical deck order.
pub open spec fn suit_index(s: Suit) -> int {
    match s {
        Suit::Club => 0,
        Suit::Heart => 1,
        Suit::Diamond => 2,
        Suit::Spade => 3,
    }
}

/// Position of a symbol within a suit's run.
pub open spec fn symbol_index(s: Symbol) -> int {
    rank_value(s)
}

/// The ten cards of one suit, in ascending rank order.
pub open spec fn suit_run(s: Suit) -> Seq<Card> {
    Seq::new(10, |j: int| Card { suit: s, symbol: symbol_at(j) })
}

/// The canonical 40-card deck: the four suit runs in suit order.
pub open spec fn full_deck() -> Seq<Card> {
    suit_run(Suit::Club) + suit_run(Suit::Heart) + suit_run(Suit::Diamond) + suit_run(Suit::Spade)
}

/// Total point value of a sequence of cards.
pub open spec fn points_sum(cards: Seq<Card>) -> int
    decreases cards.len(),
{
    if cards.len() == 0 {
        0
    } else {
        points_sum(cards.drop_last()) + points_of(cards.last())
    }
}

/// Point values are never negative, so neither is any sum of them.
pub proof fn lemma_points_sum_nonneg(cards: Seq<Card>)
    ensures
        0 <= points_sum(cards),
    decreases cards.len(),
{
    if cards.len() > 0 {
        lemma_points_sum_nonneg(cards.drop_last());
    }
}

/// Point totals add over concatenation.
pub proof fn lemma_points_sum_concat(a: Seq<Card>, b: Seq<Card>)
    ensures
        points_sum(a + b) == points_sum(a) + points_sum(b),
    decreases b.len(),
{
    if b.len() == 0 {
        assert(a + b =~= a);
    } else {
        lemma_points_sum_concat(a, b.drop_last());
        assert((a + b).drop_last() =~= a + b.drop_last());
        assert((a + b).last() == b.last());
    }
}

/// Removing one card lowers the total by exactly that card's points.
pub proof fn lemma_points_sum_remove(s: Seq<Card>, i: int)
    requires
        0 <= i < s.len(),
    ensures
        points_sum(s.remove(i)) == points_sum(s) - points_of(s[i]),
{
    let a = s.subrange(0, i);
    let m = s.subrange(i, i + 1);
    let b = s.subrange(i + 1, s.len() as int);
    assert(s =~= (a + m) + b);
    assert(s.remove(i) =~= a + b);
    lemma_points_sum_concat(a + m, b);
    lemma_points_sum_concat(a, m);
    lemma_points_sum_concat(a, b);
    assert(points_sum(m) == points_of(s[i])) by {
        reveal_with_fuel(points_sum, 2);
        assert(m.len() == 1);
        assert(m.drop_last() =~= Seq::<Card>::empty());
        assert(m.last() == s[i]);
    }
}

/// The point total of a sequence depends only on which cards it holds,
/// not on their order.
pub proof fn lemma_points_sum_permutation(a: Seq<Card>, b: Seq<Card>)
    requires
        a.to_multiset() == b.to_multiset(),
    ensures
        points_sum(a) == points_sum(b),
    decreases a.len(),
{
    broadcast use vstd::seq_lib::group_to_multiset_ensures;

    if a.len() == 0 {
        assert(a.to_multiset().len() == 0);
        assert(b.to_multiset().len() == 0);
        assert(b.len() == 0);
    } else {
        let last = a.len() - 1;
        let x = a.last();
        assert(a.contains(x)) by {
            assert(a[last] == x);
        }
        assert(a.to_multiset().count(x) > 0);
        assert(b.to_multiset().count(x) > 0);
        assert(b.contains(x));
        let j = choose|j: int| 0 <= j < b.len() && b[j] == x;
        assert(a.drop_last() =~= a.remove(last));
        assert(a.remove(last).to_multiset() == a.to_multiset().remove(x));
        assert(b.remove(j).to_multiset() == b.to_multiset().remove(x));
        lemma_points_sum_permutation(a.drop_last(), b.remove(j));
        lemma_points_sum_remove(b, j);
    }
}

/// Taking one card out of a collection, in whatever order it is kept,
/// lowers its point total by exactly that card's points.
pub proof fn lemma_points_sum_remove_elem(after: Seq<Card>, before: Seq<Card>, c: Card)
    requires
        before.contains(c),
        after.to_multiset() == before.to_multiset().remove(c),
    ensures
        points_sum(after) == points_sum(before) - points_of(c),
{
    broadcast use vstd::seq_lib::group_to_multiset_ensures;

    let j = choose|j: int| 0 <= j < before.len() && before[j] == c;
    assert(before.remove(j).to_multiset() == before.to_multiset().remove(c));
    lemma_points_sum_permutation(after, before.remove(j));
    lemma_points_sum_remove(before, j);
}

/// Point total of the first `n` cards of a suit's run.
pub open spec fn run_prefix_points(n: int) -> int {
    if n <= 5 {
        0
    } else if n == 6 {
        2
    } else if n == 7 {
        5
    } else if n == 8 {
        9
    } else if n == 9 {
        19
    } else {
        30
    }
}

proof fn lemma_suit_run_prefix_points(s: Suit, n: int)
    requires
        0 <= n <= 10,
    ensures
        points_sum(suit_run(s).take(n)) == run_prefix_points(n),
    decreases n,
{
    if n == 0 {
        assert(suit_run(s).take(0) =~= Seq::<Card>::empty());
    } else {
        lemma_suit_run_prefix_points(s, n - 1);
        let q = suit_run(s).take(n);
        assert(q.drop_last() =~= suit_run(s).take(n - 1));
        assert(q.last() == suit_run(s)[n - 1]);
    }
}

/// Each suit's run is worth 30 points.
pub proof fn lemma_suit_run_points(s: Suit)
    ensures
        points_sum(suit_run(s)) == 30,
{
    lemma_suit_run_prefix_points(s, 10);
    assert(suit_run(s).take(10) =~= suit_run(s));
}

/// Point conservation, deck side: the whole 40-card deck is worth exactly
/// 120 points.
pub proof fn lemma_full_deck_points()
    ensures
        points_sum(full_deck()) == 120,
{
    let c = suit_run(Suit::Club);
    let h = suit_run(Suit::Heart);
    let d = suit_run(Suit::Diamond);
    let s = suit_run(Suit::Spade);
    lemma_points_sum_concat(c + h + d, s);
    lemma_points_sum_concat(c + h, d);
    lemma_points_sum_concat(c, h);
    lemma_suit_run_points(Suit::Club);
    lemma_suit_run_points(Suit::Heart);
    lemma_suit_run_points(Suit::Diamond);
    lemma_suit_run_points(Suit::Spade);
}

/// The card at each position of the canonical deck.
pub proof fn lemma_full_deck_index(i: int)
    requires
        0 <= i < 40,
    ensures
        full_deck()[i] == (Card { suit: suit_at(i / 10), symbol: symbol_at(i % 10) }),
{
    if i < 10 {
        assert(full_deck()[i] == suit_run(Suit::Club)[i]);
        assert(i / 10 == 0 && i % 10 == i);
    } else if i < 20 {
        assert(full_deck()[i] == suit_run(Suit::Heart)[i - 10]);
        assert(i / 10 == 1 && i % 10 == i - 10);
    } else if i < 30 {
        assert(full_deck()[i] == suit_run(Suit::Diamond)[i - 20]);
        assert(i / 10 == 2 && i % 10 == i - 20);
    } else {
        assert(full_deck()[i] == suit_run(Suit::Spade)[i - 30]);
        assert(i / 10 == 3 && i % 10 == i - 30);
    }
}

/// No card occurs twice in the canonical deck.
pub proof fn lemma_full_deck_no_duplicates()
    ensures
        full_deck().no_duplicates(),
{
    assert forall|i: int, j: int|
        0 <= i < full_deck().len() && 0 <= j < full_deck().len() && i != j implies full_deck()[i]
        != full_deck()[j] by {
        lemma_full_deck_index(i);
        lemma_full_deck_index(j);
        if i / 10 == j / 10 {
            assert(i % 10 != j % 10);
            assert(symbol_at(i % 10) != symbol_at(j % 10));
        } else {
            assert(suit_at(i / 10) != suit_at(j / 10));
        }
    }
}

/// Every one of the 40 possible cards occurs in the canonical deck.
pub proof fn lemma_full_deck_contains(c: Card)
    ensures
        full_deck().contains(c),
{
    let i = 10 * suit_index(c.suit) + symbol_index(c.symbol);
    assert(i / 10 == suit_index(c.suit) && i % 10 == symbol_index(c.symbol));
    lemma_full_deck_index(i);
    assert(suit_at(suit_index(c.suit)) == c.suit);
    assert(symbol_at(symbol_index(c.symbol)) == c.symbol);
    assert(full_deck()[i] == c);
}

/// Fresh-deal law: four hands that together hold exactly the cards of the
/// full deck are pairwise disjoint, duplicate-free, and their union is the
/// whole 40-card set.
pub proof fn lemma_fresh_hands_partition(h0: Seq<Card>, h1: Seq<Card>, h2: Seq<Card>, h3: Seq<Card>)
    requires
        h0.to_multiset().add(h1.to_multiset()).add(h2.to_multiset()).add(h3.to_multiset())
            == full_deck().to_multiset(),
    ensures
        forall|c: Card| h0.contains(c) || h1.contains(c) || h2.contains(c) || h3.contains(c),
        forall|c: Card| !(#[trigger] h0.contains(c) && h1.contains(c)),
        forall|c: Card| !(#[trigger] h0.contains(c) && h2.contains(c)),
        forall|c: Card| !(#[trigger] h0.contains(c) && h3.contains(c)),
        forall|c: Card| !(#[trigger] h1.contains(c) && h2.contains(c)),
        forall|c: Card| !(#[trigger] h1.contains(c) && h3.contains(c)),
        forall|c: Card| !(#[trigger] h2.contains(c) && h3.contains(c)),
        h0.no_duplicates(),
        h1.no_duplicates(),
        h2.no_duplicates(),
        h3.no_duplicates(),
{
    broadcast use vstd::seq_lib::group_to_multiset_ensures;
    broadcast use vstd::multiset::group_multiset_axioms;

    lemma_full_deck_no_duplicates();
    full_deck().lemma_multiset_has_no_duplicates();
    assert forall|c: Card|
        h0.to_multiset().count(c) + h1.to_multiset().count(c) + h2.to_multiset().count(c)
            + h3.to_multiset().count(c) == 1 by {
        lemma_full_deck_contains(c);
        assert(full_deck().to_multiset().count(c) > 0);
        assert(full_deck().to_multiset().count(c) == 1);
    }
    assert forall|c: Card| h0.contains(c) || h1.contains(c) || h2.contains(c)
        || h3.contains(c) by {
        assert(h0.to_multiset().count(c) + h1.to_multiset().count(c) + h2.to_multiset().count(c)
            + h3.to_multiset().count(c) == 1);
    }
    assert forall|c: Card| !(#[trigger] h0.contains(c) && h1.contains(c)) by {
        assert(h0.to_multiset().count(c) + h1.to_multiset().count(c) + h2.to_multiset().count(c)
            + h3.to_multiset().count(c) == 1);
    }
    assert forall|c: Card| !(#[trigger] h0.contains(c) && h2.contains(c)) by {
        assert(h0.to_multiset().count(c) + h1.to_multiset().count(c) + h2.to_multiset().count(c)
            + h3.to_multiset().count(c) == 1);
    }
    assert forall|c: Card| !(#[trigger] h0.contains(c) && h3.contains(c)) by {
        assert(h0.to_multiset().count(c) + h1.to_multiset().count(c) + h2.to_multiset().count(c)
            + h3.to_multiset().count(c) == 1);
    }
    assert forall|c: Card| !(#[trigger] h1.contains(c) && h2.contains(c)) by {
        assert(h0.to_multiset().count(c) + h1.to_multiset().count(c) + h2.to_multiset().count(c)
            + h3.to_multiset().count(c) == 1);
    }
    assert forall|c: Card| !(#[trigger] h1.contains(c) && h3.contains(c)) by {
        assert(h0.to_multiset().count(c) + h1.to_multiset().count(c) + h2.to_multiset().count(c)
            + h3.to_multiset().count(c) == 1);
    }
    assert forall|c: Card| !(#[trigger] h2.contains(c) && h3.contains(c)) by {
        assert(h0.to_multiset().count(c) + h1.to_multiset().count(c) + h2.to_multiset().count(c)
            + h3.to_multiset().count(c) == 1);
    }
    h0.lemma_multiset_has_no_duplicates_conv();
    h1.lemma_multiset_has_no_duplicates_conv();
    h2.lemma_multiset_has_no_duplicates_conv();
    h3.lemma_multiset_has_no_duplicates_conv();
}

/// Rank order law: the rank positions realise the strict total order
/// 2 < 3 < 4 < 5 < 6 < Queen < Knight < King < 7 < Ace — distinct symbols
/// have distinct positions, the chain is as written, and Ace is maximal.
pub proof fn lemma_rank_order_total(a: Symbol, b: Symbol)
    ensures
        a != b ==> rank_value(a) != rank_value(b),
        rank_value(a) <= rank_value(Symbol::Ace),
        rank_value(Symbol::Two) < rank_value(Symbol::Three),
        rank_value(Symbol::Three) < rank_value(Symbol::Four),
        rank_value(Symbol::Four) < rank_value(Symbol::Five),
        rank_value(Symbol::Five) < rank_value(Symbol::Six),
        rank_value(Symbol::Six) < rank_value(Symbol::Queen),
        rank_value(Symbol::Queen) < rank_value(Symbol::Knight),
        rank_value(Symbol::Knight) < rank_value(Symbol::King),
        rank_value(Symbol::King) < rank_value(Symbol::Seven),
        rank_value(Symbol::Seven) < rank_value(Symbol::Ace),
{
}

/// The deck of cards still to be dealt, in order.
#[derive(Debug)]
pub struct Deck(Vec<Card>);

impl View for Deck {
    type V = Seq<Card>;

    closed spec fn view(&self) -> Seq<Card> {
        self.0@
    }
}

fn symbol_of_index(j: usize) -> (s: Symbol)
    requires
        j < 10,
    ensures
        s == symbol_at(j as int),
{
    if j == 0 {
        Symbol::Two
    } else if j == 1 {
        Symbol::Three
    } else if j == 2 {
        Symbol::Four
    } else if j == 3 {
        Symbol::Five
    } else if j == 4 {
        Symbol::Six
    } else if j == 5 {
        Symbol::Queen
    } else if j == 6 {
        Symbol::Knight
    } else if j == 7 {
        Symbol::King
    } else if j == 8 {
        Symbol::Seven
    } else {
        Symbol::Ace
    }
}

/// Appends the ten cards of one suit, weakest rank first.
fn push_suit_run(cards: &mut Vec<Card>, suit: Suit)
    ensures
        final(cards)@ == old(cards)@ + suit_run(suit),
{
    let ghost entry = cards@;
    let mut j: usize = 0;
    while j < 10
        invariant
            j <= 10,
            cards@ == entry + suit_run(suit).take(j as int),
        decreases 10 - j,
    {
        let c = Card { suit, symbol: symbol_of_index(j) };
        cards.push(c);
        proof {
            assert(suit_run(suit).take(j + 1) =~= suit_run(suit).take(j as int).push(
                suit_run(suit)[j as int],
            ));
            assert(entry + suit_run(suit).take(j + 1) =~= (entry + suit_run(suit).take(
                j as int,
            )).push(c));
        }
        j += 1;
    }
    proof {
        assert(suit_run(suit).take(10) =~= suit_run(suit));
    }
}

/// Relies on rand::seq::SliceRandom::shuffle, with rand::thread_rng as the
/// randomness source: it reorders the slice in place by swaps, so the deck
/// afterwards holds exactly the cards it held before, in some order.
/// Nothing is assumed about which order comes out.
#[verifier::external_body]
fn shuffle_cards(cards: &mut Vec<Card>)
    ensures
        final(cards)@.to_multiset() == old(cards)@.to_multiset(),
        final(cards)@.len() == old(cards)@.len(),
{
    cards.shuffle(&mut rand::thread_rng());
}

impl Deck {
    /// The full 40-card deck in canonical order: one card for each
    /// (suit, symbol) pair, suit by suit, ranks ascending.
    pub fn new() -> (deck: Deck)
        ensures
            deck@ == full_deck(),
    {
        let mut cards: Vec<Card> = Vec::new();
        push_suit_run(&mut cards, Suit::Club);
        push_suit_run(&mut cards, Suit::Heart);
        push_suit_run(&mut cards, Suit::Diamond);
        push_suit_run(&mut cards, Suit::Spade);
        proof {
            assert(cards@ =~= full_deck());
        }
        Deck(cards)
    }

    /// The full deck under a random permutation: the same 40 cards in an
    /// order nothing further is known about.
    pub fn new_shuffled() -> (deck: Deck)
        ensures
            deck@.to_multiset() == full_deck().to_multiset(),
            deck@.len() == 40,
    {
        let mut deck = Self::new();
        shuffle_cards(&mut deck.0);
        deck
    }

    /// Removes and returns the first `hand_len` remaining cards. The deck
    /// must still hold that many; `deal` is the checked form.
    pub fn generate_hand(&mut self, hand_len: usize) -> (hand: Vec<Card>)
        requires
            hand_len <= old(self)@.len(),
        ensures
            hand@ == old(self)@.take(hand_len as int),
            final(self)@ == old(self)@.skip(hand_len as int),
    {
        let total = self.0.len();
        let mut hand: Vec<Card> = Vec::new();
        let mut i: usize = 0;
        while i < hand_len
            invariant
                i <= hand_len,
                hand_len <= self.0@.len(),
                self.0@ == old(self)@,
                hand@ == old(self)@.take(i as int),
            decreases hand_len - i,
        {
            hand.push(self.0[i]);
            proof {
                assert(old(self)@.take(i + 1) =~= old(self)@.take(i as int).push(
                    old(self)@[i as int],
                ));
            }
            i += 1;
        }
        let mut rest: Vec<Card> = Vec::new();
        let mut j: usize = hand_len;
        while j < total
            invariant
                hand_len <= j <= total,
                total == self.0@.len(),
                self.0@ == old(self)@,
                rest@ == old(self)@.subrange(hand_len as int, j as int),
            decreases total - j,
        {
            rest.push(self.0[j]);
            proof {
                assert(old(self)@.subrange(hand_len as int, j + 1) =~= old(self)@.subrange(
                    hand_len as int,
                    j as int,
                ).push(old(self)@[j as int]));
            }
            j += 1;
        }
        self.0 = rest;
        hand
    }

    /// Deals `n` cards if the deck still holds that many, and reports the
    /// deck exhausted, leaving it unchanged, if it does not.
    pub fn deal(&mut self, n: usize) -> (r: Result<Vec<Card>, crate::game::SuecaError>)
        ensures
            n <= old(self)@.len() ==> (r matches Ok(hand) && hand@ == old(self)@.take(n as int))
                && final(self)@ == old(self)@.skip(n as int),
            n > old(self)@.len() ==> r == Err::<Vec<Card>, crate::game::SuecaError>(
                crate::game::SuecaError::DeckExhausted,
            ) && final(self)@ == old(self)@,
    {
        if n <= self.0.len() {
            Ok(self.generate_hand(n))
        } else {
            Err(crate::game::SuecaError::DeckExhausted)
        }
    }

    /// How many cards remain to be dealt.
    pub fn remaining(&self) -> (n: usize)
        ensures
            n == self@.len(),
    {
        self.0.len()
    }
}

} // verus!
