//! The trick-taking state machine: players, teams, the trick table, and
//! the game orchestration (turn order, play validation, trick resolution
//! and score attribution).

use crate::deck::Card;
use crate::deck::Deck;
use crate::deck::Suit;
use crate::deck::full_deck;
use crate::deck::lemma_full_deck_contains;
use crate::deck::lemma_full_deck_no_duplicates;
use crate::deck::lemma_full_deck_points;
use crate::deck::lemma_points_sum_concat;
use crate::deck::lemma_points_sum_nonneg;
use crate::deck::lemma_points_sum_permutation;
use crate::deck::lemma_points_sum_remove_elem;
use crate::deck::points_of;
use crate::deck::points_sum;
use crate::deck::rank_value;
use vstd::multiset::Multiset;
use vstd::prelude::*;

verus! {

broadcast use vstd::seq_lib::group_to_multiset_ensures, vstd::multiset::group_multiset_axioms;

/// Why a request was rejected. Every rejection is recoverable: the engine's
/// state is unchanged whenever one of these is returned.
#[derive(Clone, Copy, Debug, PartialEq, Eq, Structural)]
pub enum SuecaError {
    /// The player id is not part of this hand.
    UnknownPlayer,
    /// The acting player does not hold the card it tried to play.
    CardNotHeld,
    /// The play came from a player whose turn it is not.
    OutOfTurn,
    /// More cards were requested from a deck than it still holds.
    DeckExhausted,
}

/// An opaque player identity. Two identities are the same player exactly
/// when they are equal.
#[derive(Clone, Copy, Debug, PartialEq, Eq, Structural)]
pub struct PlayerId {
    value: u128,
}

impl View for PlayerId {
    type V = u128;

    closed spec fn view(&self) -> u128 {
        self.value
    }
}

impl PlayerId {
    /// An identity from a caller-chosen token value.
    pub fn new(value: u128) -> (p: PlayerId)
        ensures
            p@ == value,
    {
        PlayerId { value }
    }
}

/// Relies on uuid::Uuid::new_v4: a freshly generated random version-4
/// UUID, read out as its 128-bit value. The result is random; nothing is
/// assumed about it.
#[verifier::external_body]
fn random_id_value() -> u128 {
    uuid::Uuid::new_v4().as_u128()
}

/// One player: an identity and the hand of cards it still holds.
pub struct Player {
    id: PlayerId,
    hand: Vec<Card>,
}

impl Player {
    /// The player's identity.
    pub closed spec fn id_spec(&self) -> PlayerId {
        self.id
    }

    /// The cards the player still holds.
    pub closed spec fn hand_spec(&self) -> Seq<Card> {
        self.hand@
    }

    /// A player holding a freshly dealt hand.
    pub fn new(id: PlayerId, hand: Vec<Card>) -> (p: Player)
        ensures
            p.id_spec() == id,
            p.hand_spec() == hand@,
    {
        Player { id, hand }
    }

    /// The player's identity.
    pub fn id(&self) -> (r: PlayerId)
        ensures
            r == self.id_spec(),
    {
        self.id
    }

    /// A copy of the hand, for callers that want to inspect it.
    pub fn hand(&self) -> (r: Vec<Card>)
        ensures
            r@ == self.hand_spec(),
    {
        let n = self.hand.len();
        let mut r: Vec<Card> = Vec::new();
        let mut i: usize = 0;
        while i < n
            invariant
                i <= n,
                n == self.hand@.len(),
                r@ == self.hand@.take(i as int),
            decreases n - i,
        {
            r.push(self.hand[i]);
            proof {
                assert(self.hand@.take(i + 1) =~= self.hand@.take(i as int).push(
                    self.hand@[i as int],
                ));
            }
            i += 1;
        }
        proof {
            assert(self.hand@.take(n as int) =~= self.hand@);
        }
        r
    }

    /// Removes `card` from the hand if it is held, reporting the card; a
    /// card not held changes nothing and is reported as absent. This is
    /// the only way a hand ever changes, and it only shrinks.
    pub fn take_card(&mut self, card: Card) -> (r: Option<Card>)
        ensures
            old(self).hand_spec().contains(card) ==> r == Some(card)
                && final(self).hand_spec().to_multiset()
                == old(self).hand_spec().to_multiset().remove(card)
                && final(self).hand_spec().len() == old(self).hand_spec().len() - 1,
            !old(self).hand_spec().contains(card) ==> r == None::<Card> && final(self).hand_spec()
                == old(self).hand_spec(),
            final(self).id_spec() == old(self).id_spec(),
    {
        let n = self.hand.len();
        let mut i: usize = 0;
        while i < n
            invariant
                i <= n,
                n == self.hand@.len(),
                self.hand@ == old(self).hand_spec(),
                self.id == old(self).id_spec(),
                forall|k: int| 0 <= k < i ==> self.hand@[k] != card,
            decreases n - i,
        {
            if self.hand[i] == card {
                self.hand.remove(i);
                proof {
                    old(self).hand_spec().to_multiset_ensures();
                    assert(old(self).hand_spec()[i as int] == card);
                }
                return Some(card);
            }
            i += 1;
        }
        proof {
            assert(!old(self).hand_spec().contains(card));
        }
        None
    }
}

/// The in-progress trick: the plays made so far, in play order. The first
/// play's suit is the led suit.
pub struct Table(Vec<(PlayerId, Card)>);

impl View for Table {
    type V = Seq<(PlayerId, Card)>;

    closed spec fn view(&self) -> Seq<(PlayerId, Card)> {
        self.0@
    }
}

/// Whether some play on the table is of suit `s`.
pub open spec fn suit_present(t: Seq<(PlayerId, Card)>, s: Suit) -> bool {
    exists|i: int| 0 <= i < t.len() && t[i].1.suit == s
}

/// The position of the strongest play of suit `s`, later plays taking
/// ties; -1 when no play has that suit.
pub open spec fn best_of_suit(t: Seq<(PlayerId, Card)>, s: Suit) -> int
    decreases t.len(),
{
    if t.len() == 0 {
        -1
    } else {
        let rest = best_of_suit(t.drop_last(), s);
        let last = t.len() - 1;
        if t[last].1.suit == s && (rest < 0 || rank_value(t[rest].1.symbol) <= rank_value(
            t[last].1.symbol,
        )) {
            last
        } else {
            rest
        }
    }
}

/// The suit that competes for a trick: the trump if any trump was played,
/// otherwise the led suit. Plays of any other suit never take the trick.
pub open spec fn winning_suit(t: Seq<(PlayerId, Card)>, trump: Suit) -> Suit {
    if suit_present(t, trump) {
        trump
    } else {
        t[0].1.suit
    }
}

/// The position of the winning play of a full trick.
pub open spec fn trick_winner_index(t: Seq<(PlayerId, Card)>, trump: Suit) -> int {
    best_of_suit(t, winning_suit(t, trump))
}

/// The player who takes the trick.
pub open spec fn trick_winner(t: Seq<(PlayerId, Card)>, trump: Suit) -> PlayerId {
    t[trick_winner_index(t, trump)].0
}

/// Point total of the cards played on a table.
pub open spec fn table_points_spec(t: Seq<(PlayerId, Card)>) -> int
    decreases t.len(),
{
    if t.len() == 0 {
        0
    } else {
        table_points_spec(t.drop_last()) + points_of(t.last().1)
    }
}

/// A table's point total lies between 0 and 11 points per play.
pub proof fn lemma_table_points_bounds(t: Seq<(PlayerId, Card)>)
    ensures
        0 <= table_points_spec(t) <= 11 * t.len(),
    decreases t.len(),
{
    if t.len() > 0 {
        lemma_table_points_bounds(t.drop_last());
    }
}

/// What `best_of_suit` selects: -1 exactly when the suit is absent, and
/// otherwise a play of that suit which no play of the suit outranks.
pub proof fn lemma_best_of_suit(t: Seq<(PlayerId, Card)>, s: Suit)
    ensures
        !suit_present(t, s) ==> best_of_suit(t, s) == -1,
        suit_present(t, s) ==> 0 <= best_of_suit(t, s) < t.len(),
        suit_present(t, s) ==> t[best_of_suit(t, s)].1.suit == s,
        forall|j: int|
            0 <= j < t.len() && (#[trigger] t[j]).1.suit == s ==> rank_value(t[j].1.symbol)
                <= rank_value(t[best_of_suit(t, s)].1.symbol),
    decreases t.len(),
{
    if t.len() == 0 {
    } else {
        let pre = t.drop_last();
        lemma_best_of_suit(pre, s);
        let last = t.len() - 1;
        let b = best_of_suit(t, s);
        assert(forall|j: int| 0 <= j < pre.len() ==> pre[j] == t[j]);
        if suit_present(pre, s) {
            let w = choose|i: int| 0 <= i < pre.len() && pre[i].1.suit == s;
            assert(t[w].1.suit == s);
            assert(suit_present(t, s));
        }
        if t[last].1.suit == s {
            assert(suit_present(t, s));
        }
        if suit_present(t, s) && !suit_present(pre, s) && t[last].1.suit != s {
            let w = choose|i: int| 0 <= i < t.len() && t[i].1.suit == s;
            assert(pre[w].1.suit == s);
            assert(false);
        }
        assert forall|j: int|
            0 <= j < t.len() && (#[trigger] t[j]).1.suit == s implies rank_value(t[j].1.symbol)
            <= rank_value(t[b].1.symbol) by {
            if j < last {
                assert(pre[j].1.suit == s);
                assert(suit_present(pre, s));
            }
        }
    }
}

impl Table {
    /// An empty table, ready for a trick's first play.
    pub fn empty() -> (t: Table)
        ensures
            t@ == Seq::<(PlayerId, Card)>::empty(),
    {
        Table(Vec::new())
    }

    /// Records a play. A table never holds more than one trick's four
    /// plays.
    pub fn add_card(&mut self, player_id: PlayerId, card: Card)
        requires
            old(self)@.len() < 4,
        ensures
            final(self)@ == old(self)@.push((player_id, card)),
    {
        self.0.push((player_id, card));
    }

    /// How many plays the current trick holds so far.
    pub fn play_number(&self) -> (n: usize)
        ensures
            n == self@.len(),
    {
        self.0.len()
    }

    fn best_index(&self, s: Suit) -> (r: Option<usize>)
        ensures
            r is None ==> best_of_suit(self@, s) == -1,
            r matches Some(i) ==> i < self@.len() && i as int == best_of_suit(self@, s),
    {
        let n = self.0.len();
        let mut best: Option<usize> = None;
        let mut i: usize = 0;
        while i < n
            invariant
                i <= n,
                n == self@.len(),
                best is None ==> best_of_suit(self@.take(i as int), s) == -1,
                best matches Some(b) ==> b < i && b as int == best_of_suit(self@.take(i as int), s),
            decreases n - i,
        {
            proof {
                assert(self@.take(i + 1).drop_last() =~= self@.take(i as int));
                assert(self@.take(i + 1).last() == self@[i as int]);
            }
            if self.0[i].1.suit == s {
                let take_it = match best {
                    None => true,
                    Some(b) => self.0[b].1.symbol.rank_index()
                        <= self.0[i].1.symbol.rank_index(),
                };
                if take_it {
                    best = Some(i);
                }
            }
            i += 1;
        }
        proof {
            assert(self@.take(n as int) =~= self@);
        }
        best
    }

    /// The trick's winner once four plays are on the table: the strongest
    /// trump play if any trump was played, otherwise the strongest play of
    /// the led suit. With fewer than four plays there is no winner yet.
    pub fn winner(&self, trump: Suit) -> (r: Option<PlayerId>)
        ensures
            self@.len() != 4 ==> r is None,
            self@.len() == 4 ==> r == Some(trick_winner(self@, trump)),
    {
        if self.0.len() != 4 {
            return None;
        }
        let led = self.0[0].1.suit;
        proof {
            lemma_best_of_suit(self@, trump);
            lemma_best_of_suit(self@, led);
            assert(self@[0].1.suit == led);
            assert(suit_present(self@, led));
        }
        match self.best_index(trump) {
            Some(i) => Some(self.0[i].0),
            None => {
                match self.best_index(led) {
                    Some(k) => Some(self.0[k].0),
                    None => {
                        proof {
                            assert(false);
                        }
                        None
                    },
                }
            },
        }
    }

    /// The points the plays on the table are worth together.
    pub fn table_points(&self) -> (p: u32)
        requires
            self@.len() <= 4,
        ensures
            p as int == table_points_spec(self@),
    {
        let n = self.0.len();
        let mut p: u32 = 0;
        let mut i: usize = 0;
        while i < n
            invariant
                i <= n,
                n == self@.len(),
                n <= 4,
                p as int == table_points_spec(self@.take(i as int)),
                p <= 11 * i,
            decreases n - i,
        {
            proof {
                assert(self@.take(i + 1).drop_last() =~= self@.take(i as int));
                assert(self@.take(i + 1).last() == self@[i as int]);
            }
            p = p + self.0[i].1.points();
            i += 1;
        }
        proof {
            assert(self@.take(n as int) =~= self@);
        }
        p
    }
}

/// Two players and the points their tricks have earned this hand.
pub struct Team {
    first: Player,
    second: Player,
    points: u32,
}

impl Team {
    /// The identity of the team's first player.
    pub closed spec fn first_id(&self) -> PlayerId {
        self.first.id
    }

    /// The identity of the team's second player.
    pub closed spec fn second_id(&self) -> PlayerId {
        self.second.id
    }

    /// The hand of the team's first player.
    pub closed spec fn first_hand(&self) -> Seq<Card> {
        self.first.hand@
    }

    /// The hand of the team's second player.
    pub closed spec fn second_hand(&self) -> Seq<Card> {
        self.second.hand@
    }

    /// The team's accumulated points.
    pub closed spec fn points_spec(&self) -> int {
        self.points as int
    }

    /// A team of two players, each dealt ten cards from the deck.
    pub fn new(id_first: PlayerId, id_second: PlayerId, deck: &mut Deck) -> (t: Team)
        requires
            old(deck)@.len() >= 20,
        ensures
            t.first_id() == id_first,
            t.second_id() == id_second,
            t.first_hand() == old(deck)@.take(10),
            t.second_hand() == old(deck)@.skip(10).take(10),
            final(deck)@ == old(deck)@.skip(20),
            t.points_spec() == 0,
    {
        let first = Player::new(id_first, deck.generate_hand(10));
        let second = Player::new(id_second, deck.generate_hand(10));
        proof {
            assert(old(deck)@.skip(10).skip(10) =~= old(deck)@.skip(20));
        }
        Team { first, second, points: 0 }
    }

    /// Whether the given identity is one of this team's players.
    pub fn contains_player(&self, id: PlayerId) -> (r: bool)
        ensures
            r == (self.first_id() == id || self.second_id() == id),
    {
        self.first.id == id || self.second.id == id
    }

    /// The team's accumulated points.
    pub fn points(&self) -> (r: u32)
        ensures
            r as int == self.points_spec(),
    {
        self.points
    }
}

/// Which of the two teams of a game.
#[derive(Clone, Copy, Debug, PartialEq, Eq, Structural)]
pub enum TeamId {
    First,
    Second,
}

/// What an accepted play led to: either the trick continues, or this was
/// its fourth play and the trick completed, with its winner, the points
/// that were on the table, and the team they were awarded to.
#[derive(Clone, Copy, Debug, PartialEq, Eq, Structural)]
pub enum TrickOutcome {
    Continues,
    Completed { winner: PlayerId, points: u32, team: TeamId },
}

/// The cards on a table, without the players who put them there.
pub open spec fn table_cards(t: Seq<(PlayerId, Card)>) -> Seq<Card> {
    t.map_values(|pc: (PlayerId, Card)| pc.1)
}

/// One hand of Sueca: four players in two teams, a fixed trump, the trick
/// in progress, and the points taken so far.
pub struct SuecaGame {
    team0: Team,
    team1: Team,
    player_order: Vec<PlayerId>,
    lead: usize,
    trump: Suit,
    table: Table,
    tricks_played: usize,
}

impl SuecaGame {
    /// The four player identities in fixed rotation order.
    pub closed spec fn player_ids(&self) -> Seq<PlayerId> {
        self.player_order@
    }

    /// The identity of the player seated at rotation position `i`.
    pub closed spec fn player_id_at(&self, i: int) -> PlayerId {
        if i == 0 {
            self.team0.first.id
        } else if i == 1 {
            self.team1.first.id
        } else if i == 2 {
            self.team0.second.id
        } else {
            self.team1.second.id
        }
    }

    /// The hand of the player seated at rotation position `i`.
    pub closed spec fn hand(&self, i: int) -> Seq<Card> {
        if i == 0 {
            self.team0.first.hand@
        } else if i == 1 {
            self.team1.first.hand@
        } else if i == 2 {
            self.team0.second.hand@
        } else {
            self.team1.second.hand@
        }
    }

    /// The plays of the trick in progress.
    pub closed spec fn table_seq(&self) -> Seq<(PlayerId, Card)> {
        self.table@
    }

    /// The trump suit fixed for this hand.
    pub closed spec fn trump_spec(&self) -> Suit {
        self.trump
    }

    /// Rotation position of the current trick's leader.
    pub closed spec fn lead_spec(&self) -> int {
        self.lead as int
    }

    /// How many tricks of this hand have been completed.
    pub closed spec fn tricks_played_spec(&self) -> int {
        self.tricks_played as int
    }

    /// Accumulated points of team `t` (0 or 1).
    pub closed spec fn team_points(&self, t: int) -> int {
        if t == 0 {
            self.team0.points as int
        } else {
            self.team1.points as int
        }
    }

    /// The rotation position whose turn it is: the trick's leader,
    /// advanced by the plays already on the table.
    pub open spec fn current_index(&self) -> int {
        (self.lead_spec() + self.table_seq().len()) % 4
    }

    /// The player whose turn it is.
    pub open spec fn current_player_spec(&self) -> PlayerId {
        self.player_ids()[self.current_index()]
    }

    /// Rotation position of `id`, or -1 if the id is not part of this
    /// hand.
    pub open spec fn rotation_index_of(&self, id: PlayerId) -> int {
        if self.player_ids()[0] == id {
            0
        } else if self.player_ids()[1] == id {
            1
        } else if self.player_ids()[2] == id {
            2
        } else if self.player_ids()[3] == id {
            3
        } else {
            -1
        }
    }

    /// Every card still in play, in hands or on the table.
    pub open spec fn cards_in_play(&self) -> Multiset<Card> {
        self.hand(0).to_multiset().add(self.hand(1).to_multiset()).add(
            self.hand(2).to_multiset(),
        ).add(self.hand(3).to_multiset()).add(table_cards(self.table_seq()).to_multiset())
    }

    /// The engine's internal invariant: four distinctly identified
    /// players seated consistently with the rotation, a trick of at most
    /// four plays made by those players, no card in two places, and both
    /// cards and points conserved across the whole hand.
    pub closed spec fn wf(&self) -> bool {
        &&& self.player_order@.len() == 4
        &&& (forall|i: int| 0 <= i < 4 ==> self.player_order@[i] == self.player_id_at(i))
        &&& (forall|i: int, j: int|
            0 <= i < 4 && 0 <= j < 4 && i != j ==> self.player_order@[i] != self.player_order@[j])
        &&& self.lead < 4
        &&& self.table@.len() <= 3
        &&& self.tricks_played <= 10
        &&& (forall|k: int|
            0 <= k < self.table@.len() ==> self.player_ids().contains(
                (#[trigger] self.table@[k]).0,
            ))
        &&& self.hand(0).len() + self.hand(1).len() + self.hand(2).len() + self.hand(3).len()
            + self.table@.len() + 4 * self.tricks_played == 40
        &&& self.hand(0).len() <= 10
        &&& self.hand(1).len() <= 10
        &&& self.hand(2).len() <= 10
        &&& self.hand(3).len() <= 10
        &&& (forall|c: Card| #[trigger] self.cards_in_play().count(c) <= 1)
        &&& self.team_points(0) + self.team_points(1) + points_sum(self.hand(0)) + points_sum(
            self.hand(1),
        ) + points_sum(self.hand(2)) + points_sum(self.hand(3)) + table_points_spec(self.table@)
            == 120
    }
}

/// A play appended to the table appends its card to the table's cards.
proof fn lemma_table_cards_push(t: Seq<(PlayerId, Card)>, x: (PlayerId, Card))
    ensures
        table_cards(t.push(x)) == table_cards(t).push(x.1),
{
    assert(table_cards(t.push(x)) =~= table_cards(t).push(x.1));
}

/// A full trick always has a winning play: its position is on the table
/// and its card is of the winning suit.
pub proof fn lemma_trick_winner_in_range(t: Seq<(PlayerId, Card)>, trump: Suit)
    requires
        t.len() == 4,
    ensures
        0 <= trick_winner_index(t, trump) < 4,
        t[trick_winner_index(t, trump)].1.suit == winning_suit(t, trump),
        trick_winner(t, trump) == t[trick_winner_index(t, trump)].0,
{
    let ws = winning_suit(t, trump);
    lemma_best_of_suit(t, ws);
    if !suit_present(t, trump) {
        assert(t[0].1.suit == ws);
        assert(suit_present(t, ws));
    }
}

/// An identity among the four seats has a rotation position, and it is
/// that identity's seat.
proof fn lemma_rotation_index_of_contains(g: SuecaGame, id: PlayerId)
    requires
        g.player_ids().len() == 4,
        g.player_ids().contains(id),
    ensures
        0 <= g.rotation_index_of(id) < 4,
        g.player_ids()[g.rotation_index_of(id)] == id,
{
    let i = choose|i: int| 0 <= i < g.player_ids().len() && g.player_ids()[i] == id;
    assert(i == 0 || i == 1 || i == 2 || i == 3);
}

/// The two states are the same engine state, observably: same players,
/// hands, trick, trump, leader, scores and trick count.
pub open spec fn unchanged_state(a: SuecaGame, b: SuecaGame) -> bool {
    &&& b.player_ids() == a.player_ids()
    &&& (forall|i: int| 0 <= i < 4 ==> #[trigger] b.hand(i) == a.hand(i))
    &&& b.table_seq() == a.table_seq()
    &&& b.trump_spec() == a.trump_spec()
    &&& b.lead_spec() == a.lead_spec()
    &&& b.team_points(0) == a.team_points(0)
    &&& b.team_points(1) == a.team_points(1)
    &&& b.tricks_played_spec() == a.tricks_played_spec()
}

/// The effect of an accepted play: the card leaves the acting player's
/// hand and joins the table; the fourth play of a trick resolves it, the
/// points on the table go to the winner's team, the table clears, and the
/// winner leads the next trick.
pub open spec fn accepted_play(
    pre: SuecaGame,
    id: PlayerId,
    card: Card,
    post: SuecaGame,
    r: Result<TrickOutcome, SuecaError>,
) -> bool {
    let ci = pre.current_index();
    let t2 = pre.table_seq().push((id, card));
    &&& post.player_ids() == pre.player_ids()
    &&& post.trump_spec() == pre.trump_spec()
    &&& (forall|j: int| 0 <= j < 4 && j != ci ==> #[trigger] post.hand(j) == pre.hand(j))
    &&& post.hand(ci).to_multiset() == pre.hand(ci).to_multiset().remove(card)
    &&& post.hand(ci).len() == pre.hand(ci).len() - 1
    &&& (if t2.len() < 4 {
        &&& post.table_seq() == t2
        &&& post.lead_spec() == pre.lead_spec()
        &&& post.team_points(0) == pre.team_points(0)
        &&& post.team_points(1) == pre.team_points(1)
        &&& post.tricks_played_spec() == pre.tricks_played_spec()
        &&& r == Ok::<TrickOutcome, SuecaError>(TrickOutcome::Continues)
    } else {
        let w = trick_winner(t2, pre.trump_spec());
        let wk = pre.rotation_index_of(w);
        let pts = table_points_spec(t2);
        &&& post.table_seq() == Seq::<(PlayerId, Card)>::empty()
        &&& post.lead_spec() == wk
        &&& post.tricks_played_spec() == pre.tricks_played_spec() + 1
        &&& (if wk % 2 == 0 {
            &&& post.team_points(0) == pre.team_points(0) + pts
            &&& post.team_points(1) == pre.team_points(1)
            &&& r == Ok::<TrickOutcome, SuecaError>(
                TrickOutcome::Completed { winner: w, points: pts as u32, team: TeamId::First },
            )
        } else {
            &&& post.team_points(0) == pre.team_points(0)
            &&& post.team_points(1) == pre.team_points(1) + pts
            &&& r == Ok::<TrickOutcome, SuecaError>(
                TrickOutcome::Completed { winner: w, points: pts as u32, team: TeamId::Second },
            )
        })
    })
}

/// The full effect of one play request: an unknown player, a player out
/// of turn, or a card not held is rejected, each with its error and no
/// state change; otherwise the play is accepted as `accepted_play` says.
pub open spec fn play_transition(
    pre: SuecaGame,
    id: PlayerId,
    card: Card,
    post: SuecaGame,
    r: Result<TrickOutcome, SuecaError>,
) -> bool {
    if pre.rotation_index_of(id) < 0 {
        r == Err::<TrickOutcome, SuecaError>(SuecaError::UnknownPlayer) && unchanged_state(pre, post)
    } else if id != pre.current_player_spec() {
        r == Err::<TrickOutcome, SuecaError>(SuecaError::OutOfTurn) && unchanged_state(pre, post)
    } else if !pre.hand(pre.current_index()).contains(card) {
        r == Err::<TrickOutcome, SuecaError>(SuecaError::CardNotHeld) && unchanged_state(pre, post)
    } else {
        accepted_play(pre, id, card, post, r)
    }
}

/// Four identities guaranteed pairwise distinct: freshly drawn random
/// tokens, or, in the vanishingly unlikely event that two of those
/// collide, a fixed distinct fallback.
fn fresh_distinct_ids() -> (r: (PlayerId, PlayerId, PlayerId, PlayerId))
    ensures
        r.0 != r.1,
        r.0 != r.2,
        r.0 != r.3,
        r.1 != r.2,
        r.1 != r.3,
        r.2 != r.3,
{
    let a = PlayerId { value: random_id_value() };
    let b = PlayerId { value: random_id_value() };
    let c = PlayerId { value: random_id_value() };
    let d = PlayerId { value: random_id_value() };
    if a == b || a == c || a == d || b == c || b == d || c == d {
        (
            PlayerId { value: 0 },
            PlayerId { value: 1 },
            PlayerId { value: 2 },
            PlayerId { value: 3 },
        )
    } else {
        (a, b, c, d)
    }
}

impl SuecaGame {
    /// A fresh hand: four players with distinct identities, dealt ten
    /// cards each from a freshly shuffled deck, so that the hands
    /// together hold the whole 40-card deck. The trump is the suit of the
    /// last card dealt, no points have been taken, and the first seat
    /// leads the first trick.
    pub fn new() -> (g: SuecaGame)
        ensures
            g.wf(),
            g.player_ids().len() == 4,
            g.player_ids().no_duplicates(),
            g.team_points(0) == 0,
            g.team_points(1) == 0,
            g.table_seq() == Seq::<(PlayerId, Card)>::empty(),
            g.tricks_played_spec() == 0,
            g.lead_spec() == 0,
            g.current_player_spec() == g.player_ids()[0],
            g.hand(0).len() == 10,
            g.hand(1).len() == 10,
            g.hand(2).len() == 10,
            g.hand(3).len() == 10,
            g.hand(0).to_multiset().add(g.hand(1).to_multiset()).add(g.hand(2).to_multiset()).add(
                g.hand(3).to_multiset(),
            ) == full_deck().to_multiset(),
            g.trump_spec() == g.hand(3).last().suit,
    {
        let (a, b, c, d) = fresh_distinct_ids();
        Self::new_with_players(a, b, c, d)
    }

    /// A fresh hand for four caller-owned identities, seated in the given
    /// rotation order. The identities must be pairwise distinct; dealing,
    /// trump selection and the first lead are as in `new`.
    pub fn new_with_players(a: PlayerId, b: PlayerId, c: PlayerId, d: PlayerId) -> (g: SuecaGame)
        requires
            a != b,
            a != c,
            a != d,
            b != c,
            b != d,
            c != d,
        ensures
            g.wf(),
            g.player_ids() == seq![a, b, c, d],
            g.player_ids().no_duplicates(),
            g.team_points(0) == 0,
            g.team_points(1) == 0,
            g.table_seq() == Seq::<(PlayerId, Card)>::empty(),
            g.tricks_played_spec() == 0,
            g.lead_spec() == 0,
            g.current_player_spec() == a,
            g.hand(0).len() == 10,
            g.hand(1).len() == 10,
            g.hand(2).len() == 10,
            g.hand(3).len() == 10,
            g.hand(0).to_multiset().add(g.hand(1).to_multiset()).add(g.hand(2).to_multiset()).add(
                g.hand(3).to_multiset(),
            ) == full_deck().to_multiset(),
            g.trump_spec() == g.hand(3).last().suit,
    {
        let mut deck = Deck::new_shuffled();
        let ghost s = deck@;
        let team0 = Team::new(a, c, &mut deck);
        let team1 = Team::new(b, d, &mut deck);
        proof {
            assert(team1.second_hand().len() == 10);
        }
        let trump = team1.second.hand[9].suit;
        let mut player_order: Vec<PlayerId> = Vec::new();
        player_order.push(a);
        player_order.push(b);
        player_order.push(c);
        player_order.push(d);
        let g = SuecaGame {
            team0,
            team1,
            player_order,
            lead: 0,
            trump,
            table: Table::empty(),
            tricks_played: 0,
        };
        proof {
            let h0 = g.hand(0);
            let h1 = g.hand(1);
            let h2 = g.hand(2);
            let h3 = g.hand(3);
            assert(h0 == s.take(10));
            assert(h2 == s.skip(10).take(10));
            assert(h1 == s.skip(20).take(10));
            assert(h3 == s.skip(20).skip(10).take(10));
            assert(s =~= h0 + h2 + h1 + h3);
            vstd::seq_lib::lemma_multiset_commutative(h0 + h2 + h1, h3);
            vstd::seq_lib::lemma_multiset_commutative(h0 + h2, h1);
            vstd::seq_lib::lemma_multiset_commutative(h0, h2);
            assert(s.to_multiset() == h0.to_multiset().add(h2.to_multiset()).add(
                h1.to_multiset(),
            ).add(h3.to_multiset()));
            assert(h0.to_multiset().add(h1.to_multiset()).add(h2.to_multiset()).add(
                h3.to_multiset(),
            ) =~= h0.to_multiset().add(h2.to_multiset()).add(h1.to_multiset()).add(
                h3.to_multiset(),
            ));
            assert(g.hand(0).to_multiset().add(g.hand(1).to_multiset()).add(
                g.hand(2).to_multiset(),
            ).add(g.hand(3).to_multiset()) == full_deck().to_multiset());

            // points conservation
            lemma_points_sum_concat(h0 + h2 + h1, h3);
            lemma_points_sum_concat(h0 + h2, h1);
            lemma_points_sum_concat(h0, h2);
            lemma_points_sum_permutation(s, full_deck());
            lemma_full_deck_points();
            assert(points_sum(h0) + points_sum(h1) + points_sum(h2) + points_sum(h3) == 120);

            // no card is anywhere twice
            lemma_full_deck_no_duplicates();
            full_deck().lemma_multiset_has_no_duplicates();
            assert(table_cards(g.table_seq()) =~= Seq::<Card>::empty());
            assert(table_cards(g.table_seq()).to_multiset().len() == 0);
            assert forall|c: Card| #[trigger] g.cards_in_play().count(c) <= 1 by {
                if full_deck().to_multiset().count(c) > 0 {
                    assert(full_deck().contains(c));
                    assert(full_deck().to_multiset().count(c) == 1);
                }
                assert(table_cards(g.table_seq()).to_multiset().count(c) == 0);
            }

            // the rotation matches the seating
            assert(g.player_order@ =~= seq![a, b, c, d]);
            assert forall|i: int| 0 <= i < 4 implies g.player_order@[i] == g.player_id_at(i) by {
            }
            assert(g.player_ids().no_duplicates());
        }
        g
    }

    fn find_rotation_index(&self, id: PlayerId) -> (r: Option<usize>)
        requires
            self.player_ids().len() == 4,
        ensures
            r is None ==> self.rotation_index_of(id) == -1,
            r matches Some(k) ==> k < 4 && k as int == self.rotation_index_of(id),
    {
        if self.player_order[0] == id {
            Some(0)
        } else if self.player_order[1] == id {
            Some(1)
        } else if self.player_order[2] == id {
            Some(2)
        } else if self.player_order[3] == id {
            Some(3)
        } else {
            None
        }
    }

    fn take_card_at(&mut self, idx: usize, card: Card) -> (r: bool)
        requires
            idx < 4,
        ensures
            r == old(self).hand(idx as int).contains(card),
            r ==> final(self).hand(idx as int).to_multiset() == old(self).hand(
                idx as int,
            ).to_multiset().remove(card) && final(self).hand(idx as int).len() == old(self).hand(
                idx as int,
            ).len() - 1,
            !r ==> final(self).hand(idx as int) == old(self).hand(idx as int),
            forall|j: int|
                0 <= j < 4 && j != idx as int ==> #[trigger] final(self).hand(j) == old(self).hand(
                    j,
                ),
            forall|i: int| #[trigger] final(self).player_id_at(i) == old(self).player_id_at(i),
            final(self).player_ids() == old(self).player_ids(),
            final(self).table_seq() == old(self).table_seq(),
            final(self).trump_spec() == old(self).trump_spec(),
            final(self).lead_spec() == old(self).lead_spec(),
            final(self).team_points(0) == old(self).team_points(0),
            final(self).team_points(1) == old(self).team_points(1),
            final(self).tricks_played_spec() == old(self).tricks_played_spec(),
    {
        let r = if idx == 0 {
            self.team0.first.take_card(card)
        } else if idx == 1 {
            self.team1.first.take_card(card)
        } else if idx == 2 {
            self.team0.second.take_card(card)
        } else {
            self.team1.second.take_card(card)
        };
        r.is_some()
    }

    #[verifier::rlimit(100)]
    fn complete_trick(&mut self, Ghost(pre): Ghost<SuecaGame>, id: PlayerId, card: Card) -> (out:
        TrickOutcome)
        requires
            pre.wf(),
            pre.player_ids()[pre.current_index()] == id,
            pre.hand(pre.current_index()).contains(card),
            old(self).table_seq() == pre.table_seq().push((id, card)),
            old(self).table_seq().len() == 4,
            forall|j: int|
                0 <= j < 4 && j != pre.current_index() ==> #[trigger] old(self).hand(j) == pre.hand(
                    j,
                ),
            old(self).hand(pre.current_index()).to_multiset() == pre.hand(
                pre.current_index(),
            ).to_multiset().remove(card),
            old(self).hand(pre.current_index()).len() == pre.hand(pre.current_index()).len() - 1,
            forall|i: int| #[trigger] old(self).player_id_at(i) == pre.player_id_at(i),
            old(self).player_ids() == pre.player_ids(),
            old(self).trump_spec() == pre.trump_spec(),
            old(self).lead_spec() == pre.lead_spec(),
            old(self).team_points(0) == pre.team_points(0),
            old(self).team_points(1) == pre.team_points(1),
            old(self).tricks_played_spec() == pre.tricks_played_spec(),
        ensures
            final(self).wf(),
            accepted_play(pre, id, card, *final(self), Ok::<TrickOutcome, SuecaError>(out)),
    {
        let ghost ci = pre.current_index();
        let ghost t2 = pre.table_seq().push((id, card));
        proof {
            assert(table_points_spec(t2) == table_points_spec(pre.table_seq()) + points_of(
                card,
            )) by {
                assert(t2.drop_last() =~= pre.table_seq());
            }
            lemma_points_sum_remove_elem(old(self).hand(ci), pre.hand(ci), card);
            lemma_trick_winner_in_range(t2, pre.trump_spec());
            let wi = trick_winner_index(t2, pre.trump_spec());
            if wi < 3 {
                assert(t2[wi] == pre.table_seq()[wi]);
                assert(pre.player_ids().contains(t2[wi].0));
            } else {
                assert(t2[wi].0 == id);
                assert(pre.player_ids().contains(id)) by {
                    assert(pre.player_ids()[pre.current_index()] == id);
                }
            }
            lemma_rotation_index_of_contains(pre, trick_winner(t2, pre.trump_spec()));
        }
        let w_opt = self.table.winner(self.trump);
        let w = match w_opt {
            Some(ww) => ww,
            None => {
                proof {
                    assert(false);
                }
                return TrickOutcome::Continues;
            },
        };
        let pts = self.table.table_points();
        let wk_opt = self.find_rotation_index(w);
        let wk = match wk_opt {
            Some(x) => x,
            None => {
                proof {
                    assert(self.rotation_index_of(w) == pre.rotation_index_of(w));
                    assert(false);
                }
                return TrickOutcome::Continues;
            },
        };
        proof {
            assert(self.rotation_index_of(w) == pre.rotation_index_of(w));
            assert(wk as int == pre.rotation_index_of(w));
            lemma_points_sum_nonneg(pre.hand(0));
            lemma_points_sum_nonneg(pre.hand(1));
            lemma_points_sum_nonneg(pre.hand(2));
            lemma_points_sum_nonneg(pre.hand(3));
            lemma_table_points_bounds(pre.table_seq());
            lemma_table_points_bounds(t2);
            assert(pre.team_points(0) <= 120 && pre.team_points(1) <= 120);
        }
        let team = if wk % 2 == 0 {
            TeamId::First
        } else {
            TeamId::Second
        };
        if wk % 2 == 0 {
            self.team0.points = self.team0.points + pts;
        } else {
            self.team1.points = self.team1.points + pts;
        }
        self.table = Table::empty();
        self.lead = wk;
        self.tricks_played = self.tricks_played + 1;
        proof {
            assert(self.hand(0) == old(self).hand(0) && self.hand(1) == old(self).hand(1)
                && self.hand(2) == old(self).hand(2) && self.hand(3) == old(self).hand(3));
            assert forall|j: int| 0 <= j < 4 && j != ci implies #[trigger] self.hand(j) == pre.hand(
                j,
            ) by {
                assert(self.hand(j) == old(self).hand(j));
                assert(old(self).hand(j) == pre.hand(j));
            }
            assert(self.hand(ci).to_multiset() == pre.hand(ci).to_multiset().remove(card));
            assert forall|i: int| #[trigger] self.player_id_at(i) == pre.player_id_at(i) by {
                assert(self.player_id_at(i) == old(self).player_id_at(i));
                assert(old(self).player_id_at(i) == pre.player_id_at(i));
            }
            assert(self.player_order@ == pre.player_ids());
            lemma_points_sum_nonneg(self.hand(ci));
            assert(self.table_seq() =~= Seq::<(PlayerId, Card)>::empty());
            assert(table_cards(self.table_seq()) =~= Seq::<Card>::empty());
            assert(table_cards(self.table_seq()).to_multiset().len() == 0);
            assert forall|c: Card| #[trigger] self.cards_in_play().count(c) <= 1 by {
                assert(pre.cards_in_play().count(c) <= 1);
                assert(table_cards(self.table_seq()).to_multiset().count(c) == 0);
                assert(self.hand(ci).to_multiset().count(c) == pre.hand(ci).to_multiset().remove(
                    card,
                ).count(c));
                assert(pre.hand(ci).to_multiset().remove(card).count(c) <= pre.hand(
                    ci,
                ).to_multiset().count(c));
            }
            assert(self.player_order@.len() == 4);
            assert forall|i: int| 0 <= i < 4 implies self.player_order@[i] == self.player_id_at(
                i,
            ) by {
                assert(self.player_id_at(i) == pre.player_id_at(i));
                assert(pre.player_ids()[i] == pre.player_id_at(i));
            }
            assert(forall|i: int, j: int|
                0 <= i < 4 && 0 <= j < 4 && i != j ==> self.player_order@[i]
                    != self.player_order@[j]);
            assert(self.lead < 4);
            assert(self.table@.len() <= 3);
            assert(pre.table_seq().len() == 3);
            assert(pre.hand(ci).len() > 0) by {
                assert(pre.hand(ci).contains(card));
            }
            assert(pre.tricks_played_spec() <= 9);
            assert(self.tricks_played <= 10);
            assert(self.hand(0).len() + self.hand(1).len() + self.hand(2).len() + self.hand(
                3,
            ).len() + self.table@.len() + 4 * self.tricks_played == 40);
            assert(self.hand(0).len() <= 10);
            assert(self.hand(1).len() <= 10);
            assert(self.hand(2).len() <= 10);
            assert(self.hand(3).len() <= 10);
            assert(pts as int == table_points_spec(t2));
            assert(table_points_spec(self.table@) == 0);
            assert(self.team_points(0) + self.team_points(1) + points_sum(self.hand(0))
                + points_sum(self.hand(1)) + points_sum(self.hand(2)) + points_sum(self.hand(3))
                + table_points_spec(self.table@) == 120);
            assert(self.wf());
            assert(self.lead_spec() == pre.rotation_index_of(trick_winner(t2, pre.trump_spec())));
            assert(accepted_play(pre, id, card, *self, Ok(
                TrickOutcome::Completed {
                    winner: w,
                    points: pts,
                    team: if wk % 2 == 0 {
                        TeamId::First
                    } else {
                        TeamId::Second
                    },
                },
            )));
        }
        TrickOutcome::Completed { winner: w, points: pts, team }
    }

    /// Submits one play: `id` claims to play `card`. An unknown player,
    /// a player out of turn, or a card not held is rejected with the
    /// matching error and no state change. An accepted play moves the
    /// card to the table; the trick's fourth play resolves it, awards the
    /// table's points to the winner's team, and makes the winner the next
    /// leader. `play_transition` states the exact effect.
    #[verifier::rlimit(100)]
    pub fn make_play(&mut self, id: PlayerId, card: Card) -> (r: Result<TrickOutcome, SuecaError>)
        requires
            old(self).wf(),
        ensures
            final(self).wf(),
            play_transition(*old(self), id, card, *final(self), r),
    {
        let k_opt = self.find_rotation_index(id);
        let k: usize;
        match k_opt {
            Some(kk) => {
                k = kk;
            },
            None => {
                return Err(SuecaError::UnknownPlayer);
            },
        }
        let cur = (self.lead + self.table.play_number()) % 4;
        proof {
            assert(cur as int == old(self).current_index());
            assert(old(self).player_ids()[k as int] == id);
        }
        if k != cur {
            proof {
                assert(id != old(self).current_player_spec());
            }
            return Err(SuecaError::OutOfTurn);
        }
        proof {
            assert(id == old(self).current_player_spec());
        }
        let took = self.take_card_at(cur, card);
        if !took {
            proof {
                assert(self.hand(0) == old(self).hand(0));
                assert(self.hand(1) == old(self).hand(1));
                assert(self.hand(2) == old(self).hand(2));
                assert(self.hand(3) == old(self).hand(3));
                assert(self.cards_in_play() == old(self).cards_in_play());
                assert(unchanged_state(*old(self), *self));
                assert(self.wf());
            }
            return Err(SuecaError::CardNotHeld);
        }
        let ghost mid = *self;
        self.table.add_card(id, card);
        let ghost pre = *old(self);
        let ghost ci = pre.current_index();
        let ghost t2 = pre.table_seq().push((id, card));
        proof {
            assert(forall|j: int| 0 <= j < 4 && j != ci ==> #[trigger] mid.hand(j) == pre.hand(j));
            assert(mid.hand(ci).to_multiset() == pre.hand(ci).to_multiset().remove(card));
            assert(mid.hand(ci).len() == pre.hand(ci).len() - 1);
            assert(forall|i: int| #[trigger] mid.player_id_at(i) == pre.player_id_at(i));
            assert forall|j: int| 0 <= j < 4 && j != ci implies #[trigger] self.hand(j) == pre.hand(
                j,
            ) by {
                assert(self.hand(j) == mid.hand(j));
                assert(mid.hand(j) == pre.hand(j));
            }
            assert(self.hand(ci) == mid.hand(ci));
            assert forall|i: int| #[trigger] self.player_id_at(i) == pre.player_id_at(i) by {
                assert(self.player_id_at(i) == mid.player_id_at(i));
                assert(mid.player_id_at(i) == pre.player_id_at(i));
            }
            assert(self.table_seq() == t2);
            lemma_table_cards_push(pre.table_seq(), (id, card));
            assert(table_points_spec(t2) == table_points_spec(pre.table_seq()) + points_of(
                card,
            )) by {
                assert(t2.drop_last() =~= pre.table_seq());
            }
            lemma_points_sum_remove_elem(self.hand(ci), pre.hand(ci), card);
        }
        if self.table.play_number() == 4 {
            proof {
                assert(pre.player_ids()[pre.current_index()] == id);
            }
            let out = self.complete_trick(Ghost(pre), id, card);
            Ok(out)
        } else {
            proof {
                assert(t2.len() < 4);
                assert forall|c: Card| #[trigger] self.cards_in_play().count(c) <= 1 by {
                    assert(pre.cards_in_play().count(c) <= 1);
                    assert(table_cards(t2).to_multiset().count(c) == table_cards(
                        pre.table_seq(),
                    ).to_multiset().count(c) + (if c == card {
                        1int
                    } else {
                        0int
                    }));
                    assert(self.hand(ci).to_multiset().count(c) == pre.hand(ci).to_multiset().count(
                        c,
                    ) - (if c == card {
                        1int
                    } else {
                        0int
                    }));
                }
                assert forall|kk: int|
                    0 <= kk < self.table_seq().len() implies self.player_ids().contains(
                    (#[trigger] self.table_seq()[kk]).0,
                ) by {
                    if kk < pre.table_seq().len() {
                        assert(t2[kk] == pre.table_seq()[kk]);
                        assert(pre.player_ids().contains(t2[kk].0));
                    } else {
                        assert(t2[kk].0 == id);
                        assert(pre.player_ids()[k as int] == id);
                    }
                }
                assert(self.player_order@.len() == 4);
                assert forall|i: int| 0 <= i < 4 implies self.player_order@[i] == self.player_id_at(
                    i,
                ) by {
                    assert(self.player_id_at(i) == mid.player_id_at(i));
                    assert(mid.player_id_at(i) == pre.player_id_at(i));
                    assert(pre.player_ids()[i] == pre.player_id_at(i));
                }
                assert(forall|i: int, j: int|
                    0 <= i < 4 && 0 <= j < 4 && i != j ==> self.player_order@[i]
                        != self.player_order@[j]);
                assert(self.lead < 4);
                assert(self.table@.len() <= 3);
                assert(self.tricks_played <= 10);
                assert(self.hand(0).len() + self.hand(1).len() + self.hand(2).len() + self.hand(
                    3,
                ).len() + self.table@.len() + 4 * self.tricks_played == 40);
                assert(self.hand(0).len() <= 10);
                assert(self.hand(1).len() <= 10);
                assert(self.hand(2).len() <= 10);
                assert(self.hand(3).len() <= 10);
                assert(self.team_points(0) + self.team_points(1) + points_sum(self.hand(0))
                    + points_sum(self.hand(1)) + points_sum(self.hand(2)) + points_sum(
                    self.hand(3),
                ) + table_points_spec(self.table@) == 120);
                assert(self.wf());
                assert(accepted_play(pre, id, card, *self, Ok(TrickOutcome::Continues)));
            }
            Ok(TrickOutcome::Continues)
        }
    }

    /// The player whose turn it is. A pure read; it never fails.
    pub fn get_current_player(&self) -> (p: PlayerId)
        requires
            self.wf(),
        ensures
            p == self.current_player_spec(),
    {
        let idx = (self.lead + self.table.play_number()) % 4;
        self.player_order[idx]
    }

    /// The two teams' point totals so far.
    pub fn scores(&self) -> (r: (u32, u32))
        ensures
            r.0 as int == self.team_points(0),
            r.1 as int == self.team_points(1),
    {
        (self.team0.points, self.team1.points)
    }

    /// The trump suit fixed for this hand.
    pub fn trump(&self) -> (s: Suit)
        ensures
            s == self.trump_spec(),
    {
        self.trump
    }

    /// How many tricks of this hand have been completed.
    pub fn tricks_played(&self) -> (n: usize)
        ensures
            n as int == self.tricks_played_spec(),
    {
        self.tricks_played
    }

    /// The four player identities in rotation order.
    pub fn players(&self) -> (r: Vec<PlayerId>)
        requires
            self.wf(),
        ensures
            r@ == self.player_ids(),
    {
        let mut r: Vec<PlayerId> = Vec::new();
        r.push(self.player_order[0]);
        r.push(self.player_order[1]);
        r.push(self.player_order[2]);
        r.push(self.player_order[3]);
        proof {
            assert(r@ =~= self.player_ids());
        }
        r
    }

    /// A copy of the hand of the player with the given identity, if it is
    /// part of this game.
    pub fn hand_of(&self, id: PlayerId) -> (r: Option<Vec<Card>>)
        requires
            self.wf(),
        ensures
            self.rotation_index_of(id) < 0 ==> r is None,
            self.rotation_index_of(id) >= 0 ==> (r matches Some(h) && h@ == self.hand(
                self.rotation_index_of(id),
            )),
    {
        if self.player_order[0] == id {
            Some(self.team0.first.hand())
        } else if self.player_order[1] == id {
            Some(self.team1.first.hand())
        } else if self.player_order[2] == id {
            Some(self.team0.second.hand())
        } else if self.player_order[3] == id {
            Some(self.team1.second.hand())
        } else {
            None
        }
    }
}

/// A lone trump takes the trick, whatever the ranks of the other three
/// cards.
pub proof fn lemma_lone_trump_wins(t: Seq<(PlayerId, Card)>, trump: Suit, k: int)
    requires
        t.len() == 4,
        0 <= k < 4,
        t[k].1.suit == trump,
        forall|j: int| 0 <= j < 4 && j != k ==> (#[trigger] t[j]).1.suit != trump,
    ensures
        trick_winner(t, trump) == t[k].0,
{
    assert(suit_present(t, trump));
    lemma_best_of_suit(t, trump);
    let b = best_of_suit(t, trump);
    assert(t[b].1.suit == trump);
    assert(b == k);
}

/// With no trump on the table, the strictly highest-ranked card of the
/// led suit takes the trick; off-suit cards never do.
pub proof fn lemma_highest_led_wins(t: Seq<(PlayerId, Card)>, trump: Suit, k: int)
    requires
        t.len() == 4,
        forall|j: int| 0 <= j < 4 ==> (#[trigger] t[j]).1.suit != trump,
        0 <= k < 4,
        t[k].1.suit == t[0].1.suit,
        forall|j: int|
            0 <= j < 4 && j != k && (#[trigger] t[j]).1.suit == t[0].1.suit ==> rank_value(
                t[j].1.symbol,
            ) < rank_value(t[k].1.symbol),
    ensures
        trick_winner(t, trump) == t[k].0,
{
    assert(!suit_present(t, trump)) by {
        if suit_present(t, trump) {
            let j = choose|j: int| 0 <= j < t.len() && t[j].1.suit == trump;
            assert((t[j]).1.suit != trump);
        }
    }
    let led = t[0].1.suit;
    assert(winning_suit(t, trump) == led);
    lemma_best_of_suit(t, led);
    let b = best_of_suit(t, led);
    assert(suit_present(t, led)) by {
        assert(t[0].1.suit == led);
    }
    assert(t[b].1.suit == led);
    assert(b == k);
}

/// Point conservation, game side: once all ten tricks of the hand are
/// played, the two teams' totals add up to the deck's 120 points.
pub proof fn lemma_hand_points_total(g: SuecaGame)
    requires
        g.wf(),
        g.tricks_played_spec() == 10,
    ensures
        g.team_points(0) + g.team_points(1) == 120,
{
    assert(g.hand(0).len() == 0 && g.hand(1).len() == 0 && g.hand(2).len() == 0 && g.hand(3).len()
        == 0 && g.table_seq().len() == 0);
    assert(points_sum(g.hand(0)) == 0 && points_sum(g.hand(1)) == 0 && points_sum(g.hand(2)) == 0
        && points_sum(g.hand(3)) == 0);
    assert(table_points_spec(g.table_seq()) == 0);
}

/// A successfully played card leaves every hand: afterwards no player
/// holds it.
pub proof fn lemma_played_card_leaves_hands(
    pre: SuecaGame,
    post: SuecaGame,
    id: PlayerId,
    card: Card,
    r: Result<TrickOutcome, SuecaError>,
)
    requires
        pre.wf(),
        play_transition(pre, id, card, post, r),
        r is Ok,
    ensures
        forall|j: int| 0 <= j < 4 ==> !(#[trigger] post.hand(j)).contains(card),
{
    let ci = pre.current_index();
    assert(0 <= ci < 4);
    assert(pre.hand(ci).contains(card));
    assert(pre.hand(ci).to_multiset().count(card) > 0);
    assert(pre.cards_in_play().count(card) <= 1);
    assert(ci == 0 || ci == 1 || ci == 2 || ci == 3);
    assert forall|j: int| 0 <= j < 4 implies !(#[trigger] post.hand(j)).contains(card) by {
        if j == ci {
            assert(post.hand(ci).to_multiset().count(card) == pre.hand(ci).to_multiset().remove(
                card,
            ).count(card));
            assert(post.hand(ci).to_multiset().count(card) == 0);
        } else {
            assert(post.hand(j) == pre.hand(j));
            assert(pre.hand(j).to_multiset().count(card) == 0);
        }
    }
}

/// Hands never gain a card: one held by nobody before a play, whatever
/// that play was, is held by nobody after it.
pub proof fn lemma_absent_card_stays_absent(
    pre: SuecaGame,
    post: SuecaGame,
    id: PlayerId,
    played: Card,
    r: Result<TrickOutcome, SuecaError>,
    c: Card,
)
    requires
        play_transition(pre, id, played, post, r),
        forall|j: int| 0 <= j < 4 ==> !(#[trigger] pre.hand(j)).contains(c),
    ensures
        forall|j: int| 0 <= j < 4 ==> !(#[trigger] post.hand(j)).contains(c),
{
    let ci = pre.current_index();
    assert(0 <= ci < 4);
    assert forall|j: int| 0 <= j < 4 implies !(#[trigger] post.hand(j)).contains(c) by {
        assert(!pre.hand(j).contains(c));
        assert(pre.hand(j).to_multiset().count(c) == 0);
        if post.hand(j) != pre.hand(j) {
            assert(j == ci);
            assert(post.hand(ci).to_multiset().count(c) == pre.hand(ci).to_multiset().remove(
                played,
            ).count(c));
            assert(post.hand(j).to_multiset().count(c) == 0);
        } else {
            assert(post.hand(j).to_multiset().count(c) == 0);
        }
    }
}

/// A card that nobody holds cannot be played: the request is rejected and
/// the engine is unchanged. Together with the two lemmas above, a card
/// once played can never be played again for the rest of the hand.
pub proof fn lemma_absent_card_rejected(
    pre: SuecaGame,
    post: SuecaGame,
    id: PlayerId,
    c: Card,
    r: Result<TrickOutcome, SuecaError>,
)
    requires
        play_transition(pre, id, c, post, r),
        forall|j: int| 0 <= j < 4 ==> !(#[trigger] pre.hand(j)).contains(c),
    ensures
        r is Err,
        unchanged_state(pre, post),
{
    let ci = pre.current_index();
    assert(0 <= ci < 4);
    assert(!pre.hand(ci).contains(c));
}

/// A play of a card the acting player does not hold is rejected as
/// CardNotHeld, and hands, table and scores are left unchanged.
pub proof fn lemma_card_not_held_rejected(
    pre: SuecaGame,
    post: SuecaGame,
    id: PlayerId,
    card: Card,
    r: Result<TrickOutcome, SuecaError>,
)
    requires
        play_transition(pre, id, card, post, r),
        pre.rotation_index_of(id) >= 0,
        id == pre.current_player_spec(),
        !pre.hand(pre.current_index()).contains(card),
    ensures
        r == Err::<TrickOutcome, SuecaError>(SuecaError::CardNotHeld),
        unchanged_state(pre, post),
{
}

/// A play submitted by a known player whose turn it is not is rejected as
/// OutOfTurn, and all state is left unchanged.
pub proof fn lemma_out_of_turn_rejected(
    pre: SuecaGame,
    post: SuecaGame,
    id: PlayerId,
    card: Card,
    r: Result<TrickOutcome, SuecaError>,
)
    requires
        play_transition(pre, id, card, post, r),
        pre.rotation_index_of(id) >= 0,
        id != pre.current_player_spec(),
    ensures
        r == Err::<TrickOutcome, SuecaError>(SuecaError::OutOfTurn),
        unchanged_state(pre, post),
{
}

} // verus!
