//! The rule engine: what a move does to a game, and when it is refused.

use vstd::prelude::*;

use rand::seq::SliceRandom;
use std::collections::HashMap;

use crate::game::{
    beats, empty_game, full_deck, install_outcome, lemma_full_deck_distinct, lobby_wf, new_deck,
    start_check, starts_game, Card, GameState, GameStateView, RoomView,
};
use crate::network::{AnswerView, ClientHash, DurakError, DurakErrorType, GameAction, Reply, TargetView};

verus! {

/// The outcome of a move as mathematical values: the next state, or the error.
pub open spec fn outcome_view(r: Result<GameState, DurakError>) -> Result<
    GameStateView,
    (DurakErrorType, Seq<char>),
> {
    match r {
        Ok(s) => Ok(s@),
        Err(e) => Err(e@),
    }
}

/// A ruleset: the single operation through which tables run their games.
pub trait GameRules {
    /// Whether `next` is an outcome that this ruleset allows when `origin` performs
    /// `action` on `state` at a table seated by `players`.
    spec fn allows(
        &self,
        origin: ClientHash,
        state: GameStateView,
        players: Seq<ClientHash>,
        action: GameAction,
        next: Result<GameStateView, (DurakErrorType, Seq<char>)>,
    ) -> bool;

    /// Performs `action` for `origin`. On success the state is updated and a copy of
    /// it returned; on an error the state is left as it was.
    fn apply(
        &self,
        origin: &ClientHash,
        state: &mut GameState,
        players: &Vec<ClientHash>,
        action: GameAction,
    ) -> (r: Result<GameState, DurakError>)
        ensures
            self.allows(*origin, old(state)@, players@, action, outcome_view(r)),
            match r {
                Ok(s) => final(state)@ == s@,
                Err(_) => final(state)@ == old(state)@,
            },
    ;
}

/// The hands dealt to `players` from the end of `deck`, `n` cards each: the first
/// player takes the last `n` cards, the next player the `n` before them, and so on.
pub open spec fn deal_hands(deck: Seq<Card>, players: Seq<ClientHash>, n: nat) -> Map<
    ClientHash,
    Seq<Card>,
>
    decreases players.len(),
{
    if players.len() == 0 {
        Map::empty()
    } else {
        let k = players.len() - 1;
        deal_hands(deck, players.drop_last(), n).insert(
            players[k],
            deck.subrange(deck.len() - n * (k + 1), deck.len() - n * k),
        )
    }
}

/// The game that dealing `deck` to `players`, `n` cards each, starts: the rest of the
/// deck is the draw pile, its last card names the trump, the first player attacks,
/// the second defends and the third is the neighbour.
pub open spec fn deal_outcome(deck: Seq<Card>, players: Seq<ClientHash>, n: nat) -> Result<
    GameStateView,
    (DurakErrorType, Seq<char>),
> {
    if players.len() * n > deck.len() {
        Err((DurakErrorType::GameError, "Not enough cards to deal."@))
    } else {
        let pile = deck.take(deck.len() - players.len() * n);
        Ok(
            GameStateView {
                hands: deal_hands(deck, players, n),
                stacks: Seq::empty(),
                draw_pile: pile,
                trump: if pile.len() > 0 {
                    Some(pile.last().suite)
                } else {
                    None
                },
                target: if players.len() > 1 {
                    Some(players[1])
                } else {
                    None
                },
                attacker: if players.len() > 0 {
                    Some(players[0])
                } else {
                    None
                },
                neighbor: if players.len() > 2 {
                    Some(players[2])
                } else {
                    None
                },
                discard_pile: Seq::empty(),
                loser: None,
            },
        )
    }
}

/// `s` without any element equal to `x`.
pub open spec fn remove_all<T>(s: Seq<T>, x: T) -> Seq<T>
    decreases s.len(),
{
    if s.len() == 0 {
        s
    } else if s.last() == x {
        remove_all(s.drop_last(), x)
    } else {
        remove_all(s.drop_last(), x).push(s.last())
    }
}

/// Number of stacks whose attack has not been answered yet.
pub open spec fn undefended(stacks: Seq<(Card, Option<Card>)>) -> nat
    decreases stacks.len(),
{
    if stacks.len() == 0 {
        0
    } else {
        undefended(stacks.drop_last()) + if stacks.last().1 is None {
            1nat
        } else {
            0nat
        }
    }
}

pub open spec fn game_err(m: Seq<char>) -> Result<GameStateView, (DurakErrorType, Seq<char>)> {
    Err((DurakErrorType::GameError, m))
}

/// `s` after `origin` moved `card` from their hand onto the table as `stacks`.
pub open spec fn with_card_played(
    s: GameStateView,
    origin: ClientHash,
    card: Card,
    stacks: Seq<(Card, Option<Card>)>,
) -> GameStateView {
    GameStateView {
        hands: s.hands.insert(origin, remove_all(s.hands[origin], card)),
        stacks: stacks,
        draw_pile: s.draw_pile,
        trump: s.trump,
        target: s.target,
        attacker: s.attacker,
        neighbor: s.neighbor,
        discard_pile: s.discard_pile,
        loser: s.loser,
    }
}

/// Defending: only the defender may answer, the stack must exist and be open,
/// and the card must beat the attacking card under the trump.
pub open spec fn defend_outcome(origin: ClientHash, s: GameStateView, card: Card, i: int) -> Result<
    GameStateView,
    (DurakErrorType, Seq<char>),
> {
    if s.target != Some(origin) {
        game_err("Only target player can defend."@)
    } else if i >= s.stacks.len() {
        game_err("Stack not found."@)
    } else if s.stacks[i].1 is Some {
        game_err("Card already defended."@)
    } else if s.trump is None {
        game_err("No trump suite defined."@)
    } else if beats(card, s.stacks[i].0, s.trump->0) == Some(false) {
        game_err("Defending is only possible with better card."@)
    } else if beats(card, s.stacks[i].0, s.trump->0) is None {
        game_err("Defending is only possible with matching card."@)
    } else if !s.hands[origin].contains(card) {
        game_err("Card not found."@)
    } else {
        Ok(with_card_played(s, origin, card, s.stacks.update(i, (s.stacks[i].0, Some(card)))))
    }
}

/// Attacking: the attacker opens the round, after which the neighbour may join;
/// the defender is never asked to answer more open stacks than cards in hand.
pub open spec fn attack_outcome(origin: ClientHash, s: GameStateView, card: Card) -> Result<
    GameStateView,
    (DurakErrorType, Seq<char>),
> {
    if s.stacks.len() == 0 && s.attacker != Some(origin) {
        game_err("Only attacking player can start."@)
    } else if s.attacker != Some(origin) && s.neighbor != Some(origin) {
        game_err("Only attacking player and neighbor can start a new stack."@)
    } else if undefended(s.stacks) >= s.hands[s.target->0].len() {
        game_err("No more stacks than cards allowed"@)
    } else if !s.hands[origin].contains(card) {
        game_err("Card not found."@)
    } else {
        Ok(with_card_played(s, origin, card, s.stacks.push((card, None))))
    }
}

/// What putting `card` on the table does: a new attack when `stack` is `None`,
/// the defence of that stack otherwise.
pub open spec fn put_outcome(
    origin: ClientHash,
    s: GameStateView,
    card: Card,
    stack: Option<usize>,
) -> Result<GameStateView, (DurakErrorType, Seq<char>)> {
    if s.target is None {
        game_err("No target player."@)
    } else if !s.hands.contains_key(s.target->0) {
        game_err("Target player cards not found."@)
    } else if !s.hands.contains_key(origin) {
        game_err("Player not found."@)
    } else {
        match stack {
            Some(i) => defend_outcome(origin, s, card, i as int),
            None => attack_outcome(origin, s, card),
        }
    }
}


/// How many cards a hand draws from `pile` to hold `n` again.
pub open spec fn draw_count(hand: Seq<Card>, pile: Seq<Card>, n: nat) -> nat {
    if hand.len() >= n {
        0
    } else if pile.len() < n - hand.len() {
        pile.len()
    } else {
        (n - hand.len()) as nat
    }
}

/// Hands and draw pile after the players of `order`, first to last, each drew from
/// the end of the pile until they hold `n` cards or the pile runs out.
pub open spec fn refill(
    hands: Map<ClientHash, Seq<Card>>,
    pile: Seq<Card>,
    order: Seq<ClientHash>,
    n: nat,
) -> (Map<ClientHash, Seq<Card>>, Seq<Card>)
    decreases order.len(),
{
    if order.len() == 0 {
        (hands, pile)
    } else {
        let (h, p) = refill(hands, pile, order.drop_last(), n);
        let who = order.last();
        if h.contains_key(who) {
            let k = draw_count(h[who], p, n);
            (h.insert(who, h[who] + p.subrange(p.len() - k, p.len() as int)), p.take(p.len() - k))
        } else {
            (h, p)
        }
    }
}

/// The seated players in playing order, starting at seat `a`.
pub open spec fn seats_from(players: Seq<ClientHash>, a: int) -> Seq<ClientHash> {
    Seq::new(players.len(), |i: int| players[(a + i) % (players.len() as int)])
}

/// The first seat, from seat `i` on and going round, whose player holds cards,
/// looking at `k` seats at most.
pub open spec fn next_holder(
    players: Seq<ClientHash>,
    hands: Map<ClientHash, Seq<Card>>,
    i: int,
    k: nat,
) -> Option<int>
    decreases k,
{
    if k == 0 || players.len() == 0 {
        None
    } else {
        let j = i % (players.len() as int);
        if hands.contains_key(players[j]) && hands[players[j]].len() > 0 {
            Some(j)
        } else {
            next_holder(players, hands, j + 1, (k - 1) as nat)
        }
    }
}

/// The first seat of `p`.
pub open spec fn seat_of(players: Seq<ClientHash>, p: ClientHash) -> Option<int>
    decreases players.len(),
{
    if players.len() == 0 {
        None
    } else if players[0] == p {
        Some(0)
    } else {
        match seat_of(players.drop_first(), p) {
            Some(i) => Some(i + 1),
            None => None,
        }
    }
}

pub open spec fn with_roles(
    s: GameStateView,
    attacker: Option<ClientHash>,
    target: Option<ClientHash>,
    neighbor: Option<ClientHash>,
    loser: Option<ClientHash>,
) -> GameStateView {
    GameStateView {
        hands: s.hands,
        stacks: s.stacks,
        draw_pile: s.draw_pile,
        trump: s.trump,
        target: target,
        attacker: attacker,
        neighbor: neighbor,
        discard_pile: s.discard_pile,
        loser: loser,
    }
}

/// The roles of the next round, among the players who still hold cards: the first
/// of them from seat `start` on attacks, the next one defends, and the one after the
/// defender, short of the attacker, is the neighbour. With one player left holding
/// cards the game is over and that player has lost; with none it is a draw.
pub open spec fn next_roles(s: GameStateView, players: Seq<ClientHash>, start: int) -> GameStateView {
    let n = players.len();
    match next_holder(players, s.hands, start, n) {
        None => with_roles(s, None, None, None, None),
        Some(a) => match next_holder(players, s.hands, a + 1, (n - 1) as nat) {
            None => with_roles(s, None, None, None, Some(players[a])),
            Some(d) => {
                let gap = ((a - d - 1 + n) % (n as int)) as nat;
                let nb = match next_holder(players, s.hands, d + 1, gap) {
                    Some(x) => Some(players[x]),
                    None => None,
                };
                with_roles(s, Some(players[a]), Some(players[d]), nb, None)
            },
        },
    }
}

/// Closing a round: the defender takes the table into their hand (`took`), or the
/// attacker discards a fully defended table; then everybody draws up to `n` cards,
/// starting with the attacker, and the next round starts with the player after the
/// defender if the defender took, with the defender otherwise.
pub open spec fn resolve_outcome(
    origin: ClientHash,
    s: GameStateView,
    players: Seq<ClientHash>,
    n: nat,
    took: bool,
) -> Result<GameStateView, (DurakErrorType, Seq<char>)> {
    if s.attacker is None || s.target is None {
        game_err("No round running."@)
    } else if took && s.target != Some(origin) {
        game_err("Only target player can take the cards."@)
    } else if !took && s.attacker != Some(origin) {
        game_err("Only attacking player can end the round."@)
    } else if s.stacks.len() == 0 {
        game_err("No cards on the table."@)
    } else if !took && undefended(s.stacks) > 0 {
        game_err("Not all stacks are defended."@)
    } else {
        match (seat_of(players, s.attacker->0), seat_of(players, s.target->0)) {
            (Some(a), Some(d)) => {
                let target = s.target->0;
                let table = stack_cards(s.stacks);
                let hands = if took {
                    s.hands.insert(
                        target,
                        (if s.hands.contains_key(target) {
                            s.hands[target]
                        } else {
                            Seq::empty()
                        }) + table,
                    )
                } else {
                    s.hands
                };
                let (refilled, pile) = refill(hands, s.draw_pile, seats_from(players, a), n);
                let cleared = GameStateView {
                    hands: refilled,
                    stacks: Seq::empty(),
                    draw_pile: pile,
                    trump: s.trump,
                    target: s.target,
                    attacker: s.attacker,
                    neighbor: s.neighbor,
                    discard_pile: if took {
                        s.discard_pile
                    } else {
                        s.discard_pile + table
                    },
                    loser: s.loser,
                };
                Ok(
                    next_roles(
                        cleared,
                        players,
                        if took {
                            d + 1
                        } else {
                            d
                        },
                    ),
                )
            },
            _ => game_err("Player not seated."@),
        }
    }
}

/// The cards on the table, in the order of `stack_cards`.
fn table_cards(stacks: &Vec<(Card, Option<Card>)>) -> (r: Vec<Card>)
    ensures
        r@ == stack_cards(stacks@),
{
    let mut r: Vec<Card> = Vec::new();
    let mut i: usize = 0;
    while i < stacks.len()
        invariant
            i <= stacks@.len(),
            r@ == stack_cards(stacks@.take(i as int)),
        decreases stacks@.len() - i,
    {
        let ghost p = stacks@.take(i + 1);
        assert(p.drop_last() =~= stacks@.take(i as int));
        let (attack, defence) = stacks[i];
        r.push(attack);
        match defence {
            Some(d) => r.push(d),
            None => {},
        }
        i = i + 1;
        assert(r@ =~= stack_cards(p));
    }
    assert(stacks@.take(stacks@.len() as int) =~= stacks@);
    r
}

proof fn lemma_seat_of(players: Seq<ClientHash>, p: ClientHash, i: int)
    requires
        0 <= i <= players.len(),
        forall|j: int| 0 <= j < i ==> players[j] != p,
        i == players.len() || players[i] == p,
    ensures
        seat_of(players, p) == if i < players.len() {
            Some(i)
        } else {
            None::<int>
        },
    decreases i,
{
    if i > 0 {
        lemma_seat_of(players.drop_first(), p, i - 1);
    }
}

fn find_seat(players: &Vec<ClientHash>, p: ClientHash) -> (r: Option<usize>)
    ensures
        match r {
            Some(i) => i < players@.len() && seat_of(players@, p) == Some(i as int),
            None => seat_of(players@, p) is None,
        },
{
    let mut i: usize = 0;
    while i < players.len()
        invariant
            i <= players@.len(),
            forall|j: int| 0 <= j < i ==> players@[j] != p,
        decreases players@.len() - i,
    {
        if players[i] == p {
            proof {
                lemma_seat_of(players@, p, i as int);
            }
            return Some(i);
        }
        i = i + 1;
    }
    proof {
        lemma_seat_of(players@, p, i as int);
    }
    None
}

fn find_holder(
    players: &Vec<ClientHash>,
    hands: &HashMap<ClientHash, Vec<Card>>,
    i: usize,
    k: usize,
) -> (r: Option<usize>)
    requires
        i <= players@.len(),
    ensures
        match r {
            Some(j) => j < players@.len() && next_holder(
                players@,
                hands@.map_values(|h: Vec<Card>| h@),
                i as int,
                k as nat,
            ) == Some(j as int),
            None => next_holder(players@, hands@.map_values(|h: Vec<Card>| h@), i as int, k as nat)
                is None,
        },
    decreases k,
{
    if k == 0 || players.len() == 0 {
        return None;
    }
    let j = i % players.len();
    let holds = match hands.get(&players[j]) {
        Some(h) => h.len() > 0,
        None => false,
    };
    if holds {
        Some(j)
    } else {
        find_holder(players, hands, j + 1, k - 1)
    }
}


/// The seats in playing order from seat `a`.
fn seats_from_exec(players: &Vec<ClientHash>, a: usize) -> (r: Vec<ClientHash>)
    requires
        a < players@.len(),
    ensures
        r@ == seats_from(players@, a as int),
{
    let n = players.len();
    let mut r: Vec<ClientHash> = Vec::new();
    let mut i: usize = 0;
    while i < n
        invariant
            n == players@.len(),
            a < n,
            i <= n,
            r@ == seats_from(players@, a as int).take(i as int),
        decreases n - i,
    {
        let idx = if i < n - a {
            a + i
        } else {
            i - (n - a)
        };
        assert((a + i) % (n as int) == idx) by (nonlinear_arith)
            requires
                a < n,
                i < n,
                idx == if i < n - a {
                    a + i
                } else {
                    i - (n - a)
                },
        ;
        r.push(players[idx]);
        i = i + 1;
        assert(r@ =~= seats_from(players@, a as int).take(i as int));
    }
    assert(seats_from(players@, a as int).take(n as int) =~= seats_from(players@, a as int));
    r
}

/// Lets the players of `order`, first to last, draw from the end of `pile` until they
/// hold `n` cards or the pile runs out.
fn refill_hands(
    hands: &mut HashMap<ClientHash, Vec<Card>>,
    pile: &mut Vec<Card>,
    order: &Vec<ClientHash>,
    n: usize,
)
    ensures
        (final(hands)@.map_values(|h: Vec<Card>| h@), final(pile)@) == refill(
            old(hands)@.map_values(|h: Vec<Card>| h@),
            old(pile)@,
            order@,
            n as nat,
        ),
{
    let ghost h0 = hands@.map_values(|h: Vec<Card>| h@);
    let ghost p0 = pile@;
    let mut i: usize = 0;
    assert(order@.take(0) =~= Seq::<ClientHash>::empty());
    while i < order.len()
        invariant
            i <= order@.len(),
            (hands@.map_values(|h: Vec<Card>| h@), pile@) == refill(
                h0,
                p0,
                order@.take(i as int),
                n as nat,
            ),
        decreases order@.len() - i,
    {
        let ghost q = order@.take(i + 1);
        assert(q.drop_last() =~= order@.take(i as int));
        let who = order[i];
        let ghost before = hands@.map_values(|h: Vec<Card>| h@);
        match hands.remove(&who) {
            Some(mut hand) => {
                let k: usize = if hand.len() >= n {
                    0
                } else if pile.len() < n - hand.len() {
                    pile.len()
                } else {
                    n - hand.len()
                };
                let at = pile.len() - k;
                let mut drawn = pile.split_off(at);
                hand.append(&mut drawn);
                hands.insert(who, hand);
                assert(hands@.map_values(|h: Vec<Card>| h@) =~= before.insert(who, hand@));
            },
            None => {
                assert(hands@.map_values(|h: Vec<Card>| h@) =~= before);
            },
        }
        i = i + 1;
    }
    assert(order@.take(order@.len() as int) =~= order@);
}

/// Relies on `rand::seq::SliceRandom::shuffle` (rand 0.8) with the thread-local
/// generator: it only swaps elements, so the cards come out permuted.
#[verifier::external_body]
fn shuffle_cards(cards: &mut Vec<Card>)
    ensures
        final(cards)@.len() == old(cards)@.len(),
        final(cards)@.to_multiset() == old(cards)@.to_multiset(),
{
    cards.shuffle(&mut rand::thread_rng());
}

/// `hand` without `card`, and whether `hand` held it.
fn remove_card(hand: &Vec<Card>, card: Card) -> (r: (Vec<Card>, bool))
    ensures
        r.0@ == remove_all(hand@, card),
        r.1 == hand@.contains(card),
{
    let mut rest: Vec<Card> = Vec::new();
    let mut found = false;
    let mut i: usize = 0;
    while i < hand.len()
        invariant
            i <= hand@.len(),
            rest@ == remove_all(hand@.take(i as int), card),
            found == hand@.take(i as int).contains(card),
        decreases hand@.len() - i,
    {
        let ghost p = hand@.take(i + 1);
        assert(p.drop_last() =~= hand@.take(i as int));
        if hand[i] == card {
            found = true;
        } else {
            rest.push(hand[i]);
        }
        i = i + 1;
        proof {
            assert(p.last() == hand@[i - 1]);
            if found && !hand@.take(i - 1).contains(card) {
                assert(p[i - 1] == card);
            }
            if p.contains(card) {
                let j = choose|j: int| 0 <= j < p.len() && p[j] == card;
                if j < i - 1 {
                    assert(hand@.take(i - 1)[j] == card);
                }
            }
        }
    }
    assert(hand@.take(hand@.len() as int) =~= hand@);
    (rest, found)
}

fn count_undefended(stacks: &Vec<(Card, Option<Card>)>) -> (r: usize)
    ensures
        r == undefended(stacks@),
{
    let mut n: usize = 0;
    let mut i: usize = 0;
    while i < stacks.len()
        invariant
            i <= stacks@.len(),
            n == undefended(stacks@.take(i as int)),
            n <= i,
        decreases stacks@.len() - i,
    {
        let ghost p = stacks@.take(i + 1);
        assert(p.drop_last() =~= stacks@.take(i as int));
        if stacks[i].1.is_none() {
            n = n + 1;
        }
        i = i + 1;
    }
    assert(stacks@.take(stacks@.len() as int) =~= stacks@);
    n
}

/// The ruleset of this server: five cards to each player from a shuffled 36-card
/// deck, then attacks and defences checked card by card.
#[derive(Clone, Copy, Debug)]
pub struct DefaultRules {
    cards_per_player: usize,
}

impl DefaultRules {
    /// How many cards each player is dealt.
    pub closed spec fn hand_size(&self) -> nat {
        self.cards_per_player as nat
    }

    pub fn new() -> (r: DefaultRules)
        ensures
            r.hand_size() == 5,
    {
        DefaultRules { cards_per_player: 5 }
    }

    /// Deals a freshly shuffled deck to `players`.
    fn deal(&self, players: &Vec<ClientHash>) -> (r: Result<GameState, DurakError>)
        ensures
            exists|deck: Seq<Card>|
                #![trigger deal_outcome(deck, players@, self.hand_size())]
                deck.to_multiset() == full_deck().to_multiset() && outcome_view(r)
                    == deal_outcome(deck, players@, self.hand_size()),
    {
        let mut cards = new_deck();
        shuffle_cards(&mut cards);
        assert(cards@.to_multiset() == full_deck().to_multiset());
        self.deal_deck(cards, players)
    }

    /// Deals `cards`, as they lie, to `players`: each takes its hand from the end of
    /// the deck, and the rest is the draw pile.
    pub fn deal_deck(&self, cards: Vec<Card>, players: &Vec<ClientHash>) -> (r: Result<
        GameState,
        DurakError,
    >)
        ensures
            outcome_view(r) == deal_outcome(cards@, players@, self.hand_size()),
    {
        let mut cards = cards;
        let ghost deck = cards@;
        let n = self.cards_per_player;
        let len = cards.len();
        let pl = players.len();
        assert((pl as int) * (n as int) <= 0xffff_ffff_ffff_ffffint * 0xffff_ffff_ffff_ffffint)
            by (nonlinear_arith)
            requires
                pl <= 0xffff_ffff_ffff_ffffint,
                n <= 0xffff_ffff_ffff_ffffint,
        ;
        if pl as u128 * n as u128 > len as u128 {
            let r = Err(DurakError::game("Not enough cards to deal."));
            assert(outcome_view(r) == deal_outcome(deck, players@, self.hand_size()));
            return r;
        }
        assert(n * pl <= len) by (nonlinear_arith)
            requires
                (pl as int) * (n as int) <= len,
        ;
        let mut hands: HashMap<ClientHash, Vec<Card>> = HashMap::new();
        let mut i: usize = 0;
        assert(hands@.map_values(|h: Vec<Card>| h@) =~= deal_hands(
            deck,
            players@.take(0),
            n as nat,
        ));
        assert(cards@ =~= deck.take(len - n * 0));
        while i < players.len()
            invariant
                i <= players@.len(),
                len == deck.len(),
                n * players@.len() <= len,
                cards@ == deck.take(len - n * i),
                hands@.map_values(|h: Vec<Card>| h@) == deal_hands(
                    deck,
                    players@.take(i as int),
                    n as nat,
                ),
            decreases players@.len() - i,
        {
            assert(n * (i + 1) == n * i + n && n * (i + 1) <= n * players@.len()) by (
            nonlinear_arith)
                requires
                    i < players@.len(),
            ;
            assert(cards@.len() == len - n * i);
            let at = cards.len() - n;
            assert(at == len - n * (i + 1));
            let hand = cards.split_off(at);
            let ghost old_hands = hands@;
            hands.insert(players[i], hand);
            proof {
                let q = players@.take(i + 1);
                assert(q.drop_last() =~= players@.take(i as int));
                assert(q[i as int] == players@[i as int]);
                assert(hand@ =~= deck.subrange(len - n * (i + 1), len - n * i));
                assert(hands@.map_values(|h: Vec<Card>| h@) =~= old_hands.map_values(
                    |h: Vec<Card>| h@,
                ).insert(players@[i as int], hand@));
                assert(cards@ =~= deck.take(len - n * (i + 1)));
            }
            i = i + 1;
        }
        assert(players@.take(players@.len() as int) =~= players@);
        let trump = if cards.len() > 0 {
            Some(cards[cards.len() - 1].suite)
        } else {
            None
        };
        let target = if players.len() > 1 {
            Some(players[1])
        } else {
            None
        };
        let attacker = if players.len() > 0 {
            Some(players[0])
        } else {
            None
        };
        let neighbor = if players.len() > 2 {
            Some(players[2])
        } else {
            None
        };
        let state = GameState {
            player_cards: hands,
            table_stacks: Vec::new(),
            card_stack: cards,
            trump: trump,
            target_player: target,
            attack_player: attacker,
            neighbor_player: neighbor,
            discard_pile: Vec::new(),
            loser: None,
        };
        let r = Ok(state);
        assert(outcome_view(r) == deal_outcome(deck, players@, self.hand_size()));
        r
    }

    /// Closes the round: the defender takes the table (`took`), or the attacker
    /// discards it; then hands are refilled and the roles move on.
    fn resolve(&self, origin: &ClientHash, state: &mut GameState, players: &Vec<ClientHash>, took: bool) -> (r: Result<GameState, DurakError>)
        ensures
            outcome_view(r) == resolve_outcome(*origin, old(state)@, players@, self.hand_size(), took),
            match r {
                Ok(s) => final(state)@ == s@,
                Err(_) => final(state)@ == old(state)@,
            },
    {
        let ghost s0 = state@;
        let (attacker, target) = match (state.attack_player, state.target_player) {
            (Some(a), Some(t)) => (a, t),
            _ => return Err(DurakError::game("No round running.")),
        };
        if took && target != *origin {
            return Err(DurakError::game("Only target player can take the cards."));
        }
        if !took && attacker != *origin {
            return Err(DurakError::game("Only attacking player can end the round."));
        }
        if state.table_stacks.len() == 0 {
            return Err(DurakError::game("No cards on the table."));
        }
        if !took && count_undefended(&state.table_stacks) > 0 {
            return Err(DurakError::game("Not all stacks are defended."));
        }
        let (a, d) = match (find_seat(players, attacker), find_seat(players, target)) {
            (Some(a), Some(d)) => (a, d),
            _ => return Err(DurakError::game("Player not seated.")),
        };
        let mut table = table_cards(&state.table_stacks);
        let ghost table_v = table@;
        if took {
            let mut hand = match state.player_cards.remove(&target) {
                Some(h) => h,
                None => Vec::new(),
            };
            hand.append(&mut table);
            state.player_cards.insert(target, hand);
        } else {
            state.discard_pile.append(&mut table);
        }
        state.table_stacks = Vec::new();
        let ghost hands1 = state.player_cards@.map_values(|h: Vec<Card>| h@);
        proof {
            let expected = if took {
                s0.hands.insert(
                    target,
                    (if s0.hands.contains_key(target) {
                        s0.hands[target]
                    } else {
                        Seq::empty()
                    }) + table_v,
                )
            } else {
                s0.hands
            };
            assert(hands1 =~= expected);
        }
        let order = seats_from_exec(players, a);
        refill_hands(&mut state.player_cards, &mut state.card_stack, &order, self.cards_per_player);
        let n = players.len();
        let start = if took {
            d + 1
        } else {
            d
        };
        let ghost cleared = state@;
        match find_holder(players, &state.player_cards, start, n) {
            None => {
                state.attack_player = None;
                state.target_player = None;
                state.neighbor_player = None;
                state.loser = None;
            },
            Some(na) => match find_holder(players, &state.player_cards, na + 1, n - 1) {
                None => {
                    state.attack_player = None;
                    state.target_player = None;
                    state.neighbor_player = None;
                    state.loser = Some(players[na]);
                },
                Some(nd) => {
                    let gap = if na > nd {
                        na - nd - 1
                    } else {
                        na + (n - nd) - 1
                    };
                    assert(gap as int == (na - nd - 1 + n) % (n as int)) by (nonlinear_arith)
                        requires
                            na < n,
                            nd < n,
                            gap == if na > nd {
                                na - nd - 1
                            } else {
                                na + (n - nd) - 1
                            },
                    ;
                    let nb = match find_holder(players, &state.player_cards, nd + 1, gap) {
                        Some(x) => Some(players[x]),
                        None => None,
                    };
                    state.attack_player = Some(players[na]);
                    state.target_player = Some(players[nd]);
                    state.neighbor_player = nb;
                    state.loser = None;
                },
            },
        }
        proof {
            let start_i: int = if took {
                d + 1
            } else {
                d as int
            };
            assert(start == start_i);
        }
        Ok(state.snapshot())
    }

    /// Puts `card` from the hand of `origin` on the table.
    fn put_card(&self, origin: &ClientHash, state: &mut GameState, card: Card, stack: Option<usize>) -> (r: Result<GameState, DurakError>)
        ensures
            outcome_view(r) == put_outcome(*origin, old(state)@, card, stack),
            match r {
                Ok(s) => final(state)@ == s@,
                Err(_) => final(state)@ == old(state)@,
            },
    {
        let ghost s0 = state@;
        let target = match state.target_player {
            Some(p) => p,
            None => return Err(DurakError::game("No target player.")),
        };
        let target_num_cards = match state.player_cards.get(&target) {
            Some(cards) => cards.len(),
            None => return Err(DurakError::game("Target player cards not found.")),
        };
        let (rest, found) = match state.player_cards.get(origin) {
            Some(cards) => remove_card(cards, card),
            None => return Err(DurakError::game("Player not found.")),
        };
        assert(s0.hands[*origin] == state.player_cards@[*origin]@);
        assert(s0.hands[target] == state.player_cards@[target]@);
        match stack {
            Some(ind) => {
                if target != *origin {
                    return Err(DurakError::game("Only target player can defend."));
                }
                if ind >= state.table_stacks.len() {
                    return Err(DurakError::game("Stack not found."));
                }
                let (attack, defence) = state.table_stacks[ind];
                if defence.is_some() {
                    return Err(DurakError::game("Card already defended."));
                }
                let trump = match state.trump {
                    Some(t) => t,
                    None => return Err(DurakError::game("No trump suite defined.")),
                };
                match card.better_as(attack, trump) {
                    Some(false) => {
                        return Err(
                            DurakError::game("Defending is only possible with better card."),
                        );
                    },
                    None => {
                        return Err(
                            DurakError::game("Defending is only possible with matching card."),
                        );
                    },
                    Some(true) => {},
                }
                if !found {
                    return Err(DurakError::game("Card not found."));
                }
                let ghost old_cards = state.player_cards@;
                state.player_cards.insert(*origin, rest);
                state.table_stacks.set(ind, (attack, Some(card)));
                proof {
                    assert(state.player_cards@.map_values(|h: Vec<Card>| h@) =~= old_cards.map_values(
                        |h: Vec<Card>| h@,
                    ).insert(*origin, rest@));
                }
            },
            None => {
                let is_attacker = match state.attack_player {
                    Some(p) => p == *origin,
                    None => false,
                };
                let is_neighbor = match state.neighbor_player {
                    Some(p) => p == *origin,
                    None => false,
                };
                if state.table_stacks.len() == 0 && !is_attacker {
                    return Err(DurakError::game("Only attacking player can start."));
                }
                if !is_attacker && !is_neighbor {
                    return Err(
                        DurakError::game(
                            "Only attacking player and neighbor can start a new stack.",
                        ),
                    );
                }
                if count_undefended(&state.table_stacks) >= target_num_cards {
                    return Err(DurakError::game("No more stacks than cards allowed"));
                }
                if !found {
                    return Err(DurakError::game("Card not found."));
                }
                let ghost old_cards = state.player_cards@;
                state.player_cards.insert(*origin, rest);
                state.table_stacks.push((card, None));
                proof {
                    assert(state.player_cards@.map_values(|h: Vec<Card>| h@) =~= old_cards.map_values(
                        |h: Vec<Card>| h@,
                    ).insert(*origin, rest@));
                }
            },
        }
        Ok(state.snapshot())
    }
}

impl GameRules for DefaultRules {
    open spec fn allows(
        &self,
        origin: ClientHash,
        state: GameStateView,
        players: Seq<ClientHash>,
        action: GameAction,
        next: Result<GameStateView, (DurakErrorType, Seq<char>)>,
    ) -> bool {
        match action {
            GameAction::DealCards => exists|deck: Seq<Card>|
                #![trigger deal_outcome(deck, players, self.hand_size())]
                deck.to_multiset() == full_deck().to_multiset() && next == deal_outcome(
                    deck,
                    players,
                    self.hand_size(),
                ),
            GameAction::PutCard(card, stack) => next == put_outcome(origin, state, card, stack),
            GameAction::TakeCards => next == resolve_outcome(
                origin,
                state,
                players,
                self.hand_size(),
                true,
            ),
            GameAction::EndRound => next == resolve_outcome(
                origin,
                state,
                players,
                self.hand_size(),
                false,
            ),
        }
    }

    fn apply(
        &self,
        origin: &ClientHash,
        state: &mut GameState,
        players: &Vec<ClientHash>,
        action: GameAction,
    ) -> (r: Result<GameState, DurakError>) {
        match action {
            GameAction::DealCards => {
                let r = self.deal(players);
                match r {
                    Ok(s) => {
                        *state = s.snapshot();
                        Ok(s)
                    },
                    Err(e) => Err(e),
                }
            },
            GameAction::PutCard(card, stack) => self.put_card(origin, state, card, stack),
            GameAction::TakeCards => self.resolve(origin, state, players, true),
            GameAction::EndRound => self.resolve(origin, state, players, false),
        }
    }
}

/// The cards in the hands of `players`, from the last player back to the first.
pub open spec fn seated_cards(hands: Map<ClientHash, Seq<Card>>, players: Seq<ClientHash>) -> Seq<
    Card,
>
    decreases players.len(),
{
    if players.len() == 0 {
        Seq::empty()
    } else {
        hands[players.last()] + seated_cards(hands, players.drop_last())
    }
}

/// The cards lying on the table, each attacking card followed by its defence.
pub open spec fn stack_cards(stacks: Seq<(Card, Option<Card>)>) -> Seq<Card>
    decreases stacks.len(),
{
    if stacks.len() == 0 {
        Seq::empty()
    } else {
        let (attack, defence) = stacks.last();
        stack_cards(stacks.drop_last()) + seq![attack] + match defence {
            Some(d) => seq![d],
            None => Seq::empty(),
        }
    }
}

/// Every card of a game: the draw pile, the hands of the seated players, the table
/// and the discard pile.
pub open spec fn cards_in_game(s: GameStateView, players: Seq<ClientHash>) -> Seq<Card> {
    s.draw_pile + seated_cards(s.hands, players) + stack_cards(s.stacks) + s.discard_pile
}

proof fn lemma_dealt_hand(deck: Seq<Card>, players: Seq<ClientHash>, n: nat, i: int)
    requires
        players.no_duplicates(),
        0 <= i < players.len(),
    ensures
        deal_hands(deck, players, n).contains_key(players[i]),
        deal_hands(deck, players, n)[players[i]] == deck.subrange(
            deck.len() - n * (i + 1),
            deck.len() - n * i,
        ),
    decreases players.len(),
{
    let k = players.len() - 1;
    if i < k {
        let q = players.drop_last();
        assert(q[i] == players[i]);
        assert(players[i] != players[k]);
        lemma_dealt_hand(deck, q, n, i);
    }
}

proof fn lemma_seated_slices(deck: Seq<Card>, players: Seq<ClientHash>, n: nat, m: int)
    requires
        players.no_duplicates(),
        0 <= m <= players.len(),
        players.len() * n <= deck.len(),
    ensures
        seated_cards(deal_hands(deck, players, n), players.take(m)) == deck.subrange(
            deck.len() - n * m,
            deck.len() as int,
        ),
    decreases m,
{
    let l = deck.len() as int;
    if m == 0 {
        assert(deck.subrange(l, l) =~= Seq::<Card>::empty());
    } else {
        assert(n * m <= n * players.len() && n * (m - 1) + n == n * m) by (nonlinear_arith)
            requires
                m <= players.len(),
        ;
        let q = players.take(m);
        assert(q.drop_last() =~= players.take(m - 1));
        assert(q.last() == players[m - 1]);
        lemma_dealt_hand(deck, players, n, m - 1);
        lemma_seated_slices(deck, players, n, m - 1);
        assert(0 <= l - n * m <= l - n * (m - 1) <= l);
        assert(deck.subrange(l - n * m, l - n * (m - 1)) + deck.subrange(l - n * (m - 1), l)
            =~= deck.subrange(l - n * m, l));
    }
}

/// Dealing loses and duplicates no card: whatever the seating order of distinct
/// players, the draw pile, their hands and the (empty) table together hold exactly
/// the shuffled deck, hence each card of the 36-card deck once.
pub proof fn lemma_deal_keeps_every_card(deck: Seq<Card>, players: Seq<ClientHash>, n: nat)
    requires
        deck.to_multiset() == full_deck().to_multiset(),
        players.no_duplicates(),
        players.len() * n <= deck.len(),
    ensures
        match deal_outcome(deck, players, n) {
            Ok(s) => {
                &&& cards_in_game(s, players) == deck
                &&& cards_in_game(s, players).to_multiset() == full_deck().to_multiset()
                &&& forall|i: int| 0 <= i < players.len() ==> s.hands.contains_key(players[i])
                &&& s.stacks.len() == 0
            },
            Err(_) => false,
        },
{
    let l = deck.len() as int;
    let k = players.len() as int;
    let s = deal_outcome(deck, players, n)->Ok_0;
    lemma_seated_slices(deck, players, n, k);
    assert(players.take(k) =~= players);
    assert(stack_cards(s.stacks) =~= Seq::<Card>::empty());
    assert(deck.take(l - k * n) + deck.subrange(l - n * k, l) + Seq::<Card>::empty()
        + Seq::<Card>::empty() =~= deck) by {
        assert(k * n == n * k) by (nonlinear_arith);
    }
    assert forall|i: int| 0 <= i < players.len() implies s.hands.contains_key(players[i]) by {
        lemma_dealt_hand(deck, players, n, i);
    }
}

/// A defence by the defender, with a card from their hand, against an open stack of a
/// game with a trump succeeds exactly when that card beats the attacking card under
/// the trump; then the stack holds the card as its defence and the hand loses it.
pub proof fn lemma_defence_needs_a_better_card(
    origin: ClientHash,
    s: GameStateView,
    card: Card,
    i: usize,
)
    requires
        s.target == Some(origin),
        s.hands.contains_key(origin),
        i < s.stacks.len(),
        s.stacks[i as int].1 is None,
        s.trump is Some,
        s.hands[origin].contains(card),
    ensures
        put_outcome(origin, s, card, Some(i)) is Ok <==> beats(
            card,
            s.stacks[i as int].0,
            s.trump->0,
        ) == Some(true),
        put_outcome(origin, s, card, Some(i)) matches Ok(t) ==> t.stacks[i as int] == (
            s.stacks[i as int].0,
            Some(card),
        ) && t.hands[origin] == remove_all(s.hands[origin], card),
{
}

/// How often `x` occurs in `s`.
pub open spec fn count(s: Seq<Card>, x: Card) -> nat
    decreases s.len(),
{
    if s.len() == 0 {
        0
    } else {
        count(s.drop_last(), x) + if s.last() == x {
            1nat
        } else {
            0nat
        }
    }
}

/// The game holds each card of the deck exactly once, counting the draw pile, the
/// hands of the seated players, the table and the discard pile; the seated players,
/// and only they, hold hands.
pub open spec fn keeps_every_card(s: GameStateView, players: Seq<ClientHash>) -> bool {
    &&& players.no_duplicates()
    &&& forall|p: ClientHash| #[trigger] s.hands.contains_key(p) ==> players.contains(p)
    &&& forall|i: int| 0 <= i < players.len() ==> s.hands.contains_key(#[trigger] players[i])
    &&& forall|x: Card| #[trigger] count(cards_in_game(s, players), x) == count(full_deck(), x)
}

proof fn lemma_count_concat(a: Seq<Card>, b: Seq<Card>, x: Card)
    ensures
        count(a + b, x) == count(a, x) + count(b, x),
    decreases b.len(),
{
    if b.len() > 0 {
        assert((a + b).drop_last() =~= a + b.drop_last());
        lemma_count_concat(a, b.drop_last(), x);
    } else {
        assert(a + b =~= a);
    }
}

proof fn lemma_count_remove_all(h: Seq<Card>, c: Card, x: Card)
    ensures
        count(remove_all(h, c), x) == if x == c {
            0
        } else {
            count(h, x)
        },
    decreases h.len(),
{
    if h.len() > 0 {
        lemma_count_remove_all(h.drop_last(), c, x);
        if h.last() != c {
            assert(remove_all(h, c).drop_last() =~= remove_all(h.drop_last(), c));
        }
    }
}

proof fn lemma_count_contains(h: Seq<Card>, c: Card)
    requires
        h.contains(c),
    ensures
        count(h, c) >= 1,
    decreases h.len(),
{
    if h.last() != c {
        let i = choose|i: int| 0 <= i < h.len() && h[i] == c;
        assert(h.drop_last()[i] == c);
        lemma_count_contains(h.drop_last(), c);
    }
}

proof fn lemma_count_distinct(s: Seq<Card>, x: Card)
    requires
        s.no_duplicates(),
    ensures
        count(s, x) <= 1,
        !s.contains(x) ==> count(s, x) == 0,
    decreases s.len(),
{
    if s.len() > 0 {
        let d = s.drop_last();
        assert(d.no_duplicates());
        lemma_count_distinct(d, x);
        if s.last() == x && d.contains(x) {
            let i = choose|i: int| 0 <= i < d.len() && d[i] == x;
            assert(s[i] == s[s.len() - 1]);
        }
        if !s.contains(x) && d.contains(x) {
            let i = choose|i: int| 0 <= i < d.len() && d[i] == x;
            assert(s[i] == x);
        }
    }
}

proof fn lemma_seated_without(
    hands: Map<ClientHash, Seq<Card>>,
    players: Seq<ClientHash>,
    o: ClientHash,
    v: Seq<Card>,
)
    requires
        !players.contains(o),
    ensures
        seated_cards(hands.insert(o, v), players) == seated_cards(hands, players),
    decreases players.len(),
{
    if players.len() > 0 {
        let d = players.drop_last();
        assert(!d.contains(o)) by {
            if d.contains(o) {
                let i = choose|i: int| 0 <= i < d.len() && d[i] == o;
                assert(players[i] == o);
            }
        }
        assert(players.last() != o) by {
            assert(players[players.len() - 1] == players.last());
        }
        lemma_seated_without(hands, d, o, v);
    }
}

proof fn lemma_seated_replace(
    hands: Map<ClientHash, Seq<Card>>,
    players: Seq<ClientHash>,
    o: ClientHash,
    v: Seq<Card>,
    x: Card,
)
    requires
        players.no_duplicates(),
        players.contains(o),
    ensures
        count(seated_cards(hands.insert(o, v), players), x) + count(hands[o], x) == count(
            seated_cards(hands, players),
            x,
        ) + count(v, x),
    decreases players.len(),
{
    let d = players.drop_last();
    let h2 = hands.insert(o, v);
    assert(d.no_duplicates());
    if players.last() == o {
        assert(!d.contains(o)) by {
            if d.contains(o) {
                let i = choose|i: int| 0 <= i < d.len() && d[i] == o;
                assert(players[i] == players[players.len() - 1]);
            }
        }
        lemma_seated_without(hands, d, o, v);
        lemma_count_concat(v, seated_cards(h2, d), x);
        lemma_count_concat(hands[o], seated_cards(hands, d), x);
    } else {
        assert(d.contains(o)) by {
            let i = choose|i: int| 0 <= i < players.len() && players[i] == o;
            assert(i != players.len() - 1);
            assert(d[i] == o);
        }
        lemma_seated_replace(hands, d, o, v, x);
        lemma_count_concat(h2[players.last()], seated_cards(h2, d), x);
        lemma_count_concat(hands[players.last()], seated_cards(hands, d), x);
    }
}

proof fn lemma_stack_defended(ss: Seq<(Card, Option<Card>)>, i: int, c: Card, x: Card)
    requires
        0 <= i < ss.len(),
        ss[i].1 is None,
    ensures
        count(stack_cards(ss.update(i, (ss[i].0, Some(c)))), x) == count(stack_cards(ss), x) + if x
            == c {
            1nat
        } else {
            0nat
        },
    decreases ss.len(),
{
    let u = ss.update(i, (ss[i].0, Some(c)));
    let d = ss.drop_last();
    if i < ss.len() - 1 {
        assert(u.drop_last() =~= d.update(i, (d[i].0, Some(c))));
        lemma_stack_defended(d, i, c, x);
        lemma_count_concat(stack_cards(u.drop_last()), seq![u.last().0], x);
        lemma_count_concat(stack_cards(d), seq![ss.last().0], x);
        lemma_count_concat(stack_cards(u.drop_last()) + seq![u.last().0], Seq::empty(), x);
        lemma_count_concat(stack_cards(d) + seq![ss.last().0], Seq::empty(), x);
        if let Some(e) = ss.last().1 {
            lemma_count_concat(stack_cards(u.drop_last()) + seq![u.last().0], seq![e], x);
            lemma_count_concat(stack_cards(d) + seq![ss.last().0], seq![e], x);
        }
    } else {
        assert(u.drop_last() =~= d);
        lemma_count_concat(stack_cards(d), seq![ss.last().0], x);
        lemma_count_concat(stack_cards(d) + seq![ss.last().0], Seq::empty(), x);
        lemma_count_concat(stack_cards(d) + seq![ss.last().0], seq![c], x);
        assert(count(seq![c], x) == if x == c {
            1nat
        } else {
            0nat
        }) by {
            assert(seq![c].drop_last() =~= Seq::<Card>::empty());
        }
    }
}

proof fn lemma_stack_attacked(ss: Seq<(Card, Option<Card>)>, c: Card, x: Card)
    ensures
        count(stack_cards(ss.push((c, None))), x) == count(stack_cards(ss), x) + if x == c {
            1nat
        } else {
            0nat
        },
{
    let p = ss.push((c, None));
    assert(p.drop_last() =~= ss);
    lemma_count_concat(stack_cards(ss), seq![c], x);
    lemma_count_concat(stack_cards(ss) + seq![c], Seq::empty(), x);
    assert(seq![c].drop_last() =~= Seq::<Card>::empty());
}

/// Putting a card on the table only moves it out of its owner's hand: a successful
/// attack or defence on a game that holds each card of the deck once keeps it so.
pub proof fn lemma_put_keeps_every_card(
    origin: ClientHash,
    s: GameStateView,
    players: Seq<ClientHash>,
    card: Card,
    stack: Option<usize>,
)
    requires
        keeps_every_card(s, players),
    ensures
        put_outcome(origin, s, card, stack) matches Ok(t) ==> keeps_every_card(t, players),
{
    if let Ok(t) = put_outcome(origin, s, card, stack) {
        let h = s.hands[origin];
        let rest = remove_all(h, card);
        lemma_hand_holds_card_once(s, players, origin, card);
        let seated = seated_cards(s.hands, players);
        let pile = s.draw_pile;
        let table = stack_cards(s.stacks);
        let discard = s.discard_pile;
        assert(t.hands == s.hands.insert(origin, rest));
        assert(t.draw_pile == pile && t.discard_pile == discard);
        assert forall|x: Card| #[trigger]
            count(cards_in_game(t, players), x) == count(full_deck(), x) by {
            lemma_seated_replace(s.hands, players, origin, rest, x);
            lemma_count_remove_all(h, card, x);
            let seated2 = seated_cards(t.hands, players);
            let table2 = stack_cards(t.stacks);
            match stack {
                Some(i) => lemma_stack_defended(s.stacks, i as int, card, x),
                None => lemma_stack_attacked(s.stacks, card, x),
            }
            lemma_count_concat(pile, seated, x);
            lemma_count_concat(pile + seated, table, x);
            lemma_count_concat(pile + seated + table, discard, x);
            lemma_count_concat(pile, seated2, x);
            lemma_count_concat(pile + seated2, table2, x);
            lemma_count_concat(pile + seated2 + table2, discard, x);
            assert(cards_in_game(t, players) == pile + seated2 + table2 + discard);
            assert(count(cards_in_game(s, players), x) == count(full_deck(), x));
        }
        assert forall|p: ClientHash| #[trigger] t.hands.contains_key(p) implies players.contains(
            p,
        ) by {
            assert(s.hands.contains_key(p));
        }
    }
}

proof fn lemma_count_multiset(s: Seq<Card>, x: Card)
    ensures
        count(s, x) == s.to_multiset().count(x),
    decreases s.len(),
{
    if s.len() == 0 {
        assert(s.to_multiset() =~= vstd::multiset::Multiset::empty()) by {
            s.to_multiset_ensures();
        }
    } else {
        let d = s.drop_last();
        lemma_count_multiset(d, x);
        d.to_multiset_ensures();
        assert(d.push(s.last()) =~= s);
    }
}

proof fn lemma_dealt_to_seated(deck: Seq<Card>, players: Seq<ClientHash>, n: nat, p: ClientHash)
    requires
        deal_hands(deck, players, n).contains_key(p),
    ensures
        players.contains(p),
    decreases players.len(),
{
    let k = players.len() - 1;
    if players[k] != p {
        lemma_dealt_to_seated(deck, players.drop_last(), n, p);
        let i = choose|i: int| 0 <= i < k && players.drop_last()[i] == p;
        assert(players[i] == p);
    }
}

/// A fresh deal holds each card of the deck once, in the terms in which every later
/// move is shown to keep it so.
pub proof fn lemma_deal_starts_with_every_card(
    deck: Seq<Card>,
    players: Seq<ClientHash>,
    n: nat,
)
    requires
        deck.to_multiset() == full_deck().to_multiset(),
        players.no_duplicates(),
        players.len() * n <= deck.len(),
    ensures
        deal_outcome(deck, players, n) matches Ok(s) && keeps_every_card(s, players),
{
    lemma_deal_keeps_every_card(deck, players, n);
    let s = deal_outcome(deck, players, n)->Ok_0;
    assert forall|x: Card| #[trigger]
        count(cards_in_game(s, players), x) == count(full_deck(), x) by {
        lemma_count_multiset(deck, x);
        lemma_count_multiset(full_deck(), x);
    }
    assert forall|p: ClientHash| #[trigger] s.hands.contains_key(p) implies players.contains(p) by {
        lemma_dealt_to_seated(deck, players, n, p);
    }
}

proof fn lemma_seat_of_found(players: Seq<ClientHash>, p: ClientHash)
    requires
        seat_of(players, p) is Some,
    ensures
        0 <= seat_of(players, p)->0 < players.len(),
        players[seat_of(players, p)->0] == p,
    decreases players.len(),
{
    if players[0] != p {
        lemma_seat_of_found(players.drop_first(), p);
    }
}

proof fn lemma_refill_keeps_cards(
    hands: Map<ClientHash, Seq<Card>>,
    pile: Seq<Card>,
    order: Seq<ClientHash>,
    n: nat,
    players: Seq<ClientHash>,
    x: Card,
)
    requires
        players.no_duplicates(),
        forall|p: ClientHash| #[trigger] hands.contains_key(p) ==> players.contains(p),
    ensures
        ({
            let (h2, p2) = refill(hands, pile, order, n);
            &&& count(seated_cards(h2, players), x) + count(p2, x) == count(
                seated_cards(hands, players),
                x,
            ) + count(pile, x)
            &&& forall|p: ClientHash| #[trigger] h2.contains_key(p) <==> hands.contains_key(p)
        }),
    decreases order.len(),
{
    if order.len() > 0 {
        lemma_refill_keeps_cards(hands, pile, order.drop_last(), n, players, x);
        let (h, p) = refill(hands, pile, order.drop_last(), n);
        let who = order.last();
        if h.contains_key(who) {
            let k = draw_count(h[who], p, n);
            let drawn = p.subrange(p.len() - k, p.len() as int);
            let kept = p.take(p.len() - k);
            assert(kept + drawn =~= p);
            lemma_count_concat(kept, drawn, x);
            lemma_count_concat(h[who], drawn, x);
            lemma_seated_replace(h, players, who, h[who] + drawn, x);
            assert(h.insert(who, h[who] + drawn).dom() =~= h.dom());
        }
    }
}

/// Closing a round only moves cards: the table goes to the defender's hand or to the
/// discard pile, and hands are refilled from the draw pile, so a game that holds each
/// card of the deck once keeps it so.
pub proof fn lemma_resolve_keeps_every_card(
    origin: ClientHash,
    s: GameStateView,
    players: Seq<ClientHash>,
    n: nat,
    took: bool,
)
    requires
        keeps_every_card(s, players),
    ensures
        resolve_outcome(origin, s, players, n, took) matches Ok(t) ==> keeps_every_card(
            t,
            players,
        ),
{
    if let Ok(t) = resolve_outcome(origin, s, players, n, took) {
        let a = seat_of(players, s.attacker->0)->0;
        let d = seat_of(players, s.target->0)->0;
        lemma_seat_of_found(players, s.target->0);
        let target = s.target->0;
        assert(players.contains(target));
        let table = stack_cards(s.stacks);
        let hands1 = if took {
            s.hands.insert(target, s.hands[target] + table)
        } else {
            s.hands
        };
        let discard1 = if took {
            s.discard_pile
        } else {
            s.discard_pile + table
        };
        let (h2, p2) = refill(hands1, s.draw_pile, seats_from(players, a), n);
        assert forall|p: ClientHash| #[trigger] hands1.contains_key(p) implies players.contains(
            p,
        ) by {
            if p != target {
                assert(s.hands.contains_key(p));
            }
        }
        assert forall|x: Card| #[trigger]
            count(cards_in_game(t, players), x) == count(full_deck(), x) by {
            let seated = seated_cards(s.hands, players);
            let seated1 = seated_cards(hands1, players);
            let seated2 = seated_cards(h2, players);
            lemma_refill_keeps_cards(hands1, s.draw_pile, seats_from(players, a), n, players, x);
            if took {
                lemma_seated_replace(s.hands, players, target, s.hands[target] + table, x);
                lemma_count_concat(s.hands[target], table, x);
            } else {
                lemma_count_concat(s.discard_pile, table, x);
            }
            assert(stack_cards(t.stacks) =~= Seq::<Card>::empty());
            assert(cards_in_game(t, players) == p2 + seated2 + Seq::<Card>::empty() + discard1);
            lemma_count_concat(p2, seated2, x);
            lemma_count_concat(p2 + seated2, Seq::<Card>::empty(), x);
            lemma_count_concat(p2 + seated2 + Seq::<Card>::empty(), discard1, x);
            lemma_count_concat(s.draw_pile, seated, x);
            lemma_count_concat(s.draw_pile + seated, table, x);
            lemma_count_concat(s.draw_pile + seated + table, s.discard_pile, x);
            assert(count(cards_in_game(s, players), x) == count(full_deck(), x));
        }
        lemma_refill_keeps_cards(
            hands1,
            s.draw_pile,
            seats_from(players, a),
            n,
            players,
            table.first(),
        );
        assert forall|p: ClientHash| #[trigger] t.hands.contains_key(p) implies players.contains(p) by {
            assert(hands1.contains_key(p));
        }
        assert forall|i: int| 0 <= i < players.len() implies t.hands.contains_key(
            #[trigger] players[i],
        ) by {
            assert(s.hands.contains_key(players[i]));
            assert(hands1.contains_key(players[i]));
        }
    }
}

/// The roles of a round belong to different players, and the defender never has
/// more open stacks to answer than cards in hand.
pub open spec fn roles_sound(s: GameStateView) -> bool {
    &&& (s.attacker is Some && s.target is Some ==> s.attacker != s.target)
    &&& (s.neighbor is Some ==> s.neighbor != s.attacker && s.neighbor != s.target)
    &&& (s.target is Some && s.hands.contains_key(s.target->0) ==> undefended(s.stacks)
        <= s.hands[s.target->0].len())
}

/// The seat `t` places after seat `i` at a table of `n` seats.
pub open spec fn seat_after(i: int, t: int, n: int) -> int {
    (i + t) % n
}

proof fn lemma_next_holder_range(
    players: Seq<ClientHash>,
    hands: Map<ClientHash, Seq<Card>>,
    i: int,
    k: nat,
)
    requires
        0 <= i <= players.len(),
    ensures
        next_holder(players, hands, i, k) matches Some(j) ==> exists|t: int|
            0 <= t < k && j == #[trigger] seat_after(i, t, players.len() as int),
    decreases k,
{
    let n = players.len() as int;
    if k > 0 && n > 0 {
        let j0 = i % n;
        if !(hands.contains_key(players[j0]) && hands[players[j0]].len() > 0) {
            assert(0 <= j0 < n) by (nonlinear_arith)
                requires
                    n > 0,
                    j0 == i % n,
            ;
            lemma_next_holder_range(players, hands, j0 + 1, (k - 1) as nat);
            if let Some(j) = next_holder(players, hands, j0 + 1, (k - 1) as nat) {
                let t = choose|t: int| 0 <= t < k - 1 && j == #[trigger] seat_after(j0 + 1, t, n);
                assert(j == seat_after(i, t + 1, n)) by (nonlinear_arith)
                    requires
                        0 <= i <= n,
                        n > 0,
                        j0 == i % n,
                        j == (j0 + 1 + t) % n,
                        t >= 0,
                ;
            }
        } else {
            assert(j0 == seat_after(i, 0, n));
        }
    }
}

proof fn lemma_next_roles_distinct(s: GameStateView, players: Seq<ClientHash>, start: int)
    requires
        players.no_duplicates(),
        0 <= start <= players.len(),
    ensures
        ({
            let r = next_roles(s, players, start);
            &&& r.attacker is Some ==> r.target is Some && r.attacker != r.target
            &&& r.neighbor is Some ==> r.neighbor != r.attacker && r.neighbor != r.target
            &&& r.stacks == s.stacks
            &&& r.hands == s.hands
        }),
{
    let n = players.len() as int;
    lemma_next_holder_range(players, s.hands, start, n as nat);
    if let Some(a) = next_holder(players, s.hands, start, n as nat) {
        let ta = choose|t: int| 0 <= t < n && a == #[trigger] seat_after(start, t, n);
        assert(0 <= a < n) by (nonlinear_arith)
            requires
                n > 0,
                a == (start + ta) % n,
        ;
        lemma_next_holder_range(players, s.hands, a + 1, (n - 1) as nat);
        if let Some(d) = next_holder(players, s.hands, a + 1, (n - 1) as nat) {
            let td = choose|t: int| 0 <= t < n - 1 && d == #[trigger] seat_after(a + 1, t, n);
            assert(0 <= d < n && d != a) by (nonlinear_arith)
                requires
                    0 <= a < n,
                    0 <= td < n - 1,
                    d == (a + 1 + td) % n,
            ;
            assert(players[a] != players[d]);
            let gap = ((a - d - 1 + n) % n) as nat;
            assert(gap < n - 1 && (d + 1 + gap) % n == a) by (nonlinear_arith)
                requires
                    0 <= a < n,
                    0 <= d < n,
                    d != a,
                    gap == (a - d - 1 + n) % n,
            ;
            lemma_next_holder_range(players, s.hands, d + 1, gap);
            if let Some(x) = next_holder(players, s.hands, d + 1, gap) {
                let tx = choose|t: int| 0 <= t < gap && x == #[trigger] seat_after(d + 1, t, n);
                assert(0 <= x < n && x != d && x != a) by (nonlinear_arith)
                    requires
                        0 <= a < n,
                        0 <= d < n,
                        0 <= tx < gap,
                        gap < n - 1,
                        (d + 1 + gap) % n == a,
                        x == (d + 1 + tx) % n,
                ;
                assert(players[x] != players[a] && players[x] != players[d]);
            }
        }
    }
}

proof fn lemma_undefended_after_defence(ss: Seq<(Card, Option<Card>)>, i: int, c: Card)
    requires
        0 <= i < ss.len(),
        ss[i].1 is None,
    ensures
        undefended(ss.update(i, (ss[i].0, Some(c)))) + 1 == undefended(ss),
    decreases ss.len(),
{
    let u = ss.update(i, (ss[i].0, Some(c)));
    if i < ss.len() - 1 {
        assert(u.drop_last() =~= ss.drop_last().update(i, (ss[i].0, Some(c))));
        lemma_undefended_after_defence(ss.drop_last(), i, c);
    } else {
        assert(u.drop_last() =~= ss.drop_last());
    }
}

proof fn lemma_remove_all_len(h: Seq<Card>, c: Card)
    ensures
        remove_all(h, c).len() + count(h, c) == h.len(),
    decreases h.len(),
{
    if h.len() > 0 {
        lemma_remove_all_len(h.drop_last(), c);
    }
}

proof fn lemma_hand_holds_card_once(
    s: GameStateView,
    players: Seq<ClientHash>,
    origin: ClientHash,
    card: Card,
)
    requires
        keeps_every_card(s, players),
        s.hands.contains_key(origin),
        s.hands[origin].contains(card),
    ensures
        count(s.hands[origin], card) == 1,
{
    let h = s.hands[origin];
    assert(players.contains(origin));
    lemma_full_deck_distinct();
    lemma_count_distinct(full_deck(), card);
    lemma_count_contains(h, card);
    lemma_seated_replace(s.hands, players, origin, Seq::empty(), card);
    let seated = seated_cards(s.hands, players);
    let table = stack_cards(s.stacks);
    lemma_count_concat(s.draw_pile, seated, card);
    lemma_count_concat(s.draw_pile + seated, table, card);
    lemma_count_concat(s.draw_pile + seated + table, s.discard_pile, card);
    assert(count(Seq::<Card>::empty(), card) == 0);
    assert(cards_in_game(s, players) == s.draw_pile + seated + table + s.discard_pile);
    assert(count(cards_in_game(s, players), card) == count(full_deck(), card));
}

/// A fresh deal gives the three roles to the first three seated players, who are
/// different players, and leaves the table empty.
pub proof fn lemma_deal_roles_sound(deck: Seq<Card>, players: Seq<ClientHash>, n: nat)
    requires
        players.no_duplicates(),
        players.len() * n <= deck.len(),
    ensures
        deal_outcome(deck, players, n) matches Ok(s) && roles_sound(s),
{
}

/// Attacks and defences keep the roles apart and never leave the defender with more
/// open stacks than cards in hand.
pub proof fn lemma_put_keeps_roles_sound(
    origin: ClientHash,
    s: GameStateView,
    players: Seq<ClientHash>,
    card: Card,
    stack: Option<usize>,
)
    requires
        keeps_every_card(s, players),
        roles_sound(s),
    ensures
        put_outcome(origin, s, card, stack) matches Ok(t) ==> roles_sound(t),
{
    if let Ok(t) = put_outcome(origin, s, card, stack) {
        let target = s.target->0;
        let h = s.hands[origin];
        match stack {
            Some(i) => {
                lemma_hand_holds_card_once(s, players, origin, card);
                lemma_remove_all_len(h, card);
                lemma_undefended_after_defence(s.stacks, i as int, card);
            },
            None => {
                assert(origin != target);
                let p = s.stacks.push((card, None));
                assert(p.drop_last() =~= s.stacks);
            },
        }
    }
}

/// Closing a round clears the table and hands the roles to different players.
pub proof fn lemma_resolve_roles_sound(
    origin: ClientHash,
    s: GameStateView,
    players: Seq<ClientHash>,
    n: nat,
    took: bool,
)
    requires
        players.no_duplicates(),
    ensures
        resolve_outcome(origin, s, players, n, took) matches Ok(t) ==> roles_sound(t),
{
    if let Ok(t) = resolve_outcome(origin, s, players, n, took) {
        lemma_seat_of_found(players, s.target->0);
        let d = seat_of(players, s.target->0)->0;
        let a = seat_of(players, s.attacker->0)->0;
        let table = stack_cards(s.stacks);
        let hands1 = if took {
            s.hands.insert(
                s.target->0,
                (if s.hands.contains_key(s.target->0) {
                    s.hands[s.target->0]
                } else {
                    Seq::empty()
                }) + table,
            )
        } else {
            s.hands
        };
        let (refilled, pile) = refill(hands1, s.draw_pile, seats_from(players, a), n);
        let cleared = GameStateView {
            hands: refilled,
            stacks: Seq::empty(),
            draw_pile: pile,
            trump: s.trump,
            target: s.target,
            attacker: s.attacker,
            neighbor: s.neighbor,
            discard_pile: if took {
                s.discard_pile
            } else {
                s.discard_pile + table
            },
            loser: s.loser,
        };
        let start = if took {
            d + 1
        } else {
            d
        };
        lemma_next_roles_distinct(cleared, players, start);
    }
}

/// What `remove_all` keeps: every element but `x`, none twice if none was, and no
/// more of them than before.
pub(crate) proof fn lemma_remove_all_keeps<T>(s: Seq<T>, x: T)
    ensures
        forall|y: T| #[trigger] remove_all(s, x).contains(y) <==> s.contains(y) && y != x,
        s.no_duplicates() ==> remove_all(s, x).no_duplicates(),
        remove_all(s, x).len() <= s.len(),
    decreases s.len(),
{
    if s.len() > 0 {
        let d = s.drop_last();
        lemma_remove_all_keeps(d, x);
        assert forall|y: T| #[trigger] remove_all(s, x).contains(y) <==> s.contains(y) && y != x by {
            if s.contains(y) && y != x && y != s.last() {
                let i = choose|i: int| 0 <= i < s.len() && s[i] == y;
                assert(d[i] == y);
            }
            if d.contains(y) {
                let i = choose|i: int| 0 <= i < d.len() && d[i] == y;
                assert(s[i] == y);
            }
            if s.last() != x && remove_all(s, x).contains(y) && !remove_all(d, x).contains(y) {
                let r = remove_all(d, x);
                let i = choose|i: int| 0 <= i < r.push(s.last()).len() && r.push(s.last())[i] == y;
                if i < r.len() {
                    assert(r[i] == y);
                }
            }
            if s.last() != x && remove_all(d, x).contains(y) {
                let r = remove_all(d, x);
                let i = choose|i: int| 0 <= i < r.len() && r[i] == y;
                assert(r.push(s.last())[i] == y);
            }
            if s.last() != x && y == s.last() {
                assert(remove_all(s, x)[remove_all(s, x).len() - 1] == y);
            }
        }
        if s.no_duplicates() {
            assert(d.no_duplicates());
            if s.last() != x {
                assert(!d.contains(s.last())) by {
                    if d.contains(s.last()) {
                        let i = choose|i: int| 0 <= i < d.len() && d[i] == s.last();
                        assert(s[i] == s[s.len() - 1]);
                    }
                }
                assert(!remove_all(d, x).contains(s.last()));
                let r = remove_all(d, x);
                assert forall|i: int, j: int|
                    0 <= i < r.push(s.last()).len() && 0 <= j < r.push(s.last()).len() && i
                        != j implies r.push(s.last())[i] != r.push(s.last())[j] by {
                    if i < r.len() && j == r.len() {
                        assert(r.contains(r[i]));
                    }
                    if j < r.len() && i == r.len() {
                        assert(r.contains(r[j]));
                    }
                }
            }
        }
    }
}

/// Under the default ruleset dealing five cards, starting the game of a table with
/// enough players succeeds: the new game is installed at the table and sent to its
/// whole roster, every seated player holds five cards, a trump is set and the table
/// is empty.
pub proof fn lemma_start_deals_every_player(
    room: RoomView<DefaultRules>,
    c: ClientHash,
    after: RoomView<DefaultRules>,
    reply: Reply<DefaultRules>,
)
    requires
        lobby_wf(room),
        starts_game(room, c, after, reply),
        start_check(room, c) is Ok,
        room.tables[start_check(room, c)->Ok_0].rules.hand_size() == 5,
    ensures
        ({
            let h = start_check(room, c)->Ok_0;
            let roster = room.tables[h].players;
            reply matches Some((TargetView::List(l), AnswerView::GameState(g))) && l == roster
                && after.tables[h].game_state == Some(g) && g.stacks.len() == 0 && g.trump is Some
                && forall|i: int|
                0 <= i < roster.len() ==> g.hands.contains_key(#[trigger] roster[i])
                    && g.hands[roster[i]].len() == 5
        }),
{
    let h = start_check(room, c)->Ok_0;
    let t = room.tables[h];
    let roster = t.players;
    assert(room.tables.contains_key(h));
    let next = choose|next: Result<GameStateView, (DurakErrorType, Seq<char>)>|
        #![trigger install_outcome(room, h, next)]
        t.rules.allows(c, empty_game(), roster, GameAction::DealCards, next) && (after, reply)
            == install_outcome(room, h, next);
    let deck = choose|deck: Seq<Card>|
        #![trigger deal_outcome(deck, roster, t.rules.hand_size())]
        deck.to_multiset() == full_deck().to_multiset() && next == deal_outcome(
            deck,
            roster,
            t.rules.hand_size(),
        );
    deck.to_multiset_ensures();
    full_deck().to_multiset_ensures();
    assert(deck.len() == 36);
    assert(roster.len() <= 6);
    assert(roster.len() * 5 <= 36);
    assert forall|i: int| 0 <= i < roster.len() implies deal_hands(deck, roster, 5).contains_key(
        #[trigger] roster[i],
    ) && deal_hands(deck, roster, 5)[roster[i]].len() == 5 by {
        lemma_dealt_hand(deck, roster, 5, i);
        assert(5 * (i + 1) == 5 * i + 5);
    }
}

} // verus!
