use std::collections::HashSet;

use durak::game::{new_deck, Card, CardValue, GameState, Room, Suite, TableHash};
use durak::network::{recipients, Answer, AnswerTarget, Command, DurakError, GameAction, GameCommand};
use durak::rules::{DefaultRules, GameRules};

type Reply = Option<(AnswerTarget, Answer<DefaultRules>)>;

fn cmd(room: &mut Room<DefaultRules>, client: u64, line: &str) -> Reply {
    let c = Command::parse(line).unwrap();
    room.handle_command(&client, c)
}

fn error_of(r: Reply) -> String {
    match r {
        Some((AnswerTarget::Direct, Answer::Error(e))) => e.message().to_string(),
        _ => panic!("expected an error"),
    }
}

fn new_table(room: &mut Room<DefaultRules>, client: u64, name: &str) -> TableHash {
    let before = table_hashes(room, client);
    assert!(cmd(room, client, &format!("table new {}", name)).is_none());
    let after = table_hashes(room, client);
    *after.difference(&before).next().unwrap()
}

fn table_hashes(room: &mut Room<DefaultRules>, client: u64) -> HashSet<TableHash> {
    match cmd(room, client, "table list") {
        Some((AnswerTarget::Direct, Answer::TableList(m))) => m.keys().cloned().collect(),
        _ => panic!("expected a table list"),
    }
}

fn join(room: &mut Room<DefaultRules>, client: u64, h: TableHash) -> Reply {
    cmd(room, client, &format!("table join {:016X}", h))
}

fn named(room: &mut Room<DefaultRules>, client: u64, name: &str) {
    assert!(cmd(room, client, &format!("player name {}", name)).is_none());
}

#[test]
fn two_players_play_a_first_round() {
    let mut room = Room::new(DefaultRules::new());
    named(&mut room, 1, "Alice");
    named(&mut room, 2, "Bob");
    let h = new_table(&mut room, 1, "Durak");
    match cmd(&mut room, 1, "table list") {
        Some((AnswerTarget::Direct, a)) => {
            assert_eq!(a.to_text(1), format!("\t{:016X} 0 2 6 Idle Durak\n\n", h));
        }
        _ => panic!("expected a table list"),
    }
    assert!(join(&mut room, 1, h).is_none());
    assert!(join(&mut room, 2, h).is_none());
    let state = match cmd(&mut room, 1, "game start") {
        Some((AnswerTarget::List(to), Answer::GameState(g))) => {
            assert_eq!(to, vec![1, 2]);
            g
        }
        _ => panic!("expected a game state for the table"),
    };
    assert_eq!(state.player_cards[&1].len(), 5);
    assert_eq!(state.player_cards[&2].len(), 5);
    assert!(state.trump.is_some());
    assert!(state.table_stacks.is_empty());
    assert_eq!(state.attack_player, Some(1));
    assert_eq!(state.target_player, Some(2));
    let trump = state.trump.unwrap();

    // An attack card of client 1 and a card of client 2 that does not beat it.
    let mut pair = None;
    for x in &state.player_cards[&1] {
        for y in &state.player_cards[&2] {
            if pair.is_none() && y.better_as(*x, trump) != Some(true) {
                pair = Some((*x, *y));
            }
        }
    }
    let (x, y) = pair.expect("a deal where every card of the defender beats every attack");
    match cmd(&mut room, 1, &format!("game put {}", x.to_string())) {
        Some((AnswerTarget::List(_), Answer::GameState(g))) => {
            assert_eq!(g.table_stacks, vec![(x, None)]);
            assert_eq!(g.player_cards[&1].len(), 4);
        }
        _ => panic!("expected the attack to be accepted"),
    }
    let refused = error_of(cmd(&mut room, 2, &format!("game put {} 0", y.to_string())));
    assert!(
        refused == "Defending is only possible with better card."
            || refused == "Defending is only possible with matching card."
    );
    match cmd(&mut room, 2, "game state") {
        Some((AnswerTarget::Direct, Answer::GameState(g))) => {
            assert_eq!(g.table_stacks, vec![(x, None)]);
            assert_eq!(g.player_cards[&2].len(), 5);
        }
        _ => panic!("expected the game state"),
    }
    assert_eq!(error_of(cmd(&mut room, 1, "game start")), "Game already started.");
}

#[test]
fn full_or_running_tables_refuse_joins() {
    let mut room = Room::new(DefaultRules::new());
    for c in 1..=7u64 {
        named(&mut room, c, "p");
    }
    let h = new_table(&mut room, 1, "full");
    for c in 1..=6u64 {
        assert!(join(&mut room, c, h).is_none());
    }
    assert_eq!(error_of(join(&mut room, 7, h)), "Unable to join table.");
    match cmd(&mut room, 7, "player state") {
        Some((AnswerTarget::Direct, a)) => {
            assert_eq!(a.to_text(7), "\thash  0000000000000007\n\tname  p\n")
        }
        _ => panic!("expected the player state"),
    }

    let mut room = Room::new(DefaultRules::new());
    for c in 1..=3u64 {
        named(&mut room, c, "p");
    }
    let g = new_table(&mut room, 1, "running");
    assert!(join(&mut room, 1, g).is_none());
    assert!(join(&mut room, 2, g).is_none());
    assert!(matches!(cmd(&mut room, 1, "game start"), Some((AnswerTarget::List(_), _))));
    assert_eq!(error_of(join(&mut room, 3, g)), "Unable to join table.");
    match cmd(&mut room, 1, "table chat hi") {
        Some((AnswerTarget::List(to), Answer::Chat(from, m))) => {
            assert_eq!(to, vec![1, 2]);
            assert_eq!(from, 1);
            assert_eq!(m, "hi");
        }
        _ => panic!("expected a chat"),
    }
}

#[test]
fn a_client_sits_at_one_table_at_a_time() {
    let mut room = Room::new(DefaultRules::new());
    named(&mut room, 1, "Alice");
    let a = new_table(&mut room, 1, "A");
    let b = new_table(&mut room, 1, "B");
    assert!(join(&mut room, 1, a).is_none());
    assert_eq!(error_of(join(&mut room, 1, b)), "Already joined a table.");
    assert!(cmd(&mut room, 1, "table leave").is_none());
    assert!(join(&mut room, 1, b).is_none());
    assert_eq!(error_of(cmd(&mut room, 1, "game start")), "Not enough players.");
}

#[test]
fn lobby_errors() {
    let mut room = Room::new(DefaultRules::new());
    assert_eq!(error_of(cmd(&mut room, 9, "player state")), "Player not found.");
    assert_eq!(error_of(join(&mut room, 9, 42)), "Table not found.");
    let h = new_table(&mut room, 9, "t");
    assert_eq!(
        error_of(join(&mut room, 9, h)),
        "Player not found. Please call \"player name\"."
    );
    named(&mut room, 9, "x");
    assert_eq!(error_of(cmd(&mut room, 9, "table leave")), "No table joined.");
    assert_eq!(error_of(cmd(&mut room, 9, "table chat hi")), "No table joined yet.");
    assert_eq!(error_of(cmd(&mut room, 9, "game state")), "No table joined.");
    assert!(join(&mut room, 9, h).is_none());
    assert_eq!(error_of(cmd(&mut room, 9, "game state")), "No game running.");
    assert_eq!(error_of(cmd(&mut room, 9, "game put 02")), "No game running.");
    assert!(room.create_table(h, "again".to_string()).is_some());
    let echoed = room.handle_command(
        &9,
        Command::Answer(Answer::Error(DurakError::game("echo"))),
    );
    assert_eq!(error_of(echoed), "echo");
}

fn every_card_once(g: &GameState, players: &[u64]) {
    let mut seen = HashSet::new();
    let mut count = g.card_stack.len();
    for c in &g.card_stack {
        assert!(seen.insert(*c));
    }
    for p in players {
        count += g.player_cards[p].len();
        for c in &g.player_cards[p] {
            assert!(seen.insert(*c));
        }
    }
    assert_eq!(count, 36);
    assert_eq!(seen.len(), 36);
}

#[test]
fn dealing_keeps_every_card_once() {
    let rules = DefaultRules::new();
    for n in 2..=6u64 {
        let players: Vec<u64> = (0..n).map(|i| 100 - i).collect();
        let mut state = GameState::new();
        let g = rules.apply(&players[0], &mut state, &players, GameAction::DealCards).unwrap();
        every_card_once(&g, &players);
        assert_eq!(g.card_stack.len(), 36 - 5 * n as usize);
        assert_eq!(g.trump, Some(g.card_stack.last().unwrap().suite));
        assert_eq!(g.neighbor_player, if n > 2 { Some(players[2]) } else { None });
        every_card_once(&state, &players);
    }
}

#[test]
fn shuffled_decks_differ() {
    let rules = DefaultRules::new();
    let players = vec![1, 2];
    let mut piles = HashSet::new();
    for _ in 0..5 {
        let mut state = GameState::new();
        let g = rules.apply(&1, &mut state, &players, GameAction::DealCards).unwrap();
        piles.insert(g.card_stack.iter().map(|c| c.to_string()).collect::<String>());
    }
    assert!(piles.len() > 1);
}

fn game(hand1: Vec<Card>, hand2: Vec<Card>, trump: Suite) -> GameState {
    let mut g = GameState::new();
    g.player_cards.insert(1, hand1);
    g.player_cards.insert(2, hand2);
    g.trump = Some(trump);
    g.attack_player = Some(1);
    g.target_player = Some(2);
    g
}

#[test]
fn defence_needs_a_better_card() {
    let rules = DefaultRules::new();
    let players = vec![1, 2];
    let c = |v, s| Card::new(v, s);
    let attack = c(CardValue::Number9, Suite::Hearts);
    let low = c(CardValue::Number7, Suite::Hearts);
    let high = c(CardValue::Ace, Suite::Hearts);
    let off = c(CardValue::King, Suite::Clubs);
    let trump = c(CardValue::Number6, Suite::Spades);
    let mut g = game(vec![attack], vec![low, high, off, trump], Suite::Spades);
    rules.apply(&1, &mut g, &players, GameAction::PutCard(attack, None)).unwrap();

    for (card, msg) in [
        (low, "Defending is only possible with better card."),
        (off, "Defending is only possible with matching card."),
    ] {
        let before = g.player_cards[&2].clone();
        let e = rules.apply(&2, &mut g, &players, GameAction::PutCard(card, Some(0))).unwrap_err();
        assert_eq!(e.message(), msg);
        assert_eq!(g.table_stacks, vec![(attack, None)]);
        assert_eq!(g.player_cards[&2], before);
    }
    let e = rules.apply(&1, &mut g, &players, GameAction::PutCard(high, Some(0))).unwrap_err();
    assert_eq!(e.message(), "Only target player can defend.");
    let e = rules.apply(&2, &mut g, &players, GameAction::PutCard(high, Some(1))).unwrap_err();
    assert_eq!(e.message(), "Stack not found.");

    let mut h = game(vec![attack], vec![low, trump], Suite::Spades);
    rules.apply(&1, &mut h, &players, GameAction::PutCard(attack, None)).unwrap();
    let ok = rules.apply(&2, &mut h, &players, GameAction::PutCard(trump, Some(0))).unwrap();
    assert_eq!(ok.table_stacks, vec![(attack, Some(trump))]);
    assert_eq!(h.player_cards[&2], vec![low]);
    let e = rules.apply(&2, &mut h, &players, GameAction::PutCard(low, Some(0))).unwrap_err();
    assert_eq!(e.message(), "Card already defended.");

    let ok = rules.apply(&2, &mut g, &players, GameAction::PutCard(high, Some(0))).unwrap();
    assert_eq!(ok.table_stacks, vec![(attack, Some(high))]);
}

#[test]
fn attacks_are_bounded_by_the_defenders_hand() {
    let rules = DefaultRules::new();
    let players = vec![1, 2];
    let c = |v| Card::new(v, Suite::Diamonds);
    let mut g = game(
        vec![c(CardValue::Number6), c(CardValue::Number7), c(CardValue::Number8)],
        vec![c(CardValue::Ace), c(CardValue::King)],
        Suite::Clubs,
    );
    let e = rules.apply(&2, &mut g, &players, GameAction::PutCard(c(CardValue::Ace), None)).unwrap_err();
    assert_eq!(e.message(), "Only attacking player can start.");
    rules.apply(&1, &mut g, &players, GameAction::PutCard(c(CardValue::Number6), None)).unwrap();
    rules.apply(&1, &mut g, &players, GameAction::PutCard(c(CardValue::Number7), None)).unwrap();
    let e = rules.apply(&1, &mut g, &players, GameAction::PutCard(c(CardValue::Number8), None)).unwrap_err();
    assert_eq!(e.message(), "No more stacks than cards allowed");
    let e = rules.apply(&2, &mut g, &players, GameAction::PutCard(c(CardValue::Ace), None)).unwrap_err();
    assert_eq!(e.message(), "Only attacking player and neighbor can start a new stack.");
    let mut h = game(vec![c(CardValue::Number6)], vec![c(CardValue::Ace)], Suite::Clubs);
    let e = rules.apply(&1, &mut h, &players, GameAction::PutCard(c(CardValue::Jack), None)).unwrap_err();
    assert_eq!(e.message(), "Card not found.");
}

#[test]
fn a_defended_round_is_discarded_and_hands_refilled() {
    let rules = DefaultRules::new();
    let players = vec![1, 2];
    let c = |v, s| Card::new(v, s);
    let attack = c(CardValue::Number9, Suite::Hearts);
    let defence = c(CardValue::Queen, Suite::Hearts);
    let mut g = game(
        vec![attack, c(CardValue::Number6, Suite::Clubs)],
        vec![defence, c(CardValue::Number7, Suite::Clubs)],
        Suite::Spades,
    );
    let pile: Vec<Card> = (0..9).map(|i| c(VALUES_LIST[i], Suite::Diamonds)).collect();
    g.card_stack = pile.clone();
    rules.apply(&1, &mut g, &players, GameAction::PutCard(attack, None)).unwrap();
    let e = rules.apply(&1, &mut g, &players, GameAction::EndRound).unwrap_err();
    assert_eq!(e.message(), "Not all stacks are defended.");
    rules.apply(&2, &mut g, &players, GameAction::PutCard(defence, Some(0))).unwrap();
    let e = rules.apply(&2, &mut g, &players, GameAction::EndRound).unwrap_err();
    assert_eq!(e.message(), "Only attacking player can end the round.");
    let s = rules.apply(&1, &mut g, &players, GameAction::EndRound).unwrap();
    assert_eq!(s.discard_pile, vec![attack, defence]);
    assert!(s.table_stacks.is_empty());
    assert_eq!(s.player_cards[&1].len(), 5);
    assert_eq!(s.player_cards[&2].len(), 5);
    // The attacker draws first, from the end of the pile.
    assert_eq!(s.player_cards[&1][1..], pile[5..]);
    assert_eq!(s.player_cards[&2][1..], pile[1..5]);
    assert_eq!(s.card_stack, pile[..1]);
    assert_eq!(s.attack_player, Some(2));
    assert_eq!(s.target_player, Some(1));
    assert_eq!(s.loser, None);
}

const VALUES_LIST: [CardValue; 9] = [
    CardValue::Number6,
    CardValue::Number7,
    CardValue::Number8,
    CardValue::Number9,
    CardValue::Number10,
    CardValue::Jack,
    CardValue::Queen,
    CardValue::King,
    CardValue::Ace,
];

#[test]
fn a_defender_who_takes_loses_the_turn() {
    let rules = DefaultRules::new();
    let players = vec![1, 2, 3];
    let c = |v| Card::new(v, Suite::Hearts);
    let mut g = game(vec![c(CardValue::Number6)], vec![c(CardValue::Ace)], Suite::Spades);
    g.player_cards.insert(3, vec![c(CardValue::King)]);
    g.neighbor_player = Some(3);
    rules.apply(&1, &mut g, &players, GameAction::PutCard(c(CardValue::Number6), None)).unwrap();
    let e = rules.apply(&1, &mut g, &players, GameAction::TakeCards).unwrap_err();
    assert_eq!(e.message(), "Only target player can take the cards.");
    let s = rules.apply(&2, &mut g, &players, GameAction::TakeCards).unwrap();
    assert_eq!(s.player_cards[&2], vec![c(CardValue::Ace), c(CardValue::Number6)]);
    assert!(s.table_stacks.is_empty());
    assert!(s.discard_pile.is_empty());
    // Player 1 has no cards left and the pile is empty: player 3 attacks player 2.
    assert_eq!(s.attack_player, Some(3));
    assert_eq!(s.target_player, Some(2));
    assert_eq!(s.neighbor_player, None);
    assert_eq!(s.loser, None);
    let e = rules.apply(&2, &mut g, &players, GameAction::TakeCards).unwrap_err();
    assert_eq!(e.message(), "No cards on the table.");
}

#[test]
fn the_last_player_holding_cards_loses() {
    let rules = DefaultRules::new();
    let players = vec![1, 2];
    let c = |v| Card::new(v, Suite::Hearts);
    let mut g = game(
        vec![c(CardValue::Number6)],
        vec![c(CardValue::Ace), c(CardValue::Number7)],
        Suite::Spades,
    );
    rules.apply(&1, &mut g, &players, GameAction::PutCard(c(CardValue::Number6), None)).unwrap();
    rules.apply(&2, &mut g, &players, GameAction::PutCard(c(CardValue::Ace), Some(0))).unwrap();
    let s = rules.apply(&1, &mut g, &players, GameAction::EndRound).unwrap();
    assert_eq!(s.loser, Some(2));
    assert_eq!(s.attack_player, None);
    assert_eq!(s.target_player, None);
    let a: Answer<DefaultRules> = Answer::GameState(s);
    assert_eq!(
        a.to_text(2),
        "cards 72\ntrump -3\ntable \nloser 0000000000000002\n"
    );
    let e = rules.apply(&1, &mut g, &players, GameAction::EndRound).unwrap_err();
    assert_eq!(e.message(), "No round running.");
}

#[test]
fn moves_do_not_depend_on_a_recorded_attacker() {
    let rules = DefaultRules::new();
    let players = vec![1, 2, 3];
    let c = |v| Card::new(v, Suite::Hearts);
    let attack = c(CardValue::Number9);
    let mut g = game(vec![], vec![c(CardValue::Ace), c(CardValue::Number7)], Suite::Spades);
    g.player_cards.insert(3, vec![c(CardValue::Number10)]);
    g.attack_player = None;
    g.neighbor_player = Some(3);
    g.table_stacks = vec![(attack, None)];
    let e = rules
        .apply(&2, &mut g, &players, GameAction::PutCard(c(CardValue::Number7), Some(0)))
        .unwrap_err();
    assert_eq!(e.message(), "Defending is only possible with better card.");
    let s = rules
        .apply(&3, &mut g, &players, GameAction::PutCard(c(CardValue::Number10), None))
        .unwrap();
    assert_eq!(s.table_stacks, vec![(attack, None), (c(CardValue::Number10), None)]);
    let s = rules
        .apply(&2, &mut g, &players, GameAction::PutCard(c(CardValue::Ace), Some(0)))
        .unwrap();
    assert_eq!(s.table_stacks[0], (attack, Some(c(CardValue::Ace))));
    assert_eq!(s.player_cards[&2], vec![c(CardValue::Number7)]);
}

#[test]
fn dealing_a_given_deck() {
    let rules = DefaultRules::new();
    let deck = new_deck();
    let g = rules.deal_deck(deck.clone(), &vec![1, 2]).unwrap();
    assert_eq!(g.player_cards[&1], deck[31..36].to_vec());
    assert_eq!(g.player_cards[&2], deck[26..31].to_vec());
    assert_eq!(g.card_stack, deck[..26].to_vec());
    assert_eq!(g.trump, Some(Suite::Clubs));
    assert_eq!(g.attack_player, Some(1));
    assert_eq!(g.target_player, Some(2));
    assert_eq!(g.neighbor_player, None);
    let many: Vec<u64> = (0..8).collect();
    let e = rules.deal_deck(deck, &many).unwrap_err();
    assert_eq!(e.message(), "Not enough cards to deal.");
}

#[test]
fn a_running_game_is_not_dealt_again() {
    let mut room = Room::new(DefaultRules::new());
    named(&mut room, 1, "a");
    named(&mut room, 2, "b");
    let h = new_table(&mut room, 1, "t");
    assert!(join(&mut room, 1, h).is_none());
    assert!(join(&mut room, 2, h).is_none());
    assert!(cmd(&mut room, 1, "game start").is_some());
    let r = room.handle_command(
        &1,
        Command::Game(GameCommand::Action(GameAction::DealCards)),
    );
    assert_eq!(error_of(r), "Game already started.");
}

#[test]
fn answers_go_to_the_sender_or_the_list() {
    assert_eq!(recipients(7, &AnswerTarget::Direct), vec![7]);
    assert_eq!(recipients(7, &AnswerTarget::List(vec![3, 7, 9])), vec![3, 7, 9]);
}
