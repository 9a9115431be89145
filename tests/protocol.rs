use std::collections::HashMap;

use durak::game::{Card, CardValue, GameState, Player, Suite};
use durak::network::{
    Answer, Command, DuplexChannel, DurakError, DurakErrorType, GameAction, GameCommand,
    PlayerCommand, TableCommand,
};
use durak::rules::DefaultRules;

type Cmd = Command<DefaultRules>;

fn parse_error(line: &str) -> String {
    match Cmd::parse(line) {
        Err(e) => {
            assert_eq!(e.error_type(), DurakErrorType::ParserError);
            e.message().to_string()
        }
        Ok(c) => panic!("parsed {:?}", c),
    }
}

#[test]
fn parses_player_commands() {
    match Cmd::parse("player name Alice") {
        Ok(Command::Player(PlayerCommand::Name(n))) => assert_eq!(n, "Alice"),
        other => panic!("{:?}", other),
    }
    match Cmd::parse("  player   name   Bob Smith  \n") {
        Ok(Command::Player(PlayerCommand::Name(n))) => assert_eq!(n, "Bob Smith"),
        other => panic!("{:?}", other),
    }
    assert!(matches!(Cmd::parse("player list"), Ok(Command::Player(PlayerCommand::List))));
    assert!(matches!(Cmd::parse("player state"), Ok(Command::Player(PlayerCommand::State))));
    assert!(matches!(Cmd::parse("quit"), Ok(Command::Quit)));
}

#[test]
fn parses_table_commands() {
    match Cmd::parse("table new Durak") {
        Ok(Command::Table(TableCommand::New(n))) => assert_eq!(n, "Durak"),
        other => panic!("{:?}", other),
    }
    assert!(matches!(
        Cmd::parse("table join 00000000000000Ff"),
        Ok(Command::Table(TableCommand::Join(255)))
    ));
    assert!(matches!(
        Cmd::parse("table join FFFFFFFFFFFFFFFF"),
        Ok(Command::Table(TableCommand::Join(u64::MAX)))
    ));
    match Cmd::parse("table chat  hello  world") {
        Ok(Command::Table(TableCommand::Chat(m))) => assert_eq!(m, " hello  world"),
        other => panic!("{:?}", other),
    }
    assert!(matches!(Cmd::parse("table leave"), Ok(Command::Table(TableCommand::Leave))));
    assert!(matches!(Cmd::parse("table list"), Ok(Command::Table(TableCommand::List))));
}

#[test]
fn parses_game_commands() {
    let ten_hearts = Card::new(CardValue::Number10, Suite::Hearts);
    assert!(matches!(Cmd::parse("game start"), Ok(Command::Game(GameCommand::Start))));
    assert!(matches!(Cmd::parse("game state"), Ok(Command::Game(GameCommand::State))));
    match Cmd::parse("game put 02") {
        Ok(Command::Game(GameCommand::Action(a))) => {
            assert_eq!(a, GameAction::PutCard(ten_hearts, None))
        }
        other => panic!("{:?}", other),
    }
    match Cmd::parse("game put 02 3") {
        Ok(Command::Game(GameCommand::Action(a))) => {
            assert_eq!(a, GameAction::PutCard(ten_hearts, Some(3)))
        }
        other => panic!("{:?}", other),
    }
    assert_eq!(GameCommand::parse("take").unwrap(), GameCommand::Action(GameAction::TakeCards));
    assert_eq!(GameCommand::parse(" done ").unwrap(), GameCommand::Action(GameAction::EndRound));
    assert_eq!(
        GameCommand::parse("put A4 +12").unwrap(),
        GameCommand::Action(GameAction::PutCard(Card::new(CardValue::Ace, Suite::Clubs), Some(12)))
    );
}

#[test]
fn reports_parse_errors() {
    assert_eq!(parse_error(""), "Unknown command .");
    assert_eq!(parse_error("dance now"), "Unknown command dance.");
    assert_eq!(parse_error("player"), "No player command specified.");
    assert_eq!(parse_error("table"), "No table command specified.");
    assert_eq!(parse_error("game"), "No game command specified.");
    assert_eq!(parse_error("player name"), "No name specified.");
    assert_eq!(parse_error("player jump"), "Unknown player command jump.");
    assert_eq!(parse_error("table new"), "No table name specified.");
    assert_eq!(parse_error("table join"), "No table hash specified.");
    assert_eq!(parse_error("table join XYZ"), "Could not parse table hash.");
    assert_eq!(parse_error("table join 10000000000000000"), "Could not parse table hash.");
    assert_eq!(parse_error("table chat"), "No message specified.");
    assert_eq!(parse_error("table flip"), "Unknown table command flip.");
    assert_eq!(parse_error("game put"), "No card specified.");
    assert_eq!(parse_error("game put 51"), "Invalid card value specified.");
    assert_eq!(parse_error("game put 05"), "Invalid suite specified.");
    assert_eq!(parse_error("game put 02 x"), "invalid digit found in string");
    assert_eq!(parse_error("game put 02 +"), "invalid digit found in string");
    assert_eq!(
        parse_error("game put 02 99999999999999999999999"),
        "number too large to fit in target type"
    );
    assert_eq!(parse_error("game win"), "Unknown game command win.");
}

#[test]
fn error_lines() {
    let a: Answer<DefaultRules> =
        Answer::Error(DurakError::new(DurakErrorType::GameError, "Table not found.".to_string()));
    assert_eq!(a.to_text(1), "ERROR Table not found.\n");
    let u: Answer<DefaultRules> =
        Answer::Error(DurakError::new(DurakErrorType::Unimplemented, "later".to_string()));
    assert_eq!(u.to_text(1), "ERROR Unimplemented feature.\n");
}

#[test]
fn chat_line_keeps_sender_and_text() {
    let a: Answer<DefaultRules> = Answer::Chat(0xAB, "hello  there".to_string());
    let text = a.to_text(7);
    assert_eq!(text, "chat 00000000000000AB hello  there\n");
    let hash = u64::from_str_radix(&text[5..21], 16).unwrap();
    assert_eq!(hash, 0xAB);
    assert_eq!(&text[22..text.len() - 1], "hello  there");
}

#[test]
fn player_lines() {
    let mut p = Player::new();
    p.name = "Alice".to_string();
    let mut m = HashMap::new();
    m.insert(0x1234u64, p);
    let a: Answer<DefaultRules> = Answer::PlayerList(m);
    assert_eq!(a.to_text(0), "\t0000000000001234 Alice\n");
    let empty: Answer<DefaultRules> = Answer::PlayerList(HashMap::new());
    assert_eq!(empty.to_text(0), "");

    let mut q = Player::new();
    q.name = "Bob".to_string();
    q.table = Some(0xFEDCBA9876543210);
    let s: Answer<DefaultRules> = Answer::PlayerState(u64::MAX, q);
    assert_eq!(
        s.to_text(0),
        "\thash  FFFFFFFFFFFFFFFF\n\tname  Bob\n\ttable FEDCBA9876543210\n"
    );
}

#[test]
fn game_state_lines() {
    let mut g = GameState::new();
    let c = |v, s| Card::new(v, s);
    g.player_cards.insert(5, vec![c(CardValue::Ace, Suite::Hearts), c(CardValue::Number6, Suite::Clubs)]);
    g.card_stack = vec![c(CardValue::Jack, Suite::Spades)];
    g.trump = Some(Suite::Spades);
    g.table_stacks = vec![
        (c(CardValue::Number7, Suite::Diamonds), Some(c(CardValue::Number9, Suite::Diamonds))),
        (c(CardValue::King, Suite::Hearts), None),
    ];
    g.target_player = Some(5);
    let a: Answer<DefaultRules> = Answer::GameState(g);
    assert_eq!(
        a.to_text(5),
        "cards A2 64\ntrump J3\ntable 71/91 K2/--\ntarget 0000000000000005\n"
    );
    assert_eq!(
        a.to_text(6),
        "cards \ntrump J3\ntable 71/91 K2/--\ntarget 0000000000000005\n"
    );
    let mut h = GameState::new();
    h.trump = Some(Suite::Clubs);
    let b: Answer<DefaultRules> = Answer::GameState(h);
    assert_eq!(b.to_text(1), "cards \ntrump -4\ntable \n");
}

#[test]
fn duplex_channel_carries_values_both_ways() {
    let (a, b) = DuplexChannel::<u32, String>::new();
    let e = a.try_recv().unwrap_err();
    assert_eq!(e.error_type(), DurakErrorType::ChannelRecvError);
    assert_eq!(e.message(), "receiving on an empty channel");
    b.send("hello".to_string()).unwrap();
    assert_eq!(a.try_recv().unwrap(), "hello");
    a.send(7).unwrap();
    assert_eq!(b.recv(), Some(7));
    drop(b);
    let e = a.send(8).unwrap_err();
    assert_eq!(e.error_type(), DurakErrorType::ChannelSendError);
    assert_eq!(e.message(), "sending on a closed channel");
    let e = a.try_recv().unwrap_err();
    assert_eq!(e.message(), "receiving on an empty and disconnected channel");
}
