//! The line protocol: commands and answers, how they are read and written, and
//! the in-process channels that carry them between threads.

use vstd::prelude::*;
use vstd::std_specs::hash::spec_hash_map_iter;
use vstd::std_specs::iter::IteratorSpec;

use std::collections::HashMap;
use std::sync::mpsc::{self, Receiver, Sender, TryRecvError};

use crate::game::{
    card_text, parse_card, players_view, tables_view, Card, GameState, GameStateView, Player,
    PlayerView, Table, TableHash, TableView,
};
use crate::rules::GameRules;
use crate::text::{
    after_word, chars_of, decimal, first_word, hex16, int_error_message, int_error_text,
    lemma_hex16_injective, lemma_hex_digits_shape, parse_unsigned, parse_unsigned_window, push_hex,
    split_word, trim, trim_all, trim_range, window_is,
};

verus! {

/// Identity of a connected client, random per connection.
pub type ClientHash = u64;

/// What kind of failure a `DurakError` reports.
#[derive(Debug, Clone, Copy, PartialEq, Eq, Structural)]
pub enum DurakErrorType {
    IOError,
    ChannelSendError,
    ChannelRecvError,
    ParserError,
    GameError,
    Unimplemented,
}

/// An error reported back to a client: its kind and a human-readable message.
#[derive(Debug, Clone)]
pub struct DurakError {
    error_type: DurakErrorType,
    message: String,
}

impl View for DurakError {
    type V = (DurakErrorType, Seq<char>);

    closed spec fn view(&self) -> (DurakErrorType, Seq<char>) {
        (self.error_type, self.message@)
    }
}

impl DurakError {
    pub fn new(t: DurakErrorType, m: String) -> (r: DurakError)
        ensures
            r@ == (t, m@),
    {
        DurakError { error_type: t, message: m }
    }

    pub fn error_type(&self) -> (r: DurakErrorType)
        ensures
            r == self@.0,
    {
        self.error_type
    }

    pub fn message(&self) -> (r: &str)
        ensures
            r@ == self@.1,
    {
        self.message.as_str()
    }

    /// A game error: a well-formed command that the rules or the lobby refuse.
    pub fn game(m: &str) -> (r: DurakError)
        ensures
            r@ == (DurakErrorType::GameError, m@),
    {
        DurakError::new(DurakErrorType::GameError, String::from_str(m))
    }

    /// A parser error: a line that is no well-formed command.
    pub fn parser(m: &str) -> (r: DurakError)
        ensures
            r@ == (DurakErrorType::ParserError, m@),
    {
        DurakError::new(DurakErrorType::ParserError, String::from_str(m))
    }
}

/// A move in a running game.
#[derive(Debug, Clone, Copy, PartialEq, Eq, Structural)]
pub enum GameAction {
    /// Shuffle a fresh deck and deal it to the seated players.
    DealCards,
    /// Put a card on the table: a new attack without a stack index, or the
    /// defence of the given stack.
    PutCard(Card, Option<usize>),
    /// The defender gives up the round and takes every card on the table.
    TakeCards,
    /// The attacker closes a round in which every stack was defended.
    EndRound,
}

/// A parsed request of a client.
#[derive(Debug, Clone)]
pub enum Command<T: GameRules + Clone> {
    Player(PlayerCommand),
    Table(TableCommand),
    Game(GameCommand),
    /// An answer to hand straight back to the client, such as a parser error.
    Answer(Answer<T>),
    Quit,
}

/// What the server sends to clients.
#[derive(Debug, Clone)]
pub enum Answer<T: GameRules + Clone> {
    PlayerList(HashMap<ClientHash, Player>),
    PlayerState(ClientHash, Player),
    TableList(HashMap<TableHash, Table<T>>),
    Error(DurakError),
    Chat(ClientHash, String),
    GameState(GameState),
}

/// Who receives an answer: the client who sent the command, or a list of clients.
#[derive(Debug)]
pub enum AnswerTarget {
    Direct,
    List(Vec<ClientHash>),
}

#[derive(Debug, Clone)]
pub enum PlayerCommand {
    Name(String),
    State,
    List,
}

#[derive(Debug, Clone)]
pub enum TableCommand {
    New(String),
    Join(TableHash),
    Chat(String),
    Leave,
    List,
}

#[derive(Debug, Clone, Copy, PartialEq, Eq, Structural)]
pub enum GameCommand {
    Start,
    State,
    Action(GameAction),
}

pub enum AnswerView<T> {
    PlayerList(Map<ClientHash, PlayerView>),
    PlayerState(ClientHash, PlayerView),
    TableList(Map<TableHash, TableView<T>>),
    Error((DurakErrorType, Seq<char>)),
    Chat(ClientHash, Seq<char>),
    GameState(GameStateView),
}

pub enum TargetView {
    Direct,
    List(Seq<ClientHash>),
}

pub enum PlayerCommandView {
    Name(Seq<char>),
    State,
    List,
}

pub enum TableCommandView {
    New(Seq<char>),
    Join(TableHash),
    Chat(Seq<char>),
    Leave,
    List,
}

pub enum CommandView<T> {
    Player(PlayerCommandView),
    Table(TableCommandView),
    Game(GameCommand),
    Answer(AnswerView<T>),
    Quit,
}

/// An answer and its recipients, as mathematical values.
pub type Reply<T> = Option<(TargetView, AnswerView<T>)>;

impl<T: GameRules + Clone> View for Answer<T> {
    type V = AnswerView<T>;

    open spec fn view(&self) -> AnswerView<T> {
        match self {
            Answer::PlayerList(m) => AnswerView::PlayerList(players_view(m@)),
            Answer::PlayerState(c, p) => AnswerView::PlayerState(*c, p@),
            Answer::TableList(m) => AnswerView::TableList(tables_view(m@)),
            Answer::Error(e) => AnswerView::Error(e@),
            Answer::Chat(c, m) => AnswerView::Chat(*c, m@),
            Answer::GameState(g) => AnswerView::GameState(g@),
        }
    }
}

impl View for AnswerTarget {
    type V = TargetView;

    open spec fn view(&self) -> TargetView {
        match self {
            AnswerTarget::Direct => TargetView::Direct,
            AnswerTarget::List(v) => TargetView::List(v@),
        }
    }
}

impl View for PlayerCommand {
    type V = PlayerCommandView;

    open spec fn view(&self) -> PlayerCommandView {
        match self {
            PlayerCommand::Name(n) => PlayerCommandView::Name(n@),
            PlayerCommand::State => PlayerCommandView::State,
            PlayerCommand::List => PlayerCommandView::List,
        }
    }
}

impl View for TableCommand {
    type V = TableCommandView;

    open spec fn view(&self) -> TableCommandView {
        match self {
            TableCommand::New(n) => TableCommandView::New(n@),
            TableCommand::Join(h) => TableCommandView::Join(*h),
            TableCommand::Chat(m) => TableCommandView::Chat(m@),
            TableCommand::Leave => TableCommandView::Leave,
            TableCommand::List => TableCommandView::List,
        }
    }
}

impl<T: GameRules + Clone> View for Command<T> {
    type V = CommandView<T>;

    open spec fn view(&self) -> CommandView<T> {
        match self {
            Command::Player(c) => CommandView::Player(c@),
            Command::Table(c) => CommandView::Table(c@),
            Command::Game(c) => CommandView::Game(*c),
            Command::Answer(a) => CommandView::Answer(a@),
            Command::Quit => CommandView::Quit,
        }
    }
}

/// The reply that the lobby hands back, as mathematical values.
pub open spec fn reply_view<T: GameRules + Clone>(r: Option<(AnswerTarget, Answer<T>)>) -> Reply<T> {
    match r {
        Some((t, a)) => Some((t@, a@)),
        None => None,
    }
}

/// A game error for the sender alone.
pub open spec fn direct_error<T>(m: Seq<char>) -> Reply<T> {
    Some((TargetView::Direct, AnswerView::Error((DurakErrorType::GameError, m))))
}

/// Reading the words after `player`.
pub open spec fn parse_player_command(line: Seq<char>) -> Result<PlayerCommandView, Seq<char>> {
    let l = trim(line);
    let head = first_word(l);
    if head == "name"@ {
        match after_word(l) {
            Some(t) => Ok(PlayerCommandView::Name(trim(t))),
            None => Err("No name specified."@),
        }
    } else if head == "list"@ {
        Ok(PlayerCommandView::List)
    } else if head == "state"@ {
        Ok(PlayerCommandView::State)
    } else {
        Err("Unknown player command "@ + head + "."@)
    }
}

/// Reading the words after `table`; a table hash is hexadecimal and a chat message
/// is kept as it stands.
pub open spec fn parse_table_command(line: Seq<char>) -> Result<TableCommandView, Seq<char>> {
    let l = trim(line);
    let head = first_word(l);
    if head == "new"@ {
        match after_word(l) {
            Some(t) => Ok(TableCommandView::New(trim(t))),
            None => Err("No table name specified."@),
        }
    } else if head == "join"@ {
        match after_word(l) {
            Some(t) => match parse_unsigned(t, 16, u64::MAX as nat) {
                Ok(h) => Ok(TableCommandView::Join(h as u64)),
                Err(_) => Err("Could not parse table hash."@),
            },
            None => Err("No table hash specified."@),
        }
    } else if head == "list"@ {
        Ok(TableCommandView::List)
    } else if head == "leave"@ {
        Ok(TableCommandView::Leave)
    } else if head == "chat"@ {
        match after_word(l) {
            Some(t) => Ok(TableCommandView::Chat(t)),
            None => Err("No message specified."@),
        }
    } else {
        Err("Unknown table command "@ + head + "."@)
    }
}

/// Reading `put <card> [<stack index>]`: the card token, then, if more follows, the
/// decimal index in the next word.
pub open spec fn parse_put(t: Seq<char>) -> Result<GameCommand, Seq<char>> {
    match parse_card(first_word(t)) {
        Err(m) => Err(m),
        Ok(card) => match after_word(t) {
            None => Ok(GameCommand::Action(GameAction::PutCard(card, None))),
            Some(rest) => match parse_unsigned(first_word(rest), 10, usize::MAX as nat) {
                Ok(i) => Ok(GameCommand::Action(GameAction::PutCard(card, Some(i as usize)))),
                Err(k) => Err(int_error_text(k)),
            },
        },
    }
}

/// Reading the words after `game`.
pub open spec fn parse_game_command(line: Seq<char>) -> Result<GameCommand, Seq<char>> {
    let l = trim(line);
    let head = first_word(l);
    if head == "start"@ {
        Ok(GameCommand::Start)
    } else if head == "state"@ {
        Ok(GameCommand::State)
    } else if head == "put"@ {
        match after_word(l) {
            Some(t) => parse_put(t),
            None => Err("No card specified."@),
        }
    } else if head == "take"@ {
        Ok(GameCommand::Action(GameAction::TakeCards))
    } else if head == "done"@ {
        Ok(GameCommand::Action(GameAction::EndRound))
    } else {
        Err("Unknown game command "@ + head + "."@)
    }
}

/// Reading a whole line: the first word picks the kind of command, the rest is read
/// by that kind's reader; a failure anywhere is the message of a parser error.
pub open spec fn parse_command<T>(line: Seq<char>) -> Result<CommandView<T>, Seq<char>> {
    let l = trim(line);
    let head = first_word(l);
    if head == "quit"@ {
        Ok(CommandView::Quit)
    } else if head == "player"@ {
        match after_word(l) {
            Some(t) => match parse_player_command(t) {
                Ok(c) => Ok(CommandView::Player(c)),
                Err(m) => Err(m),
            },
            None => Err("No player command specified."@),
        }
    } else if head == "table"@ {
        match after_word(l) {
            Some(t) => match parse_table_command(t) {
                Ok(c) => Ok(CommandView::Table(c)),
                Err(m) => Err(m),
            },
            None => Err("No table command specified."@),
        }
    } else if head == "game"@ {
        match after_word(l) {
            Some(t) => match parse_game_command(t) {
                Ok(c) => Ok(CommandView::Game(c)),
                Err(m) => Err(m),
            },
            None => Err("No game command specified."@),
        }
    } else {
        Err("Unknown command "@ + head + "."@)
    }
}

/// `prefix`, the text of `line` between `from` and `to`, and a full stop.
fn unknown_message(prefix: &str, line: &str, from: usize, to: usize) -> (r: String)
    requires
        from <= to <= line@.len(),
    ensures
        r@ == prefix@ + line@.subrange(from as int, to as int) + "."@,
{
    let mut m = String::from_str(prefix);
    m.append(line.substring_char(from, to));
    m.append(".");
    m
}

/// Whether `r` is what reading gave: the same command, or a parser error with the
/// same message.
pub open spec fn parsed_as<C, V>(
    r: Result<C, DurakError>,
    view: spec_fn(C) -> V,
    expected: Result<V, Seq<char>>,
) -> bool {
    match (r, expected) {
        (Ok(c), Ok(v)) => view(c) == v,
        (Err(e), Err(m)) => e@ == (DurakErrorType::ParserError, m),
        _ => false,
    }
}

impl PlayerCommand {
    pub fn parse(line: &str) -> (r: Result<PlayerCommand, DurakError>)
        ensures
            parsed_as(r, |c: PlayerCommand| c@, parse_player_command(line@)),
    {
        let v = chars_of(line);
        let (a, b) = trim_all(&v);
        let k = split_word(&v, a, b);
        if window_is(&v, a, k, "name") {
            if k < b {
                let (x, y) = trim_range(&v, k + 1, b);
                Ok(PlayerCommand::Name(String::from_str(line.substring_char(x, y))))
            } else {
                Err(DurakError::parser("No name specified."))
            }
        } else if window_is(&v, a, k, "list") {
            Ok(PlayerCommand::List)
        } else if window_is(&v, a, k, "state") {
            Ok(PlayerCommand::State)
        } else {
            Err(
                DurakError::new(
                    DurakErrorType::ParserError,
                    unknown_message("Unknown player command ", line, a, k),
                ),
            )
        }
    }
}

impl TableCommand {
    pub fn parse(line: &str) -> (r: Result<TableCommand, DurakError>)
        ensures
            parsed_as(r, |c: TableCommand| c@, parse_table_command(line@)),
    {
        let v = chars_of(line);
        let (a, b) = trim_all(&v);
        let k = split_word(&v, a, b);
        if window_is(&v, a, k, "new") {
            if k < b {
                let (x, y) = trim_range(&v, k + 1, b);
                Ok(TableCommand::New(String::from_str(line.substring_char(x, y))))
            } else {
                Err(DurakError::parser("No table name specified."))
            }
        } else if window_is(&v, a, k, "join") {
            if k < b {
                match parse_unsigned_window(&v, k + 1, b, 16, u64::MAX) {
                    Ok(h) => Ok(TableCommand::Join(h)),
                    Err(_) => Err(DurakError::parser("Could not parse table hash.")),
                }
            } else {
                Err(DurakError::parser("No table hash specified."))
            }
        } else if window_is(&v, a, k, "list") {
            Ok(TableCommand::List)
        } else if window_is(&v, a, k, "leave") {
            Ok(TableCommand::Leave)
        } else if window_is(&v, a, k, "chat") {
            if k < b {
                Ok(TableCommand::Chat(String::from_str(line.substring_char(k + 1, b))))
            } else {
                Err(DurakError::parser("No message specified."))
            }
        } else {
            Err(
                DurakError::new(
                    DurakErrorType::ParserError,
                    unknown_message("Unknown table command ", line, a, k),
                ),
            )
        }
    }
}

impl GameCommand {
    pub fn parse(line: &str) -> (r: Result<GameCommand, DurakError>)
        ensures
            parsed_as(r, |c: GameCommand| c, parse_game_command(line@)),
    {
        let v = chars_of(line);
        let (a, b) = trim_all(&v);
        let k = split_word(&v, a, b);
        if window_is(&v, a, k, "start") {
            Ok(GameCommand::Start)
        } else if window_is(&v, a, k, "state") {
            Ok(GameCommand::State)
        } else if window_is(&v, a, k, "put") {
            if k < b {
                let k2 = split_word(&v, k + 1, b);
                let card = match Card::from_str(line.substring_char(k + 1, k2)) {
                    Ok(c) => c,
                    Err(e) => return Err(e),
                };
                if k2 < b {
                    let k3 = split_word(&v, k2 + 1, b);
                    match parse_unsigned_window(&v, k2 + 1, k3, 10, usize::MAX as u64) {
                        Ok(i) => Ok(GameCommand::Action(GameAction::PutCard(card, Some(i as usize)))),
                        Err(kind) => Err(DurakError::parser(int_error_message(kind))),
                    }
                } else {
                    Ok(GameCommand::Action(GameAction::PutCard(card, None)))
                }
            } else {
                Err(DurakError::parser("No card specified."))
            }
        } else if window_is(&v, a, k, "take") {
            Ok(GameCommand::Action(GameAction::TakeCards))
        } else if window_is(&v, a, k, "done") {
            Ok(GameCommand::Action(GameAction::EndRound))
        } else {
            Err(
                DurakError::new(
                    DurakErrorType::ParserError,
                    unknown_message("Unknown game command ", line, a, k),
                ),
            )
        }
    }
}

impl<T: GameRules + Clone> Command<T> {
    /// Reads one line of a client.
    pub fn parse(line: &str) -> (r: Result<Command<T>, DurakError>)
        ensures
            parsed_as(r, |c: Command<T>| c@, parse_command::<T>(line@)),
    {
        let v = chars_of(line);
        let (a, b) = trim_all(&v);
        let k = split_word(&v, a, b);
        if window_is(&v, a, k, "quit") {
            Ok(Command::Quit)
        } else if window_is(&v, a, k, "player") {
            if k < b {
                match PlayerCommand::parse(line.substring_char(k + 1, b)) {
                    Ok(c) => Ok(Command::Player(c)),
                    Err(e) => Err(e),
                }
            } else {
                Err(DurakError::parser("No player command specified."))
            }
        } else if window_is(&v, a, k, "table") {
            if k < b {
                match TableCommand::parse(line.substring_char(k + 1, b)) {
                    Ok(c) => Ok(Command::Table(c)),
                    Err(e) => Err(e),
                }
            } else {
                Err(DurakError::parser("No table command specified."))
            }
        } else if window_is(&v, a, k, "game") {
            if k < b {
                match GameCommand::parse(line.substring_char(k + 1, b)) {
                    Ok(c) => Ok(Command::Game(c)),
                    Err(e) => Err(e),
                }
            } else {
                Err(DurakError::parser("No game command specified."))
            }
        } else {
            Err(
                DurakError::new(
                    DurakErrorType::ParserError,
                    unknown_message("Unknown command ", line, a, k),
                ),
            )
        }
    }
}

/// The text that an error shows to the client.
pub open spec fn error_text(e: (DurakErrorType, Seq<char>)) -> Seq<char> {
    if e.0 == DurakErrorType::Unimplemented {
        "Unimplemented feature."@
    } else {
        e.1
    }
}

impl DurakError {
    pub fn to_string(&self) -> (r: String)
        ensures
            r@ == error_text(self@),
    {
        if self.error_type == DurakErrorType::Unimplemented {
            String::from_str("Unimplemented feature.")
        } else {
            self.message.clone()
        }
    }
}

pub open spec fn player_line(h: ClientHash, p: PlayerView) -> Seq<char> {
    "\t"@ + hex16(h) + " "@ + p.name + "\n"@
}

/// One line per player, in the order of `ks`.
pub open spec fn player_lines(ks: Seq<ClientHash>, m: Map<ClientHash, PlayerView>) -> Seq<char>
    decreases ks.len(),
{
    if ks.len() == 0 {
        Seq::empty()
    } else {
        player_lines(ks.drop_last(), m) + player_line(ks.last(), m[ks.last()])
    }
}

pub open spec fn table_line<T>(h: TableHash, t: TableView<T>) -> Seq<char> {
    "\t"@ + hex16(h) + " "@ + decimal(t.players.len()) + " "@ + decimal(t.min_players as nat) + " "@
        + decimal(t.max_players as nat) + " "@ + (if t.game_state is Some {
        "Game"@
    } else {
        "Idle"@
    }) + " "@ + t.name + "\n"@
}

/// One line per table, in the order of `ks`.
pub open spec fn table_lines<T>(ks: Seq<TableHash>, m: Map<TableHash, TableView<T>>) -> Seq<char>
    decreases ks.len(),
{
    if ks.len() == 0 {
        Seq::empty()
    } else {
        table_lines(ks.drop_last(), m) + table_line(ks.last(), m[ks.last()])
    }
}

pub open spec fn player_state_text(h: ClientHash, p: PlayerView) -> Seq<char> {
    "\thash  "@ + hex16(h) + "\n"@ + "\tname  "@ + p.name + "\n"@ + match p.table {
        Some(t) => "\ttable "@ + hex16(t) + "\n"@,
        None => Seq::empty(),
    }
}

/// The cards of a hand, separated by single spaces.
pub open spec fn hand_text(h: Seq<Card>) -> Seq<char>
    decreases h.len(),
{
    if h.len() == 0 {
        Seq::empty()
    } else if h.len() == 1 {
        card_text(h[0])
    } else {
        hand_text(h.drop_last()) + " "@ + card_text(h.last())
    }
}

/// A stack as `attack/defence`, with `--` for a missing defence.
pub open spec fn stack_text(st: (Card, Option<Card>)) -> Seq<char> {
    card_text(st.0) + "/"@ + match st.1 {
        Some(d) => card_text(d),
        None => "--"@,
    }
}

/// The stacks, separated by single spaces.
pub open spec fn stacks_text(ss: Seq<(Card, Option<Card>)>) -> Seq<char>
    decreases ss.len(),
{
    if ss.len() == 0 {
        Seq::empty()
    } else if ss.len() == 1 {
        stack_text(ss[0])
    } else {
        stacks_text(ss.drop_last()) + " "@ + stack_text(ss.last())
    }
}

/// The card that shows the trump, or `-` and the trump suit once the pile is empty,
/// or `--` without a trump.
pub open spec fn trump_text(g: GameStateView) -> Seq<char> {
    if g.draw_pile.len() > 0 {
        card_text(g.draw_pile.last())
    } else {
        match g.trump {
            Some(su) => seq!['-', su.symbol()],
            None => "--"@,
        }
    }
}

pub open spec fn cards_line(g: GameStateView, recipient: ClientHash) -> Seq<char> {
    "cards "@ + (if g.hands.contains_key(recipient) {
        hand_text(g.hands[recipient])
    } else {
        Seq::empty()
    }) + "\n"@
}

pub open spec fn trump_line(g: GameStateView) -> Seq<char> {
    "trump "@ + trump_text(g) + "\n"@
}

pub open spec fn stacks_line(g: GameStateView) -> Seq<char> {
    "table "@ + stacks_text(g.stacks) + "\n"@
}

pub open spec fn target_line(g: GameStateView) -> Seq<char> {
    match g.target {
        Some(t) => "target "@ + hex16(t) + "\n"@,
        None => Seq::empty(),
    }
}

pub open spec fn loser_line(g: GameStateView) -> Seq<char> {
    match g.loser {
        Some(p) => "loser "@ + hex16(p) + "\n"@,
        None => Seq::empty(),
    }
}

/// A game as `recipient` sees it: their own hand, the trump, the table, the defender
/// and, once the game is over, the loser.
pub open spec fn game_text(g: GameStateView, recipient: ClientHash) -> Seq<char> {
    cards_line(g, recipient) + trump_line(g) + stacks_line(g) + target_line(g) + loser_line(g)
}

/// `ks` lists each key of `m` exactly once.
pub open spec fn is_key_order<K, V>(ks: Seq<K>, m: Map<K, V>) -> bool {
    &&& ks.no_duplicates()
    &&& forall|i: int| 0 <= i < ks.len() ==> m.contains_key(#[trigger] ks[i])
    &&& forall|k: K| #[trigger] m.contains_key(k) ==> ks.contains(k)
}

/// Whether `text` is how answer `a` is written to `recipient`: one line per entry
/// for the lists, in the order in which the map hands its entries out.
pub open spec fn answer_text<T>(a: AnswerView<T>, recipient: ClientHash, text: Seq<char>) -> bool {
    match a {
        AnswerView::PlayerList(m) => exists|ks: Seq<ClientHash>|
            #![trigger player_lines(ks, m)]
            is_key_order(ks, m) && text == player_lines(ks, m),
        AnswerView::PlayerState(h, p) => text == player_state_text(h, p),
        AnswerView::TableList(m) => exists|ks: Seq<TableHash>|
            #![trigger table_lines(ks, m)]
            is_key_order(ks, m) && text == table_lines(ks, m) + "\n"@,
        AnswerView::Error(e) => text == "ERROR "@ + error_text(e) + "\n"@,
        AnswerView::Chat(h, m) => text == "chat "@ + hex16(h) + " "@ + m + "\n"@,
        AnswerView::GameState(g) => text == game_text(g, recipient),
    }
}

proof fn lemma_iter_keys<V>(m: &HashMap<u64, V>)
    requires
        spec_hash_map_iter(m).remaining().no_duplicates(),
    ensures
        is_key_order(
            spec_hash_map_iter(m).remaining().map_values(|e: (&u64, &V)| *e.0),
            m@,
        ),
{
    let v = spec_hash_map_iter(m).remaining();
    let ks = v.map_values(|e: (&u64, &V)| *e.0);
    assert forall|i: int| 0 <= i < ks.len() implies m@.contains_key(#[trigger] ks[i]) by {
        assert(m@.contains_key(*v[i].0));
    }
    assert forall|k: u64| #[trigger] m@.contains_key(k) implies ks.contains(k) by {
        assert(v.contains((&k, &m@[k])));
        let i = choose|i: int| 0 <= i < v.len() && v[i] == (&k, &m@[k]);
        assert(ks[i] == k);
    }
    assert forall|i: int, j: int| 0 <= i < ks.len() && 0 <= j < ks.len() && i != j implies ks[i]
        != ks[j] by {
        if ks[i] == ks[j] {
            assert(m@[*v[i].0] == *v[i].1);
            assert(m@[*v[j].0] == *v[j].1);
            assert(v[i] == v[j]);
        }
    }
}

fn push_player_lines(s: &mut String, m: &HashMap<ClientHash, Player>)
    ensures
        exists|ks: Seq<ClientHash>|
            #![trigger player_lines(ks, players_view(m@))]
            is_key_order(ks, players_view(m@)) && final(s)@ == old(s)@ + player_lines(
                ks,
                players_view(m@),
            ),
{
    let ghost mv = players_view(m@);
    let ghost start = s@;
    let ghost all = spec_hash_map_iter(m).remaining();
    for e in it: m.iter()
        invariant
            s@ == start + player_lines(
                all.take(it.index()).map_values(|e: (&u64, &Player)| *e.0),
                mv,
            ),
            mv == players_view(m@),
            it.seq() == all,
            all.no_duplicates(),
            all == spec_hash_map_iter(m).remaining(),
    {
        let (k, p) = e;
        let ghost before = all.take(it.index()).map_values(|e: (&u64, &Player)| *e.0);
        s.append("\t");
        push_hex(s, *k, 16);
        s.append(" ");
        s.append(p.name.as_str());
        s.append("\n");
        proof {
            let after = all.take(it.index() + 1).map_values(|e: (&u64, &Player)| *e.0);
            assert(after.drop_last() =~= before);
            assert(all[it.index()] == (k, p));
            assert(m@[*k] == *p);
        }
    }
    proof {
        lemma_iter_keys(m);
        assert(all.take(all.len() as int) =~= all);
    }
}

fn push_table_lines<T: GameRules + Clone>(s: &mut String, m: &HashMap<TableHash, Table<T>>)
    ensures
        exists|ks: Seq<TableHash>|
            #![trigger table_lines(ks, tables_view(m@))]
            is_key_order(ks, tables_view(m@)) && final(s)@ == old(s)@ + table_lines(
                ks,
                tables_view(m@),
            ),
{
    let ghost mv = tables_view(m@);
    let ghost start = s@;
    let ghost all = spec_hash_map_iter(m).remaining();
    for e in it: m.iter()
        invariant
            s@ == start + table_lines(all.take(it.index()).map_values(|e: (&u64, &Table<T>)| *e.0), mv),
            mv == tables_view(m@),
            it.seq() == all,
            all.no_duplicates(),
            all == spec_hash_map_iter(m).remaining(),
    {
        let (k, t) = e;
        let ghost before = all.take(it.index()).map_values(|e: (&u64, &Table<T>)| *e.0);
        t.push_line(s, *k);
        proof {
            let after = all.take(it.index() + 1).map_values(|e: (&u64, &Table<T>)| *e.0);
            assert(after.drop_last() =~= before);
            assert(all[it.index()] == (k, t));
            assert(m@[*k] == *t);
        }
    }
    proof {
        lemma_iter_keys(m);
        assert(all.take(all.len() as int) =~= all);
    }
}

fn push_hand(s: &mut String, h: &Vec<Card>)
    ensures
        final(s)@ == old(s)@ + hand_text(h@),
{
    let ghost start = s@;
    let mut i: usize = 0;
    while i < h.len()
        invariant
            i <= h@.len(),
            s@ == start + hand_text(h@.take(i as int)),
        decreases h@.len() - i,
    {
        let ghost p = h@.take(i + 1);
        assert(p.drop_last() =~= h@.take(i as int));
        if i > 0 {
            s.append(" ");
        }
        s.append(h[i].to_string().as_str());
        i = i + 1;
    }
    assert(h@.take(h@.len() as int) =~= h@);
}

fn push_stack(s: &mut String, st: (Card, Option<Card>))
    ensures
        final(s)@ == old(s)@ + stack_text(st),
{
    s.append(st.0.to_string().as_str());
    s.append("/");
    match st.1 {
        Some(d) => s.append(d.to_string().as_str()),
        None => s.append("--"),
    }
}

fn push_stacks(s: &mut String, ss: &Vec<(Card, Option<Card>)>)
    ensures
        final(s)@ == old(s)@ + stacks_text(ss@),
{
    let ghost start = s@;
    let mut i: usize = 0;
    while i < ss.len()
        invariant
            i <= ss@.len(),
            s@ == start + stacks_text(ss@.take(i as int)),
        decreases ss@.len() - i,
    {
        let ghost p = ss@.take(i + 1);
        assert(p.drop_last() =~= ss@.take(i as int));
        if i > 0 {
            s.append(" ");
        }
        push_stack(s, ss[i]);
        i = i + 1;
    }
    assert(ss@.take(ss@.len() as int) =~= ss@);
}

fn push_cards_line(s: &mut String, g: &GameState, recipient: ClientHash)
    ensures
        final(s)@ == old(s)@ + cards_line(g@, recipient),
{
    let ghost s0 = s@;
    s.append("cards ");
    match g.player_cards.get(&recipient) {
        Some(h) => {
            assert(g@.hands[recipient] == h@);
            push_hand(s, h);
        },
        None => {},
    }
    s.append("\n");
    assert(s@ =~= s0 + cards_line(g@, recipient));
}

fn push_trump_line(s: &mut String, g: &GameState)
    ensures
        final(s)@ == old(s)@ + trump_line(g@),
{
    let ghost s0 = s@;
    s.append("trump ");
    if g.card_stack.len() > 0 {
        s.append(g.card_stack[g.card_stack.len() - 1].to_string().as_str());
    } else {
        match g.trump {
            Some(su) => {
                proof {
                    reveal_strlit("-");
                }
                s.append("-");
                s.append(su.to_string().as_str());
            },
            None => s.append("--"),
        }
    }
    s.append("\n");
    assert(s@ =~= s0 + trump_line(g@));
}

fn push_game_text(s: &mut String, g: &GameState, recipient: ClientHash)
    ensures
        final(s)@ == old(s)@ + game_text(g@, recipient),
{
    let ghost s0 = s@;
    push_cards_line(s, g, recipient);
    push_trump_line(s, g);
    let ghost s2 = s@;
    s.append("table ");
    push_stacks(s, &g.table_stacks);
    s.append("\n");
    assert(s@ =~= s2 + stacks_line(g@));
    let ghost s3 = s@;
    match g.target_player {
        Some(t) => {
            s.append("target ");
            push_hex(s, t, 16);
            s.append("\n");
        },
        None => {},
    }
    assert(s@ =~= s3 + target_line(g@));
    let ghost s4 = s@;
    match g.loser {
        Some(p) => {
            s.append("loser ");
            push_hex(s, p, 16);
            s.append("\n");
        },
        None => {},
    }
    assert(s@ =~= s4 + loser_line(g@));
    assert(s@ =~= s0 + game_text(g@, recipient));
}

impl<T: GameRules + Clone> Answer<T> {
    /// The lines that send this answer to `recipient`.
    pub fn to_text(&self, recipient: ClientHash) -> (r: String)
        ensures
            answer_text(self@, recipient, r@),
    {
        let mut s = String::new();
        match self {
            Answer::PlayerList(m) => push_player_lines(&mut s, m),
            Answer::PlayerState(h, p) => {
                s.append("\thash  ");
                push_hex(&mut s, *h, 16);
                s.append("\n");
                s.append("\tname  ");
                s.append(p.name.as_str());
                s.append("\n");
                match p.table {
                    Some(t) => {
                        s.append("\ttable ");
                        push_hex(&mut s, t, 16);
                        s.append("\n");
                    },
                    None => {},
                }
            },
            Answer::TableList(m) => {
                push_table_lines(&mut s, m);
                s.append("\n");
            },
            Answer::Error(e) => {
                s.append("ERROR ");
                s.append(e.to_string().as_str());
                s.append("\n");
            },
            Answer::Chat(h, m) => {
                s.append("chat ");
                push_hex(&mut s, *h, 16);
                s.append(" ");
                s.append(m.as_str());
                s.append("\n");
            },
            Answer::GameState(g) => push_game_text(&mut s, g, recipient),
        }
        proof {
            match self@ {
                AnswerView::PlayerState(h, p) => {
                    assert(s@ =~= player_state_text(h, p));
                },
                AnswerView::Error(e) => {
                    assert(s@ =~= "ERROR "@ + error_text(e) + "\n"@);
                },
                AnswerView::Chat(h, m) => {
                    assert(s@ =~= "chat "@ + hex16(h) + " "@ + m + "\n"@);
                },
                AnswerView::GameState(g) => {
                    assert(s@ =~= game_text(g, recipient));
                },
                AnswerView::PlayerList(m) => {
                    let ks = choose|ks: Seq<ClientHash>|
                        is_key_order(ks, m) && s@ == Seq::<char>::empty() + player_lines(ks, m);
                    assert(s@ =~= player_lines(ks, m));
                },
                AnswerView::TableList(m) => {
                    let ks = choose|ks: Seq<TableHash>|
                        is_key_order(ks, m) && s@ == Seq::<char>::empty() + table_lines(ks, m) + "\n"@;
                    assert(s@ =~= table_lines(ks, m) + "\n"@);
                },
            }
        }
        s
    }
}

/// A chat line keeps its fields: two chat answers written alike have the same
/// sender and the same text.
pub proof fn lemma_chat_text_lossless<T>(
    h1: ClientHash,
    m1: Seq<char>,
    h2: ClientHash,
    m2: Seq<char>,
    r1: ClientHash,
    r2: ClientHash,
    t: Seq<char>,
)
    requires
        answer_text(AnswerView::<T>::Chat(h1, m1), r1, t),
        answer_text(AnswerView::<T>::Chat(h2, m2), r2, t),
    ensures
        h1 == h2,
        m1 == m2,
{
    reveal_strlit("chat ");
    reveal_strlit(" ");
    reveal_strlit("\n");
    lemma_hex_digits_shape(h1 as nat, 16);
    lemma_hex_digits_shape(h2 as nat, 16);
    let t1 = "chat "@ + hex16(h1) + " "@ + m1 + "\n"@;
    let t2 = "chat "@ + hex16(h2) + " "@ + m2 + "\n"@;
    assert(t1.subrange(5, 21) =~= hex16(h1));
    assert(t2.subrange(5, 21) =~= hex16(h2));
    lemma_hex16_injective(h1, h2);
    assert(t1.subrange(22, t1.len() - 1) =~= m1);
    assert(t2.subrange(22, t2.len() - 1) =~= m2);
}

/// An error line keeps the text of the error: two error answers written alike show
/// the same text, which is the message itself for every kind of error but the
/// placeholder for missing features.
pub proof fn lemma_error_text_lossless<T>(
    e1: (DurakErrorType, Seq<char>),
    e2: (DurakErrorType, Seq<char>),
    r1: ClientHash,
    r2: ClientHash,
    t: Seq<char>,
)
    requires
        answer_text(AnswerView::<T>::Error(e1), r1, t),
        answer_text(AnswerView::<T>::Error(e2), r2, t),
    ensures
        error_text(e1) == error_text(e2),
        e1.0 != DurakErrorType::Unimplemented && e2.0 != DurakErrorType::Unimplemented ==> e1.1
            == e2.1,
{
    reveal_strlit("ERROR ");
    reveal_strlit("\n");
    let t1 = "ERROR "@ + error_text(e1) + "\n"@;
    let t2 = "ERROR "@ + error_text(e2) + "\n"@;
    assert(t1.subrange(6, t1.len() - 1) =~= error_text(e1));
    assert(t2.subrange(6, t2.len() - 1) =~= error_text(e2));
}

/// Which kind of answer `a` is.
pub open spec fn answer_kind<T>(a: AnswerView<T>) -> int {
    match a {
        AnswerView::PlayerList(_) => 0,
        AnswerView::PlayerState(_, _) => 1,
        AnswerView::TableList(_) => 2,
        AnswerView::Error(_) => 3,
        AnswerView::Chat(_, _) => 4,
        AnswerView::GameState(_) => 5,
    }
}

/// No player name in a player list holds a line break.
pub open spec fn single_line_names<T>(a: AnswerView<T>) -> bool {
    match a {
        AnswerView::PlayerList(m) => forall|k: ClientHash|
            #[trigger] m.contains_key(k) ==> !m[k].name.contains('\n'),
        _ => true,
    }
}

proof fn lemma_player_lines_shape(ks: Seq<ClientHash>, m: Map<ClientHash, PlayerView>)
    requires
        ks.len() > 0,
        forall|i: int| 0 <= i < ks.len() ==> m.contains_key(#[trigger] ks[i]),
        forall|k: ClientHash| #[trigger] m.contains_key(k) ==> !m[k].name.contains('\n'),
    ensures
        ({
            let t = player_lines(ks, m);
            &&& t.len() >= 19
            &&& t[0] == '\t'
            &&& t[1] != 'h'
            &&& t[t.len() - 1] == '\n'
            &&& t[t.len() - 2] != '\n'
        }),
    decreases ks.len(),
{
    reveal_strlit("\t");
    reveal_strlit(" ");
    reveal_strlit("\n");
    let k = ks.last();
    let line = player_line(k, m[k]);
    lemma_hex_digits_shape(k as nat, 16);
    assert(line[0] == '\t');
    assert(line[1] == hex16(k)[0]);
    if m[k].name.len() > 0 {
        assert(line[line.len() - 2] == m[k].name[m[k].name.len() - 1]);
    } else {
        assert(line[line.len() - 2] == ' ');
    }
    if ks.len() > 1 {
        lemma_player_lines_shape(ks.drop_last(), m);
    }
}

#[verifier::rlimit(40)]
proof fn lemma_table_lines_shape<T>(ks: Seq<TableHash>, m: Map<TableHash, TableView<T>>)
    requires
        ks.len() > 0,
    ensures
        ({
            let t = table_lines(ks, m);
            &&& t.len() >= 18
            &&& t[0] == '\t'
            &&& t[1] != 'h'
            &&& t[t.len() - 1] == '\n'
        }),
    decreases ks.len(),
{
    reveal_strlit("\t");
    reveal_strlit("\n");
    let k = ks.last();
    let line = table_line(k, m[k]);
    lemma_hex_digits_shape(k as nat, 16);
    let head = "\t"@ + hex16(k);
    assert(head.len() == 17);
    assert(line.len() >= 18);
    assert(line[0] == '\t');
    assert(line[1] == hex16(k)[0]);
    assert(line[line.len() - 1] == '\n');
    let t = table_lines(ks, m);
    let p = table_lines(ks.drop_last(), m);
    assert(t == p + line);
    if ks.len() > 1 {
        lemma_table_lines_shape(ks.drop_last(), m);
        assert(t[0] == p[0] && t[1] == p[1]);
    } else {
        assert(p =~= Seq::<char>::empty());
        assert(t =~= line);
    }
    assert(t[t.len() - 1] == line[line.len() - 1]);
}

/// Answers of different kinds are never written alike, as long as no listed player
/// name holds a line break.
pub proof fn lemma_answer_kinds_distinguishable<T>(
    a: AnswerView<T>,
    b: AnswerView<T>,
    ra: ClientHash,
    rb: ClientHash,
    t: Seq<char>,
)
    requires
        answer_text(a, ra, t),
        answer_text(b, rb, t),
        single_line_names(a),
        single_line_names(b),
    ensures
        answer_kind(a) == answer_kind(b),
{
    reveal_strlit("chat ");
    reveal_strlit("ERROR ");
    reveal_strlit("cards ");
    reveal_strlit("\thash  ");
    reveal_strlit("\n");
    assert(shape(a, t) && shape(b, t)) by {
        lemma_shape(a, ra, t);
        lemma_shape(b, rb, t);
    }
}

/// What the first characters of an answer's text, and its last ones for the lists,
/// show of its kind.
spec fn shape<T>(a: AnswerView<T>, t: Seq<char>) -> bool {
    match a {
        AnswerView::PlayerList(_) => t.len() == 0 || (t.len() >= 2 && t[0] == '\t' && t[1] != 'h'
            && t[t.len() - 2] != '\n' && t[t.len() - 1] == '\n'),
        AnswerView::PlayerState(_, _) => t.len() >= 2 && t[0] == '\t' && t[1] == 'h',
        AnswerView::TableList(_) => t =~= seq!['\n'] || (t.len() >= 3 && t[0] == '\t' && t[1]
            != 'h' && t[t.len() - 2] == '\n' && t[t.len() - 1] == '\n'),
        AnswerView::Error(_) => t.len() >= 1 && t[0] == 'E',
        AnswerView::Chat(_, _) => t.len() >= 2 && t[0] == 'c' && t[1] == 'h',
        AnswerView::GameState(_) => t.len() >= 2 && t[0] == 'c' && t[1] == 'a',
    }
}

proof fn lemma_shape<T>(a: AnswerView<T>, r: ClientHash, t: Seq<char>)
    requires
        answer_text(a, r, t),
        single_line_names(a),
    ensures
        shape(a, t),
{
    reveal_strlit("chat ");
    reveal_strlit("ERROR ");
    reveal_strlit("cards ");
    reveal_strlit("\thash  ");
    reveal_strlit("\n");
    match a {
        AnswerView::PlayerList(m) => {
            let ks = choose|ks: Seq<ClientHash>|
                #![trigger player_lines(ks, m)]
                is_key_order(ks, m) && t == player_lines(ks, m);
            if ks.len() > 0 {
                lemma_player_lines_shape(ks, m);
            }
        },
        AnswerView::TableList(m) => {
            let ks = choose|ks: Seq<TableHash>|
                #![trigger table_lines(ks, m)]
                is_key_order(ks, m) && t == table_lines(ks, m) + "\n"@;
            if ks.len() > 0 {
                lemma_table_lines_shape(ks, m);
            } else {
                assert(table_lines(ks, m) + "\n"@ =~= seq!['\n']);
            }
        },
        AnswerView::GameState(g) => {
            assert(t[1] == "cards "@[1]);
        },
        _ => {},
    }
}

/// `std::sync::mpsc::Sender`, carried through as an opaque value.
#[verifier::external_type_specification]
#[verifier::external_body]
#[verifier::reject_recursive_types(T)]
pub struct ExSender<T>(Sender<T>);

/// `std::sync::mpsc::Receiver`, carried through as an opaque value.
#[verifier::external_type_specification]
#[verifier::external_body]
#[verifier::reject_recursive_types(T)]
pub struct ExReceiver<T>(Receiver<T>);

/// Why nothing was received.
#[derive(Debug, Clone, Copy, PartialEq, Eq, Structural)]
pub enum RecvFailure {
    /// Nothing is waiting yet.
    Empty,
    /// Nothing is waiting, and the sending side is gone.
    Disconnected,
}

/// Relies on `std::sync::mpsc::channel`: a sender and the receiver it feeds.
#[verifier::external_body]
fn open_channel<T>() -> (r: (Sender<T>, Receiver<T>)) {
    mpsc::channel()
}

/// Relies on `Sender::send`, which fails only once the receiver is gone.
#[verifier::external_body]
fn send_on<T>(tx: &Sender<T>, t: T) -> (r: bool) {
    tx.send(t).is_ok()
}

/// Relies on `Receiver::try_recv`, which never blocks.
#[verifier::external_body]
fn try_recv_on<T>(rx: &Receiver<T>) -> (r: Result<T, RecvFailure>) {
    match rx.try_recv() {
        Ok(t) => Ok(t),
        Err(TryRecvError::Empty) => Err(RecvFailure::Empty),
        Err(TryRecvError::Disconnected) => Err(RecvFailure::Disconnected),
    }
}

/// Relies on `Receiver::recv`, which waits for a value and fails only once the
/// sending side is gone and nothing is left.
#[verifier::external_body]
fn recv_on<T>(rx: &Receiver<T>) -> (r: Option<T>) {
    rx.recv().ok()
}

/// One end of a two-way in-process conduit: it sends `A` and receives `B`.
#[derive(Debug)]
#[verifier::reject_recursive_types(A)]
#[verifier::reject_recursive_types(B)]
pub struct DuplexChannel<A, B> {
    tx: Sender<A>,
    rx: Receiver<B>,
}

/// The message of a failed receive.
pub open spec fn recv_error_text(f: RecvFailure) -> Seq<char> {
    match f {
        RecvFailure::Empty => "receiving on an empty channel"@,
        RecvFailure::Disconnected => "receiving on an empty and disconnected channel"@,
    }
}

impl<A, B> DuplexChannel<A, B> {
    /// Two connected ends: what one sends, the other receives.
    pub fn new() -> (r: (DuplexChannel<A, B>, DuplexChannel<B, A>)) {
        let (txa, rxa) = open_channel();
        let (txb, rxb) = open_channel();
        (DuplexChannel { tx: txa, rx: rxb }, DuplexChannel { tx: txb, rx: rxa })
    }

    /// Takes the next waiting value without blocking.
    pub fn try_recv(&self) -> (r: Result<B, DurakError>)
        ensures
            r matches Err(e) ==> exists|f: RecvFailure|
                e@ == (DurakErrorType::ChannelRecvError, #[trigger] recv_error_text(f)),
    {
        match try_recv_on(&self.rx) {
            Ok(b) => Ok(b),
            Err(RecvFailure::Empty) => Err(
                {
                    assert(recv_error_text(RecvFailure::Empty) == "receiving on an empty channel"@);
                    DurakError::new(
                    DurakErrorType::ChannelRecvError,
                    String::from_str("receiving on an empty channel"),
                )
                },
            ),
            Err(RecvFailure::Disconnected) => Err(
                {
                    assert(recv_error_text(RecvFailure::Disconnected)
                        == "receiving on an empty and disconnected channel"@);
                    DurakError::new(
                    DurakErrorType::ChannelRecvError,
                    String::from_str("receiving on an empty and disconnected channel"),
                )
                },
            ),
        }
    }

    /// Waits for the next value; `None` once the other end is gone and nothing is left.
    pub fn recv(&self) -> (r: Option<B>) {
        recv_on(&self.rx)
    }

    /// The sending and the receiving half, for use on two different threads.
    pub fn into_parts(self) -> (r: (Sender<A>, Receiver<B>)) {
        (self.tx, self.rx)
    }

    /// Sends a value to the other end.
    pub fn send(&self, t: A) -> (r: Result<(), DurakError>)
        ensures
            r matches Err(e) ==> e@ == (
                DurakErrorType::ChannelSendError,
                "sending on a closed channel"@,
            ),
    {
        if send_on(&self.tx, t) {
            Ok(())
        } else {
            Err(
                DurakError::new(
                    DurakErrorType::ChannelSendError,
                    String::from_str("sending on a closed channel"),
                ),
            )
        }
    }
}

/// A player-state answer keeps its fields: two of them written alike, for players
/// whose names hold no line break, have the same hash, name and table.
pub proof fn lemma_player_state_text_lossless(
    h1: ClientHash,
    p1: PlayerView,
    h2: ClientHash,
    p2: PlayerView,
)
    requires
        player_state_text(h1, p1) == player_state_text(h2, p2),
        !p1.name.contains('\n'),
        !p2.name.contains('\n'),
    ensures
        h1 == h2,
        p1.name == p2.name,
        p1.table == p2.table,
{
    reveal_strlit("\thash  ");
    reveal_strlit("\tname  ");
    reveal_strlit("\ttable ");
    reveal_strlit("\n");
    lemma_hex_digits_shape(h1 as nat, 16);
    lemma_hex_digits_shape(h2 as nat, 16);
    let t = player_state_text(h1, p1);
    let u = player_state_text(h2, p2);
    assert(t.subrange(7, 23) =~= hex16(h1));
    assert(u.subrange(7, 23) =~= hex16(h2));
    lemma_hex16_injective(h1, h2);
    let l1 = p1.name.len() as int;
    let l2 = p2.name.len() as int;
    assert(t[31 + l1] == '\n');
    assert(u[31 + l2] == '\n');
    if l1 < l2 {
        assert(u[31 + l1] == p2.name[l1]);
        assert(p2.name.contains(u[31 + l1]));
    }
    if l2 < l1 {
        assert(t[31 + l2] == p1.name[l2]);
        assert(p1.name.contains(t[31 + l2]));
    }
    assert(t.subrange(31, 31 + l1) =~= p1.name);
    assert(u.subrange(31, 31 + l2) =~= p2.name);
    let rest1 = t.subrange(32 + l1, t.len() as int);
    let rest2 = u.subrange(32 + l2, u.len() as int);
    match (p1.table, p2.table) {
        (Some(a), Some(b)) => {
            lemma_hex_digits_shape(a as nat, 16);
            lemma_hex_digits_shape(b as nat, 16);
            assert(rest1.subrange(7, 23) =~= hex16(a));
            assert(rest2.subrange(7, 23) =~= hex16(b));
            lemma_hex16_injective(a, b);
        },
        (Some(a), None) => {
            lemma_hex_digits_shape(a as nat, 16);
            assert(rest1.len() == 24);
        },
        (None, Some(b)) => {
            lemma_hex_digits_shape(b as nat, 16);
            assert(rest2.len() == 24);
        },
        (None, None) => {},
    }
}

/// Who receives an answer that `sender`'s command produced: the sender alone, or
/// every client of the list, in its order.
pub fn recipients(sender: ClientHash, target: &AnswerTarget) -> (r: Vec<ClientHash>)
    ensures
        r@ == match target@ {
            TargetView::Direct => seq![sender],
            TargetView::List(l) => l,
        },
{
    match target {
        AnswerTarget::Direct => {
            let mut v: Vec<ClientHash> = Vec::new();
            v.push(sender);
            assert(v@ =~= seq![sender]);
            v
        },
        AnswerTarget::List(l) => crate::game::copy_vec(l),
    }
}

} // verus!
