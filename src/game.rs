//! The card model and the lobby: cards and their comparison, players, tables, the
//! state of a running game, and the room that owns them all.

use vstd::prelude::*;

use std::collections::HashMap;

use crate::network::{
    direct_error, reply_view, Answer, AnswerTarget, AnswerView, ClientHash, Command, CommandView,
    DurakError, DurakErrorType, GameAction, GameCommand, PlayerCommand, PlayerCommandView, Reply,
    TableCommand, TableCommandView, TargetView,
};
use crate::rules::GameRules;
use crate::text::chars_of;

verus! {

/// The rank of a card, from six up to ace.
#[derive(Debug, Clone, Copy, PartialEq, Eq, Structural, Hash, PartialOrd)]
pub enum CardValue {
    Number6,
    Number7,
    Number8,
    Number9,
    Number10,
    Jack,
    Queen,
    King,
    Ace,
}

/// The suit of a card; suits carry no order of their own.
#[derive(Debug, Clone, Copy, PartialEq, Eq, Structural, Hash)]
pub enum Suite {
    Hearts,
    Diamonds,
    Clubs,
    Spades,
}

/// A playing card of the 36-card deck.
#[derive(Debug, Clone, Copy, PartialEq, Eq, Structural, Hash)]
pub struct Card {
    pub value: CardValue,
    pub suite: Suite,
}

impl CardValue {
    /// Position of the rank in the order 6 < 7 < 8 < 9 < 10 < J < Q < K < A.
    pub open spec fn rank(self) -> int {
        match self {
            CardValue::Number6 => 0,
            CardValue::Number7 => 1,
            CardValue::Number8 => 2,
            CardValue::Number9 => 3,
            CardValue::Number10 => 4,
            CardValue::Jack => 5,
            CardValue::Queen => 6,
            CardValue::King => 7,
            CardValue::Ace => 8,
        }
    }

    pub fn rank_of(&self) -> (r: u8)
        ensures
            r == self.rank(),
    {
        match self {
            CardValue::Number6 => 0,
            CardValue::Number7 => 1,
            CardValue::Number8 => 2,
            CardValue::Number9 => 3,
            CardValue::Number10 => 4,
            CardValue::Jack => 5,
            CardValue::Queen => 6,
            CardValue::King => 7,
            CardValue::Ace => 8,
        }
    }
}

/// Whether card `a` beats card `b` when `trump` is the trump suit; `None` when
/// the two cannot be compared.
pub open spec fn beats(a: Card, b: Card, trump: Suite) -> Option<bool> {
    if a.suite == b.suite {
        Some(a.value.rank() > b.value.rank())
    } else if a.suite == trump {
        Some(true)
    } else if b.suite == trump {
        Some(false)
    } else {
        None
    }
}

impl Card {
    pub fn new(value: CardValue, suite: Suite) -> (r: Card)
        ensures
            r == (Card { value, suite }),
    {
        Card { value: value, suite: suite }
    }

    /// Compares this card against `c` under the trump suit `trump`.
    pub fn better_as(&self, c: Card, trump: Suite) -> (r: Option<bool>)
        ensures
            r == beats(*self, c, trump),
    {
        if self.suite == c.suite {
            Some(self.value.rank_of() > c.value.rank_of())
        } else {
            if self.suite == trump {
                Some(true)
            } else if c.suite == trump {
                Some(false)
            } else {
                None
            }
        }
    }
}

impl CardValue {
    /// The character that stands for the rank on the wire; `0` stands for ten.
    pub open spec fn symbol(self) -> char {
        match self {
            CardValue::Number6 => '6',
            CardValue::Number7 => '7',
            CardValue::Number8 => '8',
            CardValue::Number9 => '9',
            CardValue::Number10 => '0',
            CardValue::Jack => 'J',
            CardValue::Queen => 'Q',
            CardValue::King => 'K',
            CardValue::Ace => 'A',
        }
    }

    fn symbol_str(&self) -> (r: &'static str)
        ensures
            r@ == seq![self.symbol()],
    {
        match self {
            CardValue::Number6 => {
                proof {
                    reveal_strlit("6");
                }
                "6"
            },
            CardValue::Number7 => {
                proof {
                    reveal_strlit("7");
                }
                "7"
            },
            CardValue::Number8 => {
                proof {
                    reveal_strlit("8");
                }
                "8"
            },
            CardValue::Number9 => {
                proof {
                    reveal_strlit("9");
                }
                "9"
            },
            CardValue::Number10 => {
                proof {
                    reveal_strlit("0");
                }
                "0"
            },
            CardValue::Jack => {
                proof {
                    reveal_strlit("J");
                }
                "J"
            },
            CardValue::Queen => {
                proof {
                    reveal_strlit("Q");
                }
                "Q"
            },
            CardValue::King => {
                proof {
                    reveal_strlit("K");
                }
                "K"
            },
            CardValue::Ace => {
                proof {
                    reveal_strlit("A");
                }
                "A"
            },
        }
    }

    /// The rank as its one-character wire form.
    pub fn to_string(&self) -> (r: String)
        ensures
            r@ == seq![self.symbol()],
    {
        String::from_str(self.symbol_str())
    }
}

impl Suite {
    /// The digit that stands for the suit on the wire.
    pub open spec fn symbol(self) -> char {
        match self {
            Suite::Diamonds => '1',
            Suite::Hearts => '2',
            Suite::Spades => '3',
            Suite::Clubs => '4',
        }
    }

    fn symbol_str(&self) -> (r: &'static str)
        ensures
            r@ == seq![self.symbol()],
    {
        match self {
            Suite::Diamonds => {
                proof {
                    reveal_strlit("1");
                }
                "1"
            },
            Suite::Hearts => {
                proof {
                    reveal_strlit("2");
                }
                "2"
            },
            Suite::Spades => {
                proof {
                    reveal_strlit("3");
                }
                "3"
            },
            Suite::Clubs => {
                proof {
                    reveal_strlit("4");
                }
                "4"
            },
        }
    }

    /// The suit as its one-digit wire form.
    pub fn to_string(&self) -> (r: String)
        ensures
            r@ == seq![self.symbol()],
    {
        String::from_str(self.symbol_str())
    }
}

/// The two-character wire form of a card: rank, then suit.
pub open spec fn card_text(c: Card) -> Seq<char> {
    seq![c.value.symbol(), c.suite.symbol()]
}

/// The rank that a wire character stands for.
pub open spec fn value_of_symbol(ch: char) -> Option<CardValue> {
    if ch == '6' {
        Some(CardValue::Number6)
    } else if ch == '7' {
        Some(CardValue::Number7)
    } else if ch == '8' {
        Some(CardValue::Number8)
    } else if ch == '9' {
        Some(CardValue::Number9)
    } else if ch == '0' {
        Some(CardValue::Number10)
    } else if ch == 'J' {
        Some(CardValue::Jack)
    } else if ch == 'Q' {
        Some(CardValue::Queen)
    } else if ch == 'K' {
        Some(CardValue::King)
    } else if ch == 'A' {
        Some(CardValue::Ace)
    } else {
        None
    }
}

/// The suit that a wire digit stands for.
pub open spec fn suite_of_symbol(ch: char) -> Option<Suite> {
    if ch == '1' {
        Some(Suite::Diamonds)
    } else if ch == '2' {
        Some(Suite::Hearts)
    } else if ch == '3' {
        Some(Suite::Spades)
    } else if ch == '4' {
        Some(Suite::Clubs)
    } else {
        None
    }
}

/// Reading a card token: a rank character, a suit digit, and nothing more;
/// otherwise the message of the parser error.
pub open spec fn parse_card(s: Seq<char>) -> Result<Card, Seq<char>> {
    if s.len() == 0 {
        Err("No card value specified."@)
    } else {
        match value_of_symbol(s[0]) {
            None => Err("Invalid card value specified."@),
            Some(value) => if s.len() == 1 {
                Err("No suite specified."@)
            } else {
                match suite_of_symbol(s[1]) {
                    None => Err("Invalid suite specified."@),
                    Some(suite) => if s.len() > 2 {
                        Err("Card token too long."@)
                    } else {
                        Ok(Card { value, suite })
                    },
                }
            },
        }
    }
}

fn value_from_symbol(ch: char) -> (r: Option<CardValue>)
    ensures
        r == value_of_symbol(ch),
{
    match ch {
        '6' => Some(CardValue::Number6),
        '7' => Some(CardValue::Number7),
        '8' => Some(CardValue::Number8),
        '9' => Some(CardValue::Number9),
        '0' => Some(CardValue::Number10),
        'J' => Some(CardValue::Jack),
        'Q' => Some(CardValue::Queen),
        'K' => Some(CardValue::King),
        'A' => Some(CardValue::Ace),
        _ => None,
    }
}

fn suite_from_symbol(ch: char) -> (r: Option<Suite>)
    ensures
        r == suite_of_symbol(ch),
{
    match ch {
        '1' => Some(Suite::Diamonds),
        '2' => Some(Suite::Hearts),
        '3' => Some(Suite::Spades),
        '4' => Some(Suite::Clubs),
        _ => None,
    }
}

impl Card {
    /// The card as its two-character wire form.
    pub fn to_string(&self) -> (r: String)
        ensures
            r@ == card_text(*self),
    {
        let mut s = String::from_str(self.value.symbol_str());
        s.append(self.suite.symbol_str());
        s
    }

    /// Reads a card token such as `02` (ten of hearts).
    pub fn from_str(s: &str) -> (r: Result<Card, DurakError>)
        ensures
            match (r, parse_card(s@)) {
                (Ok(c), Ok(d)) => c == d,
                (Err(e), Err(m)) => e@ == (DurakErrorType::ParserError, m),
                _ => false,
            },
    {
        let v = chars_of(s);
        if v.len() == 0 {
            return Err(DurakError::parser("No card value specified."));
        }
        let value = match value_from_symbol(v[0]) {
            Some(value) => value,
            None => return Err(DurakError::parser("Invalid card value specified.")),
        };
        if v.len() == 1 {
            return Err(DurakError::parser("No suite specified."));
        }
        let suite = match suite_from_symbol(v[1]) {
            Some(suite) => suite,
            None => return Err(DurakError::parser("Invalid suite specified.")),
        };
        if v.len() > 2 {
            return Err(DurakError::parser("Card token too long."));
        }
        Ok(Card { value: value, suite: suite })
    }
}

/// Two cards of one suit are always comparable, whatever the trump, and the
/// comparison follows their ranks; of two different cards of one suit exactly one
/// beats the other.
pub proof fn lemma_same_suit_follows_rank(a: Card, b: Card, trump: Suite)
    requires
        a.suite == b.suite,
    ensures
        beats(a, b, trump) == Some(a.value.rank() > b.value.rank()),
        a != b ==> beats(b, a, trump) == Some(!(a.value.rank() > b.value.rank())),
{
}

/// A trump card beats any card of another suit, and loses to none of them.
pub proof fn lemma_trump_beats_other_suits(a: Card, b: Card, trump: Suite)
    requires
        a.suite == trump,
        b.suite != trump,
    ensures
        beats(a, b, trump) == Some(true),
        beats(b, a, trump) == Some(false),
{
}

/// Cards of two different suits, neither of them trump, cannot be compared
/// either way.
pub proof fn lemma_off_suits_incomparable(a: Card, b: Card, trump: Suite)
    requires
        a.suite != b.suite,
        a.suite != trump,
        b.suite != trump,
    ensures
        beats(a, b, trump) is None,
        beats(b, a, trump) is None,
{
}

/// Reading the wire form of a card gives the card back, so no two cards share
/// a wire form.
pub proof fn lemma_card_text_round_trip(c: Card, d: Card)
    ensures
        parse_card(card_text(c)) == Ok::<Card, Seq<char>>(c),
        card_text(c) == card_text(d) ==> c == d,
{
}

/// The rank at position `i` of the rank order.
pub open spec fn value_at(i: int) -> CardValue {
    if i == 0 {
        CardValue::Number6
    } else if i == 1 {
        CardValue::Number7
    } else if i == 2 {
        CardValue::Number8
    } else if i == 3 {
        CardValue::Number9
    } else if i == 4 {
        CardValue::Number10
    } else if i == 5 {
        CardValue::Jack
    } else if i == 6 {
        CardValue::Queen
    } else if i == 7 {
        CardValue::King
    } else {
        CardValue::Ace
    }
}

/// The suits in the order in which a fresh deck holds them.
pub open spec fn suite_at(i: int) -> Suite {
    if i == 0 {
        Suite::Hearts
    } else if i == 1 {
        Suite::Diamonds
    } else if i == 2 {
        Suite::Clubs
    } else {
        Suite::Spades
    }
}

/// The full deck before shuffling: nine ranks in each of the four suits.
pub open spec fn full_deck() -> Seq<Card> {
    Seq::new(36, |i: int| Card { value: value_at(i % 9), suite: suite_at(i / 9) })
}

fn value_at_exec(i: usize) -> (r: CardValue)
    requires
        i < 9,
    ensures
        r == value_at(i as int),
{
    match i {
        0 => CardValue::Number6,
        1 => CardValue::Number7,
        2 => CardValue::Number8,
        3 => CardValue::Number9,
        4 => CardValue::Number10,
        5 => CardValue::Jack,
        6 => CardValue::Queen,
        7 => CardValue::King,
        _ => CardValue::Ace,
    }
}

fn suite_at_exec(i: usize) -> (r: Suite)
    requires
        i < 4,
    ensures
        r == suite_at(i as int),
{
    match i {
        0 => Suite::Hearts,
        1 => Suite::Diamonds,
        2 => Suite::Clubs,
        _ => Suite::Spades,
    }
}

/// A fresh, unshuffled deck.
pub fn new_deck() -> (r: Vec<Card>)
    ensures
        r@ == full_deck(),
{
    let mut cards: Vec<Card> = Vec::new();
    let mut i: usize = 0;
    while i < 36
        invariant
            i <= 36,
            cards@ == full_deck().take(i as int),
        decreases 36 - i,
    {
        cards.push(Card { value: value_at_exec(i % 9), suite: suite_at_exec(i / 9) });
        i = i + 1;
        assert(cards@ =~= full_deck().take(i as int));
    }
    cards
}

/// The deck holds 36 cards, no two of them alike.
pub proof fn lemma_full_deck_distinct()
    ensures
        full_deck().len() == 36,
        full_deck().no_duplicates(),
{
    let d = full_deck();
    assert forall|i: int, j: int| 0 <= i < d.len() && 0 <= j < d.len() && i != j implies d[i]
        != d[j] by {
        if d[i] == d[j] {
            assert(i % 9 == j % 9);
            assert(i / 9 == j / 9);
        }
    }
}

/// Per-table record of a running game.
#[derive(Debug, Clone)]
pub struct GameState {
    /// Each seated player's hand; a hand holds each card at most once.
    pub player_cards: HashMap<ClientHash, Vec<Card>>,
    /// The stacks of this round in the order they were opened: the attacking
    /// card and, once answered, the defending card.
    pub table_stacks: Vec<(Card, Option<Card>)>,
    /// The draw pile; its last card is at the bottom and shows the trump.
    pub card_stack: Vec<Card>,
    pub trump: Option<Suite>,
    /// The defender of this round.
    pub target_player: Option<ClientHash>,
    /// The player who opens this round.
    pub attack_player: Option<ClientHash>,
    /// The player who may join the attack once it is open.
    pub neighbor_player: Option<ClientHash>,
    /// Cards of rounds that were fended off; they take no further part.
    pub discard_pile: Vec<Card>,
    /// Once the game is over: the one player left holding cards.
    pub loser: Option<ClientHash>,
}

/// The contents of a `GameState` as mathematical values.
pub struct GameStateView {
    pub hands: Map<ClientHash, Seq<Card>>,
    pub stacks: Seq<(Card, Option<Card>)>,
    pub draw_pile: Seq<Card>,
    pub trump: Option<Suite>,
    pub target: Option<ClientHash>,
    pub attacker: Option<ClientHash>,
    pub neighbor: Option<ClientHash>,
    pub discard_pile: Seq<Card>,
    pub loser: Option<ClientHash>,
}

impl View for GameState {
    type V = GameStateView;

    open spec fn view(&self) -> GameStateView {
        GameStateView {
            hands: self.player_cards@.map_values(|h: Vec<Card>| h@),
            stacks: self.table_stacks@,
            draw_pile: self.card_stack@,
            trump: self.trump,
            target: self.target_player,
            attacker: self.attack_player,
            neighbor: self.neighbor_player,
            discard_pile: self.discard_pile@,
            loser: self.loser,
        }
    }
}

/// A copy of `v` element by element.
pub fn copy_vec<T: Copy>(v: &Vec<T>) -> (r: Vec<T>)
    ensures
        r@ == v@,
{
    let mut r: Vec<T> = Vec::new();
    let mut i: usize = 0;
    while i < v.len()
        invariant
            i <= v@.len(),
            r@ == v@.take(i as int),
        decreases v@.len() - i,
    {
        r.push(v[i]);
        i = i + 1;
        assert(r@ =~= v@.take(i as int));
    }
    assert(v@.take(v@.len() as int) =~= v@);
    r
}

impl GameState {
    /// A game with no hands, no stacks and an empty draw pile.
    pub fn new() -> (r: GameState)
        ensures
            r@ == (GameStateView {
                hands: Map::empty(),
                stacks: Seq::empty(),
                draw_pile: Seq::empty(),
                trump: None,
                target: None,
                attacker: None,
                neighbor: None,
                discard_pile: Seq::empty(),
                loser: None,
            }),
    {
        let r = GameState {
            player_cards: HashMap::new(),
            table_stacks: Vec::new(),
            card_stack: Vec::new(),
            trump: None,
            target_player: None,
            attack_player: None,
            neighbor_player: None,
            discard_pile: Vec::new(),
            loser: None,
        };
        assert(r@.hands =~= Map::empty());
        r
    }

    /// A copy of this state with the same contents.
    pub fn snapshot(&self) -> (r: GameState)
        ensures
            r@ == self@,
    {
        let r = GameState {
            player_cards: self.player_cards.clone(),
            table_stacks: copy_vec(&self.table_stacks),
            card_stack: copy_vec(&self.card_stack),
            trump: self.trump,
            target_player: self.target_player,
            attack_player: self.attack_player,
            neighbor_player: self.neighbor_player,
            discard_pile: copy_vec(&self.discard_pile),
            loser: self.loser,
        };
        assert(r@.hands =~= self@.hands);
        r
    }
}

/// Identity of a table, random per table.
pub type TableHash = u64;

/// A client that has given itself a name.
#[derive(Debug, Clone)]
pub struct Player {
    pub name: String,
    pub cards: Vec<Card>,
    /// The table the player is seated at.
    pub table: Option<TableHash>,
}

pub struct PlayerView {
    pub name: Seq<char>,
    pub cards: Seq<Card>,
    pub table: Option<TableHash>,
}

impl View for Player {
    type V = PlayerView;

    open spec fn view(&self) -> PlayerView {
        PlayerView { name: self.name@, cards: self.cards@, table: self.table }
    }
}

/// A player as first created: no name, no cards, no seat.
pub open spec fn fresh_player() -> PlayerView {
    PlayerView { name: Seq::empty(), cards: Seq::empty(), table: None }
}

impl Player {
    pub fn new() -> (r: Player)
        ensures
            r@ == fresh_player(),
    {
        Player { name: String::new(), cards: Vec::new(), table: None }
    }

    /// A copy of this player with the same contents.
    pub fn snapshot(&self) -> (r: Player)
        ensures
            r@ == self@,
    {
        Player { name: self.name.clone(), cards: copy_vec(&self.cards), table: self.table }
    }
}

/// Whether a table waits for players or runs a game.
#[derive(Debug, Clone, Copy, PartialEq, Eq, Structural)]
pub enum TableState {
    Idle,
    Game,
}

impl TableState {
    pub fn to_string(&self) -> (r: String)
        ensures
            r@ == match self {
                TableState::Idle => "Idle"@,
                TableState::Game => "Game"@,
            },
    {
        match self {
            TableState::Idle => String::from_str("Idle"),
            TableState::Game => String::from_str("Game"),
        }
    }
}

/// A lobby: its seated players in seating order, its ruleset and its game, if one runs.
#[derive(Debug, Clone)]
pub struct Table<T: GameRules + Clone> {
    pub name: String,
    pub players: Vec<ClientHash>,
    pub trump: Option<Suite>,
    pub max_players: usize,
    pub min_players: usize,
    game_state: Option<GameState>,
    rules: T,
}

pub struct TableView<T> {
    pub name: Seq<char>,
    pub players: Seq<ClientHash>,
    pub trump: Option<Suite>,
    pub max_players: usize,
    pub min_players: usize,
    pub game_state: Option<GameStateView>,
    pub rules: T,
}

impl<T: GameRules + Clone> View for Table<T> {
    type V = TableView<T>;

    closed spec fn view(&self) -> TableView<T> {
        TableView {
            name: self.name@,
            players: self.players@,
            trump: self.trump,
            max_players: self.max_players,
            min_players: self.min_players,
            game_state: match self.game_state {
                Some(g) => Some(g@),
                None => None,
            },
            rules: self.rules,
        }
    }
}

/// A new table: nobody seated, room for two to six players, no game.
pub open spec fn idle_table<T>(name: Seq<char>, rules: T) -> TableView<T> {
    TableView {
        name: name,
        players: Seq::empty(),
        trump: None,
        max_players: 6,
        min_players: 2,
        game_state: None,
        rules: rules,
    }
}

impl<T: GameRules + Clone> Table<T> {
    pub fn new(name: String, rules: T) -> (r: Table<T>)
        ensures
            r@ == idle_table(name@, rules),
    {
        Table {
            name: name,
            players: Vec::new(),
            trump: None,
            max_players: 6,
            min_players: 2,
            game_state: None,
            rules: rules,
        }
    }

    /// Appends the listing line of this table, filed under `h`.
    pub fn push_line(&self, s: &mut String, h: TableHash)
        ensures
            final(s)@ == old(s)@ + crate::network::table_line(h, self@),
    {
        s.append("\t");
        crate::text::push_hex(s, h, 16);
        s.append(" ");
        crate::text::push_decimal(s, self.players.len() as u64);
        s.append(" ");
        crate::text::push_decimal(s, self.min_players as u64);
        s.append(" ");
        crate::text::push_decimal(s, self.max_players as u64);
        s.append(" ");
        s.append(self.get_state().as_str());
        s.append(" ");
        s.append(self.name.as_str());
        s.append("\n");
    }

    /// `Game` while a game runs, `Idle` otherwise.
    pub fn get_state(&self) -> (r: String)
        ensures
            r@ == if self@.game_state is Some {
                "Game"@
            } else {
                "Idle"@
            },
    {
        match self.game_state {
            Some(_) => String::from_str("Game"),
            None => String::from_str("Idle"),
        }
    }
}

/// The players of a map, as mathematical values.
pub open spec fn players_view(m: Map<ClientHash, Player>) -> Map<ClientHash, PlayerView> {
    m.map_values(|p: Player| p@)
}

/// The tables of a map, as mathematical values.
pub open spec fn tables_view<T: GameRules + Clone>(m: Map<TableHash, Table<T>>) -> Map<
    TableHash,
    TableView<T>,
> {
    m.map_values(|t: Table<T>| t@)
}

/// The directory of all players and tables; the one place where they change.
pub struct Room<T: GameRules + Clone> {
    players: HashMap<ClientHash, Player>,
    tables: HashMap<TableHash, Table<T>>,
    rules: T,
}

pub struct RoomView<T> {
    pub players: Map<ClientHash, PlayerView>,
    pub tables: Map<TableHash, TableView<T>>,
    /// The ruleset that new tables get a copy of.
    pub rules: T,
}

impl<T: GameRules + Clone> View for Room<T> {
    type V = RoomView<T>;

    closed spec fn view(&self) -> RoomView<T> {
        RoomView {
            players: players_view(self.players@),
            tables: tables_view(self.tables@),
            rules: self.rules,
        }
    }
}

pub open spec fn with_player<T>(room: RoomView<T>, c: ClientHash, p: PlayerView) -> RoomView<T> {
    RoomView { players: room.players.insert(c, p), tables: room.tables, rules: room.rules }
}

pub open spec fn with_table<T>(room: RoomView<T>, h: TableHash, t: TableView<T>) -> RoomView<T> {
    RoomView { players: room.players, tables: room.tables.insert(h, t), rules: room.rules }
}

pub open spec fn seated_at(p: PlayerView, table: Option<TableHash>) -> PlayerView {
    PlayerView { name: p.name, cards: p.cards, table: table }
}

pub open spec fn with_roster<T>(t: TableView<T>, players: Seq<ClientHash>) -> TableView<T> {
    TableView {
        name: t.name,
        players: players,
        trump: t.trump,
        max_players: t.max_players,
        min_players: t.min_players,
        game_state: t.game_state,
        rules: t.rules,
    }
}

pub open spec fn with_game<T>(t: TableView<T>, g: GameStateView) -> TableView<T> {
    TableView {
        name: t.name,
        players: t.players,
        trump: t.trump,
        max_players: t.max_players,
        min_players: t.min_players,
        game_state: Some(g),
        rules: t.rules,
    }
}

/// `player name`: creates the player on first contact, then sets the name.
pub open spec fn set_name_outcome<T>(room: RoomView<T>, c: ClientHash, name: Seq<char>) -> (
    RoomView<T>,
    Reply<T>,
) {
    let p = if room.players.contains_key(c) {
        room.players[c]
    } else {
        fresh_player()
    };
    (with_player(room, c, PlayerView { name: name, cards: p.cards, table: p.table }), None)
}

/// `player state`: the sender's own record.
pub open spec fn player_state_outcome<T>(room: RoomView<T>, c: ClientHash) -> (RoomView<T>, Reply<T>) {
    if room.players.contains_key(c) {
        (room, Some((TargetView::Direct, AnswerView::PlayerState(c, room.players[c]))))
    } else {
        (room, direct_error("Player not found."@))
    }
}

/// `table new` once a hash `h` has been drawn for the table; a drawn hash that is
/// already taken is refused rather than replacing the table that holds it.
pub open spec fn create_table_outcome<T>(
    room: RoomView<T>,
    h: TableHash,
    name: Seq<char>,
    rules: T,
) -> (RoomView<T>, Reply<T>) {
    if room.tables.contains_key(h) {
        (room, direct_error("Table could not be created."@))
    } else {
        (with_table(room, h, idle_table(name, rules)), None)
    }
}

/// `table join`: only an idle table with a free seat takes a named player who sits
/// nowhere yet; the player then sits last at it.
pub open spec fn join_outcome<T>(room: RoomView<T>, c: ClientHash, h: TableHash) -> (
    RoomView<T>,
    Reply<T>,
) {
    if !room.tables.contains_key(h) {
        (room, direct_error("Table not found."@))
    } else if !(room.tables[h].game_state is None && room.tables[h].players.len()
        < room.tables[h].max_players) {
        (room, direct_error("Unable to join table."@))
    } else if !room.players.contains_key(c) {
        (room, direct_error("Player not found. Please call \"player name\"."@))
    } else if room.players[c].table is Some {
        (room, direct_error("Already joined a table."@))
    } else {
        let t = room.tables[h];
        (
            with_table(
                with_player(room, c, seated_at(room.players[c], Some(h))),
                h,
                with_roster(t, t.players.push(c)),
            ),
            None,
        )
    }
}

/// `table leave`: the seated player leaves the roster of their table.
pub open spec fn leave_outcome<T>(room: RoomView<T>, c: ClientHash) -> (RoomView<T>, Reply<T>) {
    if !room.players.contains_key(c) {
        (room, direct_error("Player not found. Please call \"player name\"."@))
    } else if room.players[c].table is None {
        (room, direct_error("No table joined."@))
    } else if !room.tables.contains_key(room.players[c].table->0) {
        (room, direct_error("Table not found."@))
    } else {
        let h = room.players[c].table->0;
        let t = room.tables[h];
        (
            with_table(
                with_player(room, c, seated_at(room.players[c], None)),
                h,
                with_roster(t, crate::rules::remove_all(t.players, c)),
            ),
            None,
        )
    }
}

/// The table the sender sits at, or why there is none.
pub open spec fn seated_table<T>(room: RoomView<T>, c: ClientHash, no_seat: Seq<char>) -> Result<
    TableHash,
    Seq<char>,
> {
    if !room.players.contains_key(c) {
        Err("Player not found."@)
    } else if room.players[c].table is None {
        Err(no_seat)
    } else if !room.tables.contains_key(room.players[c].table->0) {
        Err("Table not found."@)
    } else {
        Ok(room.players[c].table->0)
    }
}

/// `table chat`: the message goes to everybody at the sender's table, sender included.
pub open spec fn chat_outcome<T>(room: RoomView<T>, c: ClientHash, m: Seq<char>) -> (
    RoomView<T>,
    Reply<T>,
) {
    match seated_table(room, c, "No table joined yet."@) {
        Err(e) => (room, direct_error(e)),
        Ok(h) => (
            room,
            Some((TargetView::List(room.tables[h].players), AnswerView::Chat(c, m))),
        ),
    }
}

/// Why `game start` is refused, or the table whose game it starts.
pub open spec fn start_check<T>(room: RoomView<T>, c: ClientHash) -> Result<TableHash, Seq<char>> {
    match seated_table(room, c, "No table joined."@) {
        Err(e) => Err(e),
        Ok(h) => if room.tables[h].players.len() < room.tables[h].min_players {
            Err("Not enough players."@)
        } else if room.tables[h].game_state is Some {
            Err("Game already started."@)
        } else {
            Ok(h)
        },
    }
}

/// What the lobby does with the ruleset's answer `next` to a move at table `h`:
/// a new state is installed and sent to the whole table, an error to the sender.
pub open spec fn install_outcome<T>(
    room: RoomView<T>,
    h: TableHash,
    next: Result<GameStateView, (DurakErrorType, Seq<char>)>,
) -> (RoomView<T>, Reply<T>) {
    match next {
        Ok(g) => (
            with_table(room, h, with_game(room.tables[h], g)),
            Some((TargetView::List(room.tables[h].players), AnswerView::GameState(g))),
        ),
        Err(e) => (room, Some((TargetView::Direct, AnswerView::Error(e)))),
    }
}

/// The state that a deal starts from.
pub open spec fn empty_game() -> GameStateView {
    GameStateView {
        hands: Map::empty(),
        stacks: Seq::empty(),
        draw_pile: Seq::empty(),
        trump: None,
        target: None,
        attacker: None,
        neighbor: None,
        discard_pile: Seq::empty(),
        loser: None,
    }
}

/// `game start`: the table's ruleset deals, and the lobby installs what it answered.
pub open spec fn starts_game<T: GameRules>(
    room: RoomView<T>,
    c: ClientHash,
    after: RoomView<T>,
    reply: Reply<T>,
) -> bool {
    match start_check(room, c) {
        Err(e) => after == room && reply == direct_error::<T>(e),
        Ok(h) => exists|next: Result<GameStateView, (DurakErrorType, Seq<char>)>|
            #![trigger install_outcome(room, h, next)]
            room.tables[h].rules.allows(
                c,
                empty_game(),
                room.tables[h].players,
                GameAction::DealCards,
                next,
            ) && (after, reply) == install_outcome(room, h, next),
    }
}

/// A move in the running game of the sender's table, judged by the table's ruleset;
/// dealing again is no move of a running game.
pub open spec fn plays<T: GameRules>(
    room: RoomView<T>,
    c: ClientHash,
    action: GameAction,
    after: RoomView<T>,
    reply: Reply<T>,
) -> bool {
    match seated_table(room, c, "No table joined."@) {
        Err(e) => after == room && reply == direct_error::<T>(e),
        Ok(h) => match room.tables[h].game_state {
            None => after == room && reply == direct_error::<T>("No game running."@),
            Some(g) => if action == GameAction::DealCards {
                after == room && reply == direct_error::<T>("Game already started."@)
            } else {
                exists|next: Result<GameStateView, (DurakErrorType, Seq<char>)>|
                #![trigger install_outcome(room, h, next)]
                    room.tables[h].rules.allows(c, g, room.tables[h].players, action, next) && (
                    after, reply) == install_outcome(room, h, next)
            },
        },
    }
}

/// `game state`: the running game of the sender's table.
pub open spec fn game_state_outcome<T>(room: RoomView<T>, c: ClientHash) -> (RoomView<T>, Reply<T>) {
    match seated_table(room, c, "No table joined."@) {
        Err(e) => (room, direct_error(e)),
        Ok(h) => match room.tables[h].game_state {
            None => (room, direct_error("No game running."@)),
            Some(g) => (room, Some((TargetView::Direct, AnswerView::GameState(g)))),
        },
    }
}

/// `table new`: a table is filed under some drawn hash, with a copy of the lobby's ruleset.
pub open spec fn creates_table<T: Clone>(
    room: RoomView<T>,
    name: Seq<char>,
    after: RoomView<T>,
    reply: Reply<T>,
) -> bool {
    exists|h: TableHash, rules: T|
        #![trigger create_table_outcome(room, h, name, rules)]
        cloned(room.rules, rules) && (after, reply) == create_table_outcome(room, h, name, rules)
}

/// What handling `cmd` from client `c` may do: `after` is the lobby afterwards and
/// `reply` the answer with its recipients.
pub open spec fn handles<T: GameRules + Clone>(
    room: RoomView<T>,
    c: ClientHash,
    cmd: CommandView<T>,
    after: RoomView<T>,
    reply: Reply<T>,
) -> bool {
    match cmd {
        CommandView::Player(PlayerCommandView::Name(n)) => (after, reply) == set_name_outcome(
            room,
            c,
            n,
        ),
        CommandView::Player(PlayerCommandView::List) => after == room && reply == Some(
            (TargetView::Direct, AnswerView::<T>::PlayerList(room.players)),
        ),
        CommandView::Player(PlayerCommandView::State) => (after, reply) == player_state_outcome(
            room,
            c,
        ),
        CommandView::Table(TableCommandView::New(n)) => creates_table(room, n, after, reply),
        CommandView::Table(TableCommandView::List) => after == room && reply == Some(
            (TargetView::Direct, AnswerView::TableList(room.tables)),
        ),
        CommandView::Table(TableCommandView::Join(h)) => (after, reply) == join_outcome(room, c, h),
        CommandView::Table(TableCommandView::Leave) => (after, reply) == leave_outcome(room, c),
        CommandView::Table(TableCommandView::Chat(m)) => (after, reply) == chat_outcome(room, c, m),
        CommandView::Game(GameCommand::Start) => starts_game(room, c, after, reply),
        CommandView::Game(GameCommand::Action(a)) => plays(room, c, a, after, reply),
        CommandView::Game(GameCommand::State) => (after, reply) == game_state_outcome(room, c),
        CommandView::Answer(a) => after == room && reply == Some((TargetView::Direct, a)),
        CommandView::Quit => false,
    }
}

/// Relies on `rand::random` (rand 0.8) to draw the identity of a new table; nothing
/// is known of the value drawn.
#[verifier::external_body]
fn random_table_hash() -> TableHash {
    rand::random()
}

/// `v` without `c`.
fn without_client(v: &Vec<ClientHash>, c: ClientHash) -> (r: Vec<ClientHash>)
    ensures
        r@ == crate::rules::remove_all(v@, c),
{
    let mut rest: Vec<ClientHash> = Vec::new();
    let mut i: usize = 0;
    while i < v.len()
        invariant
            i <= v@.len(),
            rest@ == crate::rules::remove_all(v@.take(i as int), c),
        decreases v@.len() - i,
    {
        let ghost p = v@.take(i + 1);
        assert(p.drop_last() =~= v@.take(i as int));
        if v[i] != c {
            rest.push(v[i]);
        }
        i = i + 1;
    }
    assert(v@.take(v@.len() as int) =~= v@);
    rest
}

/// An answer with an error for the sender alone.
fn direct<T: GameRules + Clone>(e: DurakError) -> (r: Option<(AnswerTarget, Answer<T>)>)
    ensures
        reply_view(r) == Some((TargetView::Direct, AnswerView::<T>::Error(e@))),
{
    Some((AnswerTarget::Direct, Answer::Error(e)))
}

impl<T: GameRules + Clone> Room<T> {
    /// An empty lobby whose tables will play by `rules`.
    pub fn new(rules: T) -> (r: Room<T>)
        ensures
            r@ == (RoomView { players: Map::empty(), tables: Map::empty(), rules: rules }),
            lobby_wf(r@),
    {
        let r = Room { players: HashMap::new(), tables: HashMap::new(), rules: rules };
        assert(r@.players =~= Map::empty());
        assert(r@.tables =~= Map::empty());
        r
    }

    fn seated_table_of(&self, client: &ClientHash, no_seat: &str) -> (r: Result<TableHash, DurakError>)
        ensures
            match (r, seated_table(self@, *client, no_seat@)) {
                (Ok(h), Ok(k)) => h == k,
                (Err(e), Err(m)) => e@ == (DurakErrorType::GameError, m),
                _ => false,
            },
    {
        match self.players.get(client) {
            None => Err(DurakError::game("Player not found.")),
            Some(p) => {
                assert(self@.players[*client] == p@);
                match p.table {
                    None => Err(DurakError::game(no_seat)),
                    Some(h) => {
                        if self.tables.contains_key(&h) {
                            Ok(h)
                        } else {
                            Err(DurakError::game("Table not found."))
                        }
                    },
                }
            },
        }
    }

    fn set_player_name(&mut self, client: &ClientHash, name: String)
        ensures
            final(self)@ == set_name_outcome(old(self)@, *client, name@).0,
    {
        let ghost before = self@;
        let mut p = match self.players.remove(client) {
            Some(p) => p,
            None => Player::new(),
        };
        p.name = name;
        self.players.insert(*client, p);
        assert(self@.players =~= set_name_outcome(before, *client, name@).0.players);
    }

    /// Files a new idle table under `hash`, with a copy of the lobby's ruleset.
    pub fn create_table(&mut self, hash: TableHash, name: String) -> (r: Option<
        (AnswerTarget, Answer<T>),
    >)
        requires
            lobby_wf(old(self)@),
        ensures
            lobby_wf(final(self)@),
            exists|rules: T|
                #![trigger create_table_outcome(old(self)@, hash, name@, rules)]
                cloned(old(self)@.rules, rules) && (final(self)@, reply_view(r))
                    == create_table_outcome(old(self)@, hash, name@, rules),
    {
        let ghost before = self@;
        proof {
            lemma_create_keeps_wf(before, hash, name@, self.rules);
        }
        if self.tables.contains_key(&hash) {
            let r = direct(DurakError::game("Table could not be created."));
            assert((self@, reply_view(r)) == create_table_outcome(before, hash, name@, self.rules));
            return r;
        }
        let rules = self.rules.clone();
        let ghost copy = rules;
        let t = Table::new(name, rules);
        self.tables.insert(hash, t);
        assert(self@.tables =~= before.tables.insert(hash, idle_table(name@, copy)));
        assert((self@, reply_view(None::<(AnswerTarget, Answer<T>)>)) == create_table_outcome(
            before,
            hash,
            name@,
            copy,
        ));
        proof {
            lemma_create_keeps_wf(before, hash, name@, copy);
        }
        None
    }

    /// Handles a command of client `client` and returns the answer with its
    /// recipients, if there is one.
    pub fn handle_command(&mut self, client: &ClientHash, command: Command<T>) -> (r: Option<
        (AnswerTarget, Answer<T>),
    >)
        requires
            !(command is Quit),
            lobby_wf(old(self)@),
        ensures
            handles(old(self)@, *client, command@, final(self)@, reply_view(r)),
            lobby_wf(final(self)@),
    {
        let ghost before = self@;
        let ghost cmd = command@;
        let r = self.dispatch(client, command);
        proof {
            lemma_handles_keeps_wf(before, *client, cmd, self@, reply_view(r));
        }
        r
    }

    fn dispatch(&mut self, client: &ClientHash, command: Command<T>) -> (r: Option<
        (AnswerTarget, Answer<T>),
    >)
        requires
            !(command is Quit),
            lobby_wf(old(self)@),
        ensures
            handles(old(self)@, *client, command@, final(self)@, reply_view(r)),
    {
        match command {
            Command::Player(PlayerCommand::Name(name)) => {
                self.set_player_name(client, name);
                None
            },
            Command::Player(PlayerCommand::List) => {
                Some((AnswerTarget::Direct, Answer::PlayerList(self.players.clone())))
            },
            Command::Player(PlayerCommand::State) => {
                match self.players.get(client) {
                    Some(player) => {
                        assert(self@.players[*client] == player@);
                        Some((AnswerTarget::Direct, Answer::PlayerState(*client, player.snapshot())))
                    },
                    None => direct(DurakError::game("Player not found.")),
                }
            },
            Command::Table(tablecommand) => self.handle_table_command(client, tablecommand),
            Command::Game(gamecommand) => self.handle_game_command(client, gamecommand),
            Command::Answer(answer) => Some((AnswerTarget::Direct, answer)),
            Command::Quit => None,
        }
    }

    fn handle_table_command(&mut self, client: &ClientHash, command: TableCommand) -> (r: Option<
        (AnswerTarget, Answer<T>),
    >)
        requires
            lobby_wf(old(self)@),
        ensures
            handles(old(self)@, *client, CommandView::Table(command@), final(self)@, reply_view(r)),
    {
        let ghost before = self@;
        match command {
            TableCommand::New(name) => {
                let ghost n = name@;
                let hash = random_table_hash();
                let r = self.create_table(hash, name);
                assert(creates_table(before, n, self@, reply_view(r)));
                r
            },
            TableCommand::List => Some((AnswerTarget::Direct, Answer::TableList(self.tables.clone()))),
            TableCommand::Join(tablehash) => self.join_table(client, tablehash),
            TableCommand::Leave => self.leave_table(client),
            TableCommand::Chat(message) => self.chat(client, message),
        }
    }

    fn join_table(&mut self, client: &ClientHash, tablehash: TableHash) -> (r: Option<
        (AnswerTarget, Answer<T>),
    >)
        ensures
            (final(self)@, reply_view(r)) == join_outcome(old(self)@, *client, tablehash),
    {
        let ghost before = self@;
        let joinable = match self.tables.get(&tablehash) {
            Some(table) => {
                assert(self@.tables[tablehash] == table@);
                table.game_state.is_none() && table.players.len() < table.max_players
            },
            None => return direct(DurakError::game("Table not found.")),
        };
        if !joinable {
            return direct(DurakError::game("Unable to join table."));
        }
        match self.players.get(client) {
            Some(player) => {
                assert(self@.players[*client] == player@);
                if player.table.is_some() {
                    return direct(DurakError::game("Already joined a table."));
                }
            },
            None => {
                return direct(
                    DurakError::game("Player not found. Please call \"player name\"."),
                );
            },
        }
        let mut player = match self.players.remove(client) {
            Some(p) => p,
            None => return None,
        };
        let mut table = match self.tables.remove(&tablehash) {
            Some(t) => t,
            None => return None,
        };
        player.table = Some(tablehash);
        table.players.push(*client);
        self.players.insert(*client, player);
        self.tables.insert(tablehash, table);
        proof {
            let (after, _) = join_outcome(before, *client, tablehash);
            assert(self@.players =~= after.players);
            assert(self@.tables =~= after.tables);
        }
        None
    }

    fn leave_table(&mut self, client: &ClientHash) -> (r: Option<(AnswerTarget, Answer<T>)>)
        ensures
            (final(self)@, reply_view(r)) == leave_outcome(old(self)@, *client),
    {
        let ghost before = self@;
        let tablehash = match self.players.get(client) {
            Some(player) => {
                assert(self@.players[*client] == player@);
                match player.table {
                    Some(h) => h,
                    None => return direct(DurakError::game("No table joined.")),
                }
            },
            None => {
                return direct(
                    DurakError::game("Player not found. Please call \"player name\"."),
                );
            },
        };
        if !self.tables.contains_key(&tablehash) {
            return direct(DurakError::game("Table not found."));
        }
        let mut player = match self.players.remove(client) {
            Some(p) => p,
            None => return None,
        };
        let mut table = match self.tables.remove(&tablehash) {
            Some(t) => t,
            None => return None,
        };
        player.table = None;
        table.players = without_client(&table.players, *client);
        self.players.insert(*client, player);
        self.tables.insert(tablehash, table);
        proof {
            let (after, _) = leave_outcome(before, *client);
            assert(self@.players =~= after.players);
            assert(self@.tables =~= after.tables);
        }
        None
    }

    fn chat(&mut self, client: &ClientHash, message: String) -> (r: Option<(AnswerTarget, Answer<T>)>)
        ensures
            (final(self)@, reply_view(r)) == chat_outcome(old(self)@, *client, message@),
    {
        let tablehash = match self.seated_table_of(client, "No table joined yet.") {
            Ok(h) => h,
            Err(e) => return direct(e),
        };
        match self.tables.get(&tablehash) {
            Some(table) => {
                assert(self@.tables[tablehash] == table@);
                Some(
                    (
                        AnswerTarget::List(copy_vec(&table.players)),
                        Answer::Chat(*client, message),
                    ),
                )
            },
            None => None,
        }
    }

    fn handle_game_command(&mut self, client: &ClientHash, command: GameCommand) -> (r: Option<
        (AnswerTarget, Answer<T>),
    >)
        ensures
            handles(old(self)@, *client, CommandView::Game(command), final(self)@, reply_view(r)),
    {
        let ghost before = self@;
        let tablehash = match self.seated_table_of(client, "No table joined.") {
            Ok(h) => h,
            Err(e) => return direct(e),
        };
        match command {
            GameCommand::Start => {
                match self.tables.get(&tablehash) {
                    Some(table) => {
                        assert(self@.tables[tablehash] == table@);
                        if table.players.len() < table.min_players {
                            return direct(DurakError::game("Not enough players."));
                        }
                        if table.game_state.is_some() {
                            return direct(DurakError::game("Game already started."));
                        }
                    },
                    None => return None,
                }
                let mut table = match self.tables.remove(&tablehash) {
                    Some(t) => t,
                    None => return None,
                };
                let mut state = GameState::new();
                let result = table.rules.apply(
                    client,
                    &mut state,
                    &table.players,
                    GameAction::DealCards,
                );
                let ghost next = crate::rules::outcome_view(result);
                match result {
                    Ok(new_state) => {
                        table.game_state = Some(state);
                        let roster = copy_vec(&table.players);
                        self.tables.insert(tablehash, table);
                        let r = Some(
                            (AnswerTarget::List(roster), Answer::GameState(new_state)),
                        );
                        proof {
                            let (after, rep) = install_outcome(before, tablehash, next);
                            assert(self@.tables =~= after.tables);
                            assert(self@ == after);
                            assert(reply_view(r) == rep);
                        }
                        r
                    },
                    Err(e) => {
                        self.tables.insert(tablehash, table);
                        let r = direct(e);
                        proof {
                            assert(self@.tables =~= before.tables);
                            assert((self@, reply_view(r)) == install_outcome(before, tablehash, next));
                        }
                        r
                    },
                }
            },
            GameCommand::Action(action) => {
                match self.tables.get(&tablehash) {
                    Some(table) => {
                        assert(self@.tables[tablehash] == table@);
                        if table.game_state.is_none() {
                            return direct(DurakError::game("No game running."));
                        }
                        if let GameAction::DealCards = action {
                            return direct(DurakError::game("Game already started."));
                        }
                    },
                    None => return None,
                }
                let mut table = match self.tables.remove(&tablehash) {
                    Some(t) => t,
                    None => return None,
                };
                let mut state = match table.game_state.take() {
                    Some(g) => g,
                    None => return None,
                };
                let ghost g0 = state@;
                let result = table.rules.apply(client, &mut state, &table.players, action);
                let ghost next = crate::rules::outcome_view(result);
                table.game_state = Some(state);
                match result {
                    Ok(new_state) => {
                        let roster = copy_vec(&table.players);
                        self.tables.insert(tablehash, table);
                        let r = Some(
                            (AnswerTarget::List(roster), Answer::GameState(new_state)),
                        );
                        proof {
                            let (after, rep) = install_outcome(before, tablehash, next);
                            assert(self@.tables =~= after.tables);
                            assert(self@ == after);
                            assert(reply_view(r) == rep);
                        }
                        r
                    },
                    Err(e) => {
                        self.tables.insert(tablehash, table);
                        let r = direct(e);
                        proof {
                            assert(self@.tables =~= before.tables);
                            assert((self@, reply_view(r)) == install_outcome(before, tablehash, next));
                        }
                        r
                    },
                }
            },
            GameCommand::State => {
                match self.tables.get(&tablehash) {
                    Some(table) => {
                        assert(self@.tables[tablehash] == table@);
                        match &table.game_state {
                            Some(state) => Some(
                                (AnswerTarget::Direct, Answer::GameState(state.snapshot())),
                            ),
                            None => direct(DurakError::game("No game running.")),
                        }
                    },
                    None => None,
                }
            },
        }
    }
}

/// Joining a table that is full or runs a game fails with a game error and leaves
/// the lobby, and so the roster, as it was.
pub proof fn lemma_join_refused_when_full_or_running<T>(room: RoomView<T>, c: ClientHash, h: TableHash)
    requires
        room.tables.contains_key(h),
        room.tables[h].game_state is Some || room.tables[h].players.len()
            >= room.tables[h].max_players,
    ensures
        join_outcome(room, c, h).0 == room,
        join_outcome(room, c, h).1 == direct_error::<T>("Unable to join table."@),
{
}

/// A client seated by a successful join cannot join any table before leaving: the
/// second join fails with a game error and changes nothing.
pub proof fn lemma_no_second_seat<T>(room: RoomView<T>, c: ClientHash, a: TableHash, b: TableHash)
    requires
        join_outcome(room, c, a).1 is None,
    ensures
        ({
            let seated = join_outcome(room, c, a).0;
            &&& seated.players[c].table == Some(a)
            &&& join_outcome(seated, c, b).0 == seated
            &&& join_outcome(seated, c, b).1 matches Some(
                (TargetView::Direct, AnswerView::Error((DurakErrorType::GameError, _))),
            )
        }),
{
}

/// The lobby's invariant: every table keeps the bounds it was made with, two to six
/// players, and seats at most its maximum, no client twice; a client sits in a
/// roster exactly when its player record points at that table.
pub open spec fn lobby_wf<T>(room: RoomView<T>) -> bool {
    &&& forall|h: TableHash| #[trigger]
        room.tables.contains_key(h) ==> {
            let t = room.tables[h];
            &&& t.min_players == 2
            &&& t.max_players == 6
            &&& t.players.len() <= t.max_players
            &&& t.players.no_duplicates()
        }
    &&& forall|h: TableHash, i: int|
        room.tables.contains_key(h) && 0 <= i < room.tables[h].players.len() ==> {
            let c = #[trigger] room.tables[h].players[i];
            room.players.contains_key(c) && room.players[c].table == Some(h)
        }
    &&& forall|c: ClientHash| #[trigger]
        room.players.contains_key(c) && room.players[c].table is Some ==> {
            let h = room.players[c].table->0;
            room.tables.contains_key(h) && room.tables[h].players.contains(c)
        }
}

proof fn lemma_set_name_keeps_wf<T>(room: RoomView<T>, c: ClientHash, name: Seq<char>)
    requires
        lobby_wf(room),
    ensures
        lobby_wf(set_name_outcome(room, c, name).0),
{
    let after = set_name_outcome(room, c, name).0;
    assert forall|h: TableHash, i: int|
        after.tables.contains_key(h) && 0 <= i < after.tables[h].players.len() implies {
        let d = #[trigger] after.tables[h].players[i];
        after.players.contains_key(d) && after.players[d].table == Some(h)
    } by {
        let d = room.tables[h].players[i];
        assert(room.players.contains_key(d) && room.players[d].table == Some(h));
    }
    assert forall|d: ClientHash| #[trigger]
        after.players.contains_key(d) && after.players[d].table is Some implies {
        let h = after.players[d].table->0;
        after.tables.contains_key(h) && after.tables[h].players.contains(d)
    } by {
        assert(room.players.contains_key(d));
    }
}

proof fn lemma_create_keeps_wf<T>(room: RoomView<T>, h: TableHash, name: Seq<char>, rules: T)
    requires
        lobby_wf(room),
    ensures
        lobby_wf(create_table_outcome(room, h, name, rules).0),
{
    let after = create_table_outcome(room, h, name, rules).0;
    if !room.tables.contains_key(h) {
        assert forall|k: TableHash, i: int|
            after.tables.contains_key(k) && 0 <= i < after.tables[k].players.len() implies {
            let d = #[trigger] after.tables[k].players[i];
            after.players.contains_key(d) && after.players[d].table == Some(k)
        } by {
            assert(k != h);
            let d = room.tables[k].players[i];
            assert(room.players.contains_key(d) && room.players[d].table == Some(k));
        }
        assert forall|d: ClientHash| #[trigger]
            after.players.contains_key(d) && after.players[d].table is Some implies {
            let k = after.players[d].table->0;
            after.tables.contains_key(k) && after.tables[k].players.contains(d)
        } by {
            assert(room.players.contains_key(d));
            assert(room.players[d].table->0 != h);
        }
    }
}

proof fn lemma_join_keeps_wf<T>(room: RoomView<T>, c: ClientHash, h: TableHash)
    requires
        lobby_wf(room),
    ensures
        lobby_wf(join_outcome(room, c, h).0),
{
    let after = join_outcome(room, c, h).0;
    if join_outcome(room, c, h).1 is None {
        let old_roster = room.tables[h].players;
        assert(!old_roster.contains(c)) by {
            if old_roster.contains(c) {
                let i = choose|i: int| 0 <= i < old_roster.len() && old_roster[i] == c;
                assert(room.players[room.tables[h].players[i]].table == Some(h));
            }
        }
        assert forall|k: TableHash| #[trigger] after.tables.contains_key(k) implies {
            let t = after.tables[k];
            &&& t.min_players == 2
            &&& t.max_players == 6
            &&& t.players.len() <= t.max_players
            &&& t.players.no_duplicates()
        } by {
            assert(room.tables.contains_key(k));
            if k == h {
                let r = old_roster.push(c);
                assert forall|i: int, j: int|
                    0 <= i < r.len() && 0 <= j < r.len() && i != j implies r[i] != r[j] by {
                    if i < old_roster.len() && j == old_roster.len() {
                        assert(old_roster.contains(old_roster[i]));
                    }
                    if j < old_roster.len() && i == old_roster.len() {
                        assert(old_roster.contains(old_roster[j]));
                    }
                }
            }
        }
        assert forall|k: TableHash, i: int|
            after.tables.contains_key(k) && 0 <= i < after.tables[k].players.len() implies {
            let d = #[trigger] after.tables[k].players[i];
            after.players.contains_key(d) && after.players[d].table == Some(k)
        } by {
            if k == h && i == old_roster.len() {
            } else {
                let d = room.tables[k].players[i];
                assert(room.players.contains_key(d) && room.players[d].table == Some(k));
                assert(d != c);
            }
        }
        assert forall|d: ClientHash| #[trigger]
            after.players.contains_key(d) && after.players[d].table is Some implies {
            let k = after.players[d].table->0;
            after.tables.contains_key(k) && after.tables[k].players.contains(d)
        } by {
            if d == c {
                assert(after.tables[h].players[old_roster.len() as int] == c);
            } else {
                assert(room.players.contains_key(d));
                let k = room.players[d].table->0;
                if k == h {
                    let i = choose|i: int| 0 <= i < old_roster.len() && old_roster[i] == d;
                    assert(after.tables[h].players[i] == d);
                }
            }
        }
    }
}

proof fn lemma_leave_keeps_wf<T>(room: RoomView<T>, c: ClientHash)
    requires
        lobby_wf(room),
    ensures
        lobby_wf(leave_outcome(room, c).0),
{
    let after = leave_outcome(room, c).0;
    if leave_outcome(room, c).1 is None {
        let h = room.players[c].table->0;
        let old_roster = room.tables[h].players;
        let roster = crate::rules::remove_all(old_roster, c);
        crate::rules::lemma_remove_all_keeps(old_roster, c);
        assert forall|k: TableHash, i: int|
            after.tables.contains_key(k) && 0 <= i < after.tables[k].players.len() implies {
            let d = #[trigger] after.tables[k].players[i];
            after.players.contains_key(d) && after.players[d].table == Some(k)
        } by {
            let d = after.tables[k].players[i];
            if k == h {
                assert(roster.contains(d));
                let j = choose|j: int| 0 <= j < old_roster.len() && old_roster[j] == d;
                assert(room.players.contains_key(room.tables[h].players[j]));
            } else {
                assert(room.players.contains_key(room.tables[k].players[i]));
                assert(d != c);
            }
        }
        assert forall|d: ClientHash| #[trigger]
            after.players.contains_key(d) && after.players[d].table is Some implies {
            let k = after.players[d].table->0;
            after.tables.contains_key(k) && after.tables[k].players.contains(d)
        } by {
            assert(d != c);
            assert(room.players.contains_key(d));
        }
    }
}

proof fn lemma_install_keeps_wf<T>(
    room: RoomView<T>,
    h: TableHash,
    next: Result<GameStateView, (DurakErrorType, Seq<char>)>,
)
    requires
        lobby_wf(room),
        room.tables.contains_key(h),
    ensures
        lobby_wf(install_outcome(room, h, next).0),
{
    let after = install_outcome(room, h, next).0;
    assert forall|k: TableHash, i: int|
        after.tables.contains_key(k) && 0 <= i < after.tables[k].players.len() implies {
        let d = #[trigger] after.tables[k].players[i];
        after.players.contains_key(d) && after.players[d].table == Some(k)
    } by {
        assert(room.players.contains_key(room.tables[k].players[i]));
    }
    assert forall|d: ClientHash| #[trigger]
        after.players.contains_key(d) && after.players[d].table is Some implies {
        let k = after.players[d].table->0;
        after.tables.contains_key(k) && after.tables[k].players.contains(d)
    } by {
        assert(room.players.contains_key(d));
    }
}

/// Every command keeps the lobby's invariant.
pub proof fn lemma_handles_keeps_wf<T: GameRules + Clone>(
    room: RoomView<T>,
    c: ClientHash,
    cmd: CommandView<T>,
    after: RoomView<T>,
    reply: Reply<T>,
)
    requires
        lobby_wf(room),
        handles(room, c, cmd, after, reply),
    ensures
        lobby_wf(after),
{
    match cmd {
        CommandView::Player(PlayerCommandView::Name(n)) => lemma_set_name_keeps_wf(room, c, n),
        CommandView::Table(TableCommandView::New(n)) => {
            let (h, rules) = choose|h: TableHash, rules: T|
                cloned(room.rules, rules) && (after, reply) == create_table_outcome(
                    room,
                    h,
                    n,
                    rules,
                );
            lemma_create_keeps_wf(room, h, n, rules);
        },
        CommandView::Table(TableCommandView::Join(h)) => lemma_join_keeps_wf(room, c, h),
        CommandView::Table(TableCommandView::Leave) => lemma_leave_keeps_wf(room, c),
        CommandView::Game(GameCommand::Start) => {
            if let Ok(h) = start_check(room, c) {
                let next = choose|next: Result<GameStateView, (DurakErrorType, Seq<char>)>|
                    room.tables[h].rules.allows(
                        c,
                        empty_game(),
                        room.tables[h].players,
                        GameAction::DealCards,
                        next,
                    ) && (after, reply) == install_outcome(room, h, next);
                lemma_install_keeps_wf(room, h, next);
            }
        },
        CommandView::Game(GameCommand::Action(a)) => {
            if let Ok(h) = seated_table(room, c, "No table joined."@) {
                if let Some(g) = room.tables[h].game_state {
                    if a != GameAction::DealCards {
                        let next = choose|next: Result<GameStateView, (DurakErrorType, Seq<char>)>|
                            room.tables[h].rules.allows(c, g, room.tables[h].players, a, next) && (
                            after, reply) == install_outcome(room, h, next);
                        lemma_install_keeps_wf(room, h, next);
                    }
                }
            }
        },
        _ => {},
    }
}

/// A chat reaches everybody at the sender's table, the sender included.
pub proof fn lemma_chat_reaches_sender<T>(room: RoomView<T>, c: ClientHash, m: Seq<char>)
    requires
        lobby_wf(room),
    ensures
        chat_outcome(room, c, m).1 matches Some((TargetView::List(l), _)) ==> l.contains(c),
{
    if room.players.contains_key(c) && room.players[c].table is Some {
        assert(room.players.contains_key(c) && room.players[c].table is Some);
    }
}

/// Through `Room::handle_command`: a join of a full or running table is refused with
/// a game error and leaves the lobby as it was, so repeating it changes nothing.
pub proof fn lemma_handled_join_refused<T: GameRules + Clone>(
    room: RoomView<T>,
    c: ClientHash,
    h: TableHash,
    after: RoomView<T>,
    reply: Reply<T>,
)
    requires
        handles(room, c, CommandView::Table(TableCommandView::Join(h)), after, reply),
        room.tables.contains_key(h),
        room.tables[h].game_state is Some || room.tables[h].players.len()
            >= room.tables[h].max_players,
    ensures
        after == room,
        reply == direct_error::<T>("Unable to join table."@),
{
    lemma_join_refused_when_full_or_running(room, c, h);
}

/// Through `Room::handle_command`: after a successful join, a second join by the same
/// client fails with a game error and changes nothing.
pub proof fn lemma_handled_second_join_refused<T: GameRules + Clone>(
    room: RoomView<T>,
    c: ClientHash,
    a: TableHash,
    b: TableHash,
    seated: RoomView<T>,
    after: RoomView<T>,
    reply: Reply<T>,
)
    requires
        handles(room, c, CommandView::Table(TableCommandView::Join(a)), seated, None),
        handles(seated, c, CommandView::Table(TableCommandView::Join(b)), after, reply),
    ensures
        after == seated,
        reply matches Some((TargetView::Direct, AnswerView::Error((DurakErrorType::GameError, _)))),
{
    lemma_no_second_seat(room, c, a, b);
}

} // verus!
