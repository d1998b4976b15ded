//! The game server protocol: game-state messages, move messages and the
//! length-prefixed frames that carry them.
use vstd::prelude::*;
use crate::bitops::{bit, lemma_bits, lemma_single};
use crate::board::{State, hash_consistent};
use crate::text::{chars_to_string, push_decimal, decimal};
use vstd::string::{StringSliceAdditionalSpecFns, StringExecFns};
use vstd::utf8::{valid_utf8, decode_utf8};

verus! {

/// What a game-state message carries: the `turn` field ("" when missing or
/// not a string) and the `board` field as rows of cells (`None` for a
/// missing board or a row that is not an array; a cell that is not a string
/// reads as "").
pub struct ServerMessage {
    pub turn: String,
    pub board: Option<Vec<Option<Vec<String>>>>,
}

/// The turn text and the board as rows of cell texts.
pub type MessageView = (Seq<char>, Option<Seq<Option<Seq<Seq<char>>>>>);

impl View for ServerMessage {
    type V = MessageView;

    open spec fn view(&self) -> MessageView {
        (
            self.turn@,
            match self.board {
                Some(rows) => Some(rows@.map_values(|row: Option<Vec<String>>| row_view(row))),
                None => None,
            },
        )
    }
}

/// The cell texts of a row (`None` for a row that is not an array).
pub open spec fn row_view(row: Option<Vec<String>>) -> Option<Seq<Seq<char>>> {
    match row {
        Some(cells) => Some(cells@.map_values(|c: String| c@)),
        None => None,
    }
}

/// The board is read only while the game goes on.
pub open spec fn reads_board(m: MessageView) -> bool {
    m.0 == "WHITE"@ || m.0 == "BLACK"@
}

/// The rows that are read hold at least nine cells, and there are nine rows.
pub open spec fn message_ok(m: MessageView) -> bool {
    reads_board(m) && m.1 is Some ==> {
        let rows = m.1->0;
        &&& rows.len() >= 9
        &&& forall|r: int| 0 <= r < 9 && #[trigger] rows[r] is Some ==> rows[r]->0.len() >= 9
    }
}

/// The text of the cell of square `idx` ("" when it is not read).
pub open spec fn message_cell(m: MessageView, idx: int) -> Seq<char> {
    if reads_board(m) && m.1 is Some && m.1->0[idx / 9] is Some {
        m.1->0[idx / 9]->0[idx % 9]
    } else {
        seq![]
    }
}

/// Square `i` is the last square below `upto` whose cell reads "KING".
pub open spec fn message_king(m: MessageView, i: int, upto: int) -> bool {
    0 <= i < upto && message_cell(m, i) == "KING"@ && forall|j: int|
        i < j < upto ==> message_cell(m, j) != "KING"@
}

/// `s` is the position a game-state message describes.
pub open spec fn message_state(m: MessageView, s: State) -> bool {
    &&& forall|i: int| 0 <= i < 128 ==> #[trigger] bit(s.white, i) == (i < 81 && (message_cell(m, i) == "WHITE"@
        || message_cell(m, i) == "KING"@))
    &&& forall|i: int| 0 <= i < 128 ==> #[trigger] bit(s.black, i) == (i < 81 && message_cell(m, i) == "BLACK"@)
    &&& forall|i: int| 0 <= i < 128 ==> #[trigger] bit(s.king, i) == message_king(m, i, 81)
    &&& s.win == (m.0 == "WHITEWIN"@ || m.0 == "BLACKWIN"@)
    &&& s.draw == (m.0 == "DRAW"@)
    &&& s.white_to_move == (m.0 == "WHITE"@ || m.0 == "BLACKWIN"@)
    &&& !s.win && !s.draw ==> hash_consistent(s)
    &&& s.win || s.draw ==> forall|t: int| 0 <= t < 8 ==> s.hash[t] == 0
}

/// `serde_json::Error`, the error of a JSON parse, held as an opaque value.
#[verifier::external_type_specification]
#[verifier::external_body]
pub struct ExJsonError(serde_json::Error);

/// Why a game-state payload was not read.
pub enum MessageError {
    /// The payload is not JSON (serde_json's error).
    NotJson(serde_json::Error),
    /// While the game goes on, the board has fewer than nine rows, or one of
    /// its first nine rows has fewer than nine cells.
    ShortBoard,
}

/// The text that `String::from_utf8_lossy` makes of `bytes`.
pub uninterp spec fn lossy_utf8(bytes: Seq<u8>) -> Seq<char>;

/// `String::from_utf8_lossy`, made an owned `String`: the bytes read as
/// UTF-8, each invalid sequence replaced by U+FFFD. Of a valid UTF-8
/// sequence this is its decoding; of others only that it is a function of
/// the bytes is stated.
#[verifier::external_body]
fn utf8_lossy(bytes: &[u8]) -> (r: String)
    ensures
        r@ == lossy_utf8(bytes@),
        valid_utf8(bytes@) ==> r@ == decode_utf8(bytes@),
{
    String::from_utf8_lossy(bytes).into_owned()
}

/// A JSON value, one for one as serde_json holds it: numbers by their text,
/// objects as their (key, value) pairs in key order.
pub enum JsonValue {
    Null,
    Bool(bool),
    Number(String),
    Str(String),
    Array(Vec<JsonValue>),
    Object(Vec<(String, JsonValue)>),
}

/// `serde_json::Value`, held as an opaque value while it is converted.
#[verifier::external_type_specification]
#[verifier::external_body]
pub struct ExJsonValue(serde_json::Value);

/// What serde_json parses from `text`: `None` when `text` is not JSON.
pub uninterp spec fn json_text_value(text: Seq<char>) -> Option<JsonValue>;

/// `serde_json::from_str` into a `serde_json::Value`, converted one for one
/// into a `JsonValue`. What it parses is named by `json_text_value`; that
/// name is not spelled out.
#[verifier::external_body]
fn parse_json(text: &str) -> (r: Result<JsonValue, serde_json::Error>)
    ensures
        r matches Ok(v) ==> json_text_value(text@) == Some(v),
        r is Err <==> json_text_value(text@) is None,
{
    let v: serde_json::Value = serde_json::from_str(text)?;
    Ok(json_value_of(&v))
}

/// The one-for-one conversion of a `serde_json::Value` that `parse_json`
/// hands back: each variant to its counterpart, numbers by their text.
#[verifier::external_body]
fn json_value_of(v: &serde_json::Value) -> JsonValue {
    match v {
        serde_json::Value::Null => JsonValue::Null,
        serde_json::Value::Bool(b) => JsonValue::Bool(*b),
        serde_json::Value::Number(n) => JsonValue::Number(n.to_string()),
        serde_json::Value::String(t) => JsonValue::Str(t.clone()),
        serde_json::Value::Array(a) => JsonValue::Array(a.iter().map(json_value_of).collect()),
        serde_json::Value::Object(o) => JsonValue::Object(o.iter().map(|(k, x)| (k.clone(), json_value_of(x))).collect()),
    }
}

/// The value of the first pair from the `i`-th on whose key is `key`.
pub open spec fn pair_value(pairs: Seq<(String, JsonValue)>, key: Seq<char>, i: int) -> Option<JsonValue>
    decreases pairs.len() - i,
{
    if i < 0 || i >= pairs.len() {
        None
    } else if pairs[i].0@ == key {
        Some(pairs[i].1)
    } else {
        pair_value(pairs, key, i + 1)
    }
}

/// The field `key` of an object (`None` for a missing field or a value
/// that is no object).
pub open spec fn json_field(v: JsonValue, key: Seq<char>) -> Option<JsonValue> {
    match v {
        JsonValue::Object(pairs) => pair_value(pairs@, key, 0),
        _ => None,
    }
}

/// The text of a string value ("" for anything else).
pub open spec fn json_text(v: Option<JsonValue>) -> Seq<char> {
    match v {
        Some(JsonValue::Str(t)) => t@,
        _ => seq![],
    }
}

/// A row of cells: its cells' texts when it is an array.
pub open spec fn json_row(v: JsonValue) -> Option<Seq<Seq<char>>> {
    match v {
        JsonValue::Array(cells) => Some(cells@.map_values(|c: JsonValue| json_text(Some(c)))),
        _ => None,
    }
}

/// The board: its rows when it is an array.
pub open spec fn json_board(v: Option<JsonValue>) -> Option<Seq<Option<Seq<Seq<char>>>>> {
    match v {
        Some(JsonValue::Array(rows)) => Some(rows@.map_values(|r: JsonValue| json_row(r))),
        _ => None,
    }
}

/// The game-state message a JSON value carries: the text of its `turn`
/// field and the rows of its `board` field.
pub open spec fn json_message(v: JsonValue) -> MessageView {
    (json_text(json_field(v, "turn"@)), json_board(json_field(v, "board"@)))
}

/// The value of the field `key` of `v`, if `v` is an object that has it.
fn field_of<'a>(v: &'a JsonValue, key: &str) -> (r: Option<&'a JsonValue>)
    ensures
        r == (match json_field(*v, key@) {
            Some(x) => Some(&x),
            None => None,
        }),
{
    match v {
        JsonValue::Object(pairs) => {
            let key_text = String::from_str(key);
            let mut i: usize = 0;
            while i < pairs.len()
                invariant
                    i <= pairs.len(),
                    key_text@ == key@,
                    json_field(*v, key@) == pair_value(pairs@, key@, 0),
                    pair_value(pairs@, key@, 0) == pair_value(pairs@, key@, i as int),
                decreases pairs.len() - i,
            {
                if pairs[i].0 == key_text {
                    return Some(&pairs[i].1);
                }
                i += 1;
            }
            None
        },
        _ => None,
    }
}

/// The text of a string value ("" for anything else).
fn text_of(v: Option<&JsonValue>) -> (r: String)
    ensures
        r@ == json_text(match v {
            Some(x) => Some(*x),
            None => None,
        }),
{
    match v {
        Some(JsonValue::Str(t)) => t.clone(),
        _ => String::new(),
    }
}

/// The game-state message a JSON value carries.
pub fn message_of_json(v: &JsonValue) -> (m: ServerMessage)
    ensures
        m@ == json_message(*v),
{
    let turn = text_of(field_of(v, "turn"));
    let board = match field_of(v, "board") {
        Some(JsonValue::Array(rows)) => {
            let mut out: Vec<Option<Vec<String>>> = Vec::new();
            let mut i: usize = 0;
            while i < rows.len()
                invariant
                    i <= rows.len(),
                    out@.len() == i,
                    forall|j: int| 0 <= j < i ==> row_view(#[trigger] out@[j]) == json_row(rows@[j]),
                decreases rows.len() - i,
            {
                let row = match &rows[i] {
                    JsonValue::Array(cells) => {
                        let mut texts: Vec<String> = Vec::new();
                        let mut k: usize = 0;
                        while k < cells.len()
                            invariant
                                k <= cells.len(),
                                texts@.len() == k,
                                forall|j: int| 0 <= j < k ==> #[trigger] texts@[j]@ == json_text(Some(cells@[j])),
                            decreases cells.len() - k,
                        {
                            texts.push(text_of(Some(&cells[k])));
                            k += 1;
                        }
                        assert(texts@.map_values(|c: String| c@) =~= cells@.map_values(|c: JsonValue| json_text(Some(c))));
                        Some(texts)
                    },
                    _ => None,
                };
                out.push(row);
                i += 1;
            }
            assert(out@.map_values(|row: Option<Vec<String>>| row_view(row)) =~= rows@.map_values(
                |r: JsonValue| json_row(r),
            ));
            Some(out)
        },
        _ => None,
    };
    ServerMessage { turn, board }
}

/// Whether the message has the rows and cells that are read.
pub fn message_fits(m: &ServerMessage) -> (r: bool)
    ensures
        r == message_ok(m@),
{
    let w_lit = lit("WHITE");
    let b_lit = lit("BLACK");
    if !(m.turn == w_lit || m.turn == b_lit) {
        return true;
    }
    match &m.board {
        None => true,
        Some(rows) => {
            if rows.len() < 9 {
                return false;
            }
            let mut r: usize = 0;
            while r < 9
                invariant
                    r <= 9,
                    rows.len() >= 9,
                    reads_board(m@),
                    m.board == Some(*rows),
                    forall|q: int| 0 <= q < r && #[trigger] m@.1->0[q] is Some ==> m@.1->0[q]->0.len() >= 9,
                decreases 9 - r,
            {
                match &rows[r] {
                    Some(cells) => {
                        assert(m@.1->0[r as int]->0.len() == cells@.len());
                        if cells.len() < 9 {
                            return false;
                        }
                    },
                    None => {},
                }
                r += 1;
            }
            true
        },
    }
}

impl State {
    /// The position a game-state payload describes: the bytes read as UTF-8
    /// (invalid sequences replaced), parsed as JSON, and the message it
    /// carries read as by `from_message`.
    pub fn from_payload(payload: &[u8]) -> (r: Result<State, MessageError>)
        ensures
            json_text_value(lossy_utf8(payload@)) is None <==> r is Err && r->Err_0 is NotJson,
            json_text_value(lossy_utf8(payload@)) matches Some(v) ==> {
                &&& (r is Err && r->Err_0 is ShortBoard <==> !message_ok(json_message(v)))
                &&& (r matches Ok(s) ==> message_state(json_message(v), s))
            },
    {
        let text = utf8_lossy(payload);
        match parse_json(text.as_str()) {
            Err(e) => Err(MessageError::NotJson(e)),
            Ok(v) => {
                let m = message_of_json(&v);
                if message_fits(&m) {
                    Ok(State::from_message(&m))
                } else {
                    Err(MessageError::ShortBoard)
                }
            },
        }
    }
}

fn lit(s: &str) -> (r: String)
    ensures
        r@ == s@,
{
    String::from_str(s)
}

impl State {
    /// The position a game-state message describes. "WHITEWIN" and
    /// "BLACKWIN" give a won game with the loser to move, "DRAW" a drawn
    /// one; otherwise the hash words are computed.
    pub fn from_message(m: &ServerMessage) -> (s: State)
        requires
            message_ok(m@),
        ensures
            message_state(m@, s),
    {
        let w_lit = lit("WHITE");
        let b_lit = lit("BLACK");
        let k_lit = lit("KING");
        let is_white_turn = m.turn == w_lit;
        let reads = is_white_turn || m.turn == b_lit;
        let mut white: u128 = 0;
        let mut black: u128 = 0;
        let mut king: u128 = 0;
        proof {
            crate::bitops::lemma_zero_bits();
            reveal_strlit("WHITE");
            reveal_strlit("BLACK");
            reveal_strlit("KING");
            assert("WHITE"@[0] != "BLACK"@[0]);
            assert("WHITE"@ != "BLACK"@);
            assert("KING"@.len() != "BLACK"@.len());
            assert("KING"@.len() != "WHITE"@.len());
        }
        if reads {
            match &m.board {
                Some(rows) => {
                    let mut idx: usize = 0;
                    while idx < 81
                        invariant
                            reads_board(m@),
                            message_ok(m@),
                            m.board == Some(*rows),
                            w_lit@ == "WHITE"@,
                            b_lit@ == "BLACK"@,
                            k_lit@ == "KING"@,
                            "WHITE"@ != "BLACK"@,
                            "KING"@ != "BLACK"@,
                            "KING"@ != "WHITE"@,
                            idx <= 81,
                            forall|i: int| 0 <= i < 128 ==> #[trigger] bit(white, i) == (i < idx && (message_cell(m@, i)
                                == "WHITE"@ || message_cell(m@, i) == "KING"@)),
                            forall|i: int| 0 <= i < 128 ==> #[trigger] bit(black, i) == (i < idx && message_cell(m@, i)
                                == "BLACK"@),
                            forall|i: int| 0 <= i < 128 ==> #[trigger] bit(king, i) == message_king(m@, i, idx as int),
                        decreases 81 - idx,
                    {
                        let row = idx / 9;
                        let col = idx % 9;
                        let b: u128 = 1u128 << (idx as u128);
                        proof {
                            lemma_single(idx as int);
                            lemma_bits(white, b);
                            lemma_bits(black, b);
                        }
                        match &rows[row] {
                            Some(cells) => {
                                assert(rows@[row as int] == Some(*cells));
                                assert(m@.1->0[row as int] is Some);
                                assert(m@.1->0[row as int]->0.len() == cells@.len());
                                let cell = &cells[col];
                                assert(cell@ == message_cell(m@, idx as int));
                                if *cell == w_lit {
                                    white = white | b;
                                } else if *cell == b_lit {
                                    black = black | b;
                                } else if *cell == k_lit {
                                    white = white | b;
                                    king = b;
                                }
                                proof {
                                    reveal_strlit("WHITE");
                                    reveal_strlit("BLACK");
                                    reveal_strlit("KING");
                                }
                            },
                            None => {
                                assert(message_cell(m@, idx as int) == Seq::<char>::empty());
                                proof {
                                    reveal_strlit("WHITE");
                                    reveal_strlit("BLACK");
                                    reveal_strlit("KING");
                                }
                            },
                        }
                        idx += 1;
                    }
                },
                None => {
                    proof {
                        reveal_strlit("WHITE");
                        reveal_strlit("BLACK");
                        reveal_strlit("KING");
                        assert forall|i: int| 0 <= i < 128 implies message_cell(m@, i) == Seq::<char>::empty() by {}
                    }
                },
            }
        } else {
            proof {
                reveal_strlit("WHITE");
                reveal_strlit("BLACK");
                reveal_strlit("KING");
                assert forall|i: int| 0 <= i < 128 implies message_cell(m@, i) == Seq::<char>::empty() by {}
            }
        }
        let mut state = State {
            white,
            black,
            king,
            white_to_move: is_white_turn,
            win: false,
            draw: false,
            hash: [0; 8],
        };
        let ww = lit("WHITEWIN");
        let bw = lit("BLACKWIN");
        let dr = lit("DRAW");
        proof {
            reveal_strlit("WHITE");
            reveal_strlit("WHITEWIN");
            reveal_strlit("BLACKWIN");
            reveal_strlit("DRAW");
            assert("WHITEWIN"@[0] != "BLACKWIN"@[0]);
            assert("WHITEWIN"@ != "BLACKWIN"@);
            assert("WHITEWIN"@.len() != "WHITE"@.len());
            assert("BLACKWIN"@.len() != "WHITE"@.len());
            assert("DRAW"@.len() != "WHITE"@.len());
            assert("DRAW"@.len() != "WHITEWIN"@.len());
            assert("DRAW"@.len() != "BLACKWIN"@.len());
        }
        if m.turn == ww {
            state.win = true;
            state.white_to_move = false;
        } else if m.turn == bw {
            state.win = true;
            state.white_to_move = true;
        } else if m.turn == dr {
            state.draw = true;
        } else {
            state.compute_full_hash();
        }
        state
    }
}

/// The square name the server uses: column letter from 'a', then row + 1.
pub open spec fn square_name(row: nat, col: nat) -> Seq<char> {
    seq![((97 + col) as u8) as char] + decimal(row + 1)
}

/// Appends the name of (row, col).
pub fn push_square_name(out: &mut Vec<char>, row: u64, col: u8)
    requires
        col <= 158,
        row < u64::MAX,
    ensures
        final(out)@ == old(out)@ + square_name(row as nat, col as nat),
{
    let letter = (97u8 + col) as char;
    out.push(letter);
    push_decimal(out, row + 1);
    assert(out@ =~= old(out)@ + square_name(row as nat, col as nat));
}

/// JSON text of a string, as serde_json writes it: quoted, with '"', '\\'
/// and control characters escaped.
pub open spec fn json_string(s: Seq<char>) -> Seq<char> {
    seq!['"'] + json_escaped(s) + seq!['"']
}

pub open spec fn json_escaped(s: Seq<char>) -> Seq<char>
    decreases s.len(),
{
    if s.len() == 0 {
        seq![]
    } else {
        json_escaped(s.drop_last()) + json_escape_char(s.last())
    }
}

pub open spec fn hex_digit(d: int) -> char {
    if d < 10 {
        ((48 + d) as u8) as char
    } else {
        ((87 + d) as u8) as char
    }
}

pub open spec fn json_escape_char(c: char) -> Seq<char> {
    if c == '"' {
        seq!['\\', '"']
    } else if c == '\\' {
        seq!['\\', '\\']
    } else if c == '\u{8}' {
        seq!['\\', 'b']
    } else if c == '\t' {
        seq!['\\', 't']
    } else if c == '\n' {
        seq!['\\', 'n']
    } else if c == '\u{c}' {
        seq!['\\', 'f']
    } else if c == '\r' {
        seq!['\\', 'r']
    } else if (c as int) < 0x20 {
        seq!['\\', 'u', '0', '0', hex_digit((c as int) / 16), hex_digit((c as int) % 16)]
    } else {
        seq![c]
    }
}

/// `serde_json::to_string` on a string: the string in double quotes, with
/// '"' and '\\' escaped by a backslash, the control characters below
/// U+0020 written as `\b`, `\t`, `\n`, `\f`, `\r` or `\u00xx` (lowercase hex
/// digits), and every other character as it stands.
#[verifier::external_body]
fn json_quote(s: &str) -> (r: String)
    ensures
        r@ == json_string(s@),
{
    serde_json::to_string(s).unwrap()
}

/// The text of a move message: `{"from":..,"to":..,"turn":..}` with the
/// fields as JSON strings.
pub open spec fn action_text(from: Seq<char>, to: Seq<char>, turn: Seq<char>) -> Seq<char> {
    "{\"from\":"@ + json_string(from) + ",\"to\":"@ + json_string(to) + ",\"turn\":"@ + json_string(turn) + "}"@
}

/// The text of a move message.
pub fn action_json(from: &str, to: &str, turn: &str) -> (r: String)
    ensures
        r@ == action_text(from@, to@, turn@),
{
    let mut out = String::from_str("{\"from\":");
    let q = json_quote(from);
    out.append(q.as_str());
    out.append(",\"to\":");
    let q = json_quote(to);
    out.append(q.as_str());
    out.append(",\"turn\":");
    let q = json_quote(turn);
    out.append(q.as_str());
    out.append("}");
    out
}

/// The side name the server uses.
pub open spec fn role_name(white: bool) -> Seq<char> {
    if white {
        "WHITE"@
    } else {
        "BLACK"@
    }
}

/// The message that moves the piece on (row_start, col_start) to
/// (row_end, col_end) for the given side.
pub fn move_message(row_start: u64, col_start: u8, row_end: u64, col_end: u8, role_white: bool) -> (r: String)
    requires
        col_start <= 158,
        col_end <= 158,
        row_start < u64::MAX,
        row_end < u64::MAX,
    ensures
        r@ == action_text(
            square_name(row_start as nat, col_start as nat),
            square_name(row_end as nat, col_end as nat),
            role_name(role_white),
        ),
{
    let mut from_chars: Vec<char> = Vec::new();
    push_square_name(&mut from_chars, row_start, col_start);
    let mut to_chars: Vec<char> = Vec::new();
    push_square_name(&mut to_chars, row_end, col_end);
    let from = chars_to_string(&from_chars);
    let to = chars_to_string(&to_chars);
    let role = if role_white {
        String::from_str("WHITE")
    } else {
        String::from_str("BLACK")
    };
    action_json(from.as_str(), to.as_str(), role.as_str())
}

/// Big-endian bytes of a 32-bit length.
pub open spec fn be_bytes(n: u32) -> Seq<u8> {
    seq![(n / 0x100_0000) as u8, ((n / 0x1_0000) % 0x100) as u8, ((n / 0x100) % 0x100) as u8, (n % 0x100) as u8]
}

/// A frame: the payload's byte length as a big-endian 32-bit number (kept to
/// its low 32 bits), then the payload's UTF-8 bytes.
pub fn frame(payload: &str) -> (r: Vec<u8>)
    ensures
        r@ == be_bytes(payload.spec_bytes().len() as u32) + payload.spec_bytes(),
{
    let bytes = payload.as_bytes();
    let len = bytes.len() as u32;
    let mut out: Vec<u8> = Vec::new();
    out.push((len / 0x100_0000) as u8);
    out.push(((len / 0x1_0000) % 0x100) as u8);
    out.push(((len / 0x100) % 0x100) as u8);
    out.push((len % 0x100) as u8);
    let mut i: usize = 0;
    while i < bytes.len()
        invariant
            i <= bytes@.len(),
            bytes@ == payload.spec_bytes(),
            out@ == be_bytes(len) + bytes@.subrange(0, i as int),
        decreases bytes@.len() - i,
    {
        out.push(bytes[i]);
        i += 1;
        assert(out@ =~= be_bytes(len) + bytes@.subrange(0, i as int));
    }
    assert(bytes@.subrange(0, bytes@.len() as int) =~= bytes@);
    out
}

/// The payload length that a frame header announces.
pub fn frame_length(header: [u8; 4]) -> (n: u32)
    ensures
        n == header[0] * 0x100_0000 + header[1] * 0x1_0000 + header[2] * 0x100 + header[3],
{
    (header[0] as u32) * 0x100_0000 + (header[1] as u32) * 0x1_0000 + (header[2] as u32) * 0x100
        + header[3] as u32
}

/// Reading a frame header gives back what framing wrote: the header of a
/// payload of `n` bytes announces `n` (the byte count kept to 32 bits).
pub proof fn lemma_frame_header_round_trip(n: u32)
    ensures
        be_bytes(n)[0] * 0x100_0000 + be_bytes(n)[1] * 0x1_0000 + be_bytes(n)[2] * 0x100 + be_bytes(n)[3] == n,
{
    assert(((n / 0x100_0000) as u8) * 0x100_0000 + (((n / 0x1_0000) % 0x100) as u8) * 0x1_0000
        + (((n / 0x100) % 0x100) as u8) * 0x100 + ((n % 0x100) as u8) == n) by (bit_vector);
}

} // verus!
