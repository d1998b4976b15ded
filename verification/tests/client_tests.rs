use tabluter::client::{frame, frame_length, message_of_json, move_message, JsonValue, MessageError, ServerMessage};
use tabluter::board::State;

fn board_of(rows: &[&str]) -> Option<Vec<Option<Vec<String>>>> {
    Some(
        rows.iter()
            .map(|r| {
                Some(
                    r.chars()
                        .map(|c| match c {
                            'W' => "WHITE".to_string(),
                            'B' => "BLACK".to_string(),
                            'K' => "KING".to_string(),
                            'T' => "THRONE".to_string(),
                            _ => "EMPTY".to_string(),
                        })
                        .collect(),
                )
            })
            .collect(),
    )
}

const ROWS: [&str; 9] = ["OOOBBBOOO", "OOOOBOOOO", "OOOOWOOOO", "BOOOWOOOB", "BBWWKWWBB", "BOOOWOOOB", "OOOOWOOOO", "OOOOBOOOO", "OOOBBBOOO"];

#[test]
fn game_state_message() {
    let m = ServerMessage { turn: "WHITE".to_string(), board: board_of(&ROWS) };
    let s = State::from_message(&m);
    let o = State::new();
    assert_eq!(s.white, o.white);
    assert_eq!(s.black, o.black);
    assert_eq!(s.king, o.king);
    assert!(s.white_to_move);
    assert!(!s.win && !s.draw);
    assert_eq!(s.hash, o.hash);
    let b = ServerMessage { turn: "BLACK".to_string(), board: board_of(&ROWS) };
    let t = State::from_message(&b);
    assert!(!t.white_to_move);
    assert_eq!(t.black, o.black);
}

#[test]
fn finished_game_messages() {
    let w = State::from_message(&ServerMessage { turn: "WHITEWIN".to_string(), board: board_of(&ROWS) });
    assert!(w.win && !w.white_to_move && !w.draw);
    assert_eq!(w.white, 0);
    assert_eq!(w.hash, [0; 8]);
    let b = State::from_message(&ServerMessage { turn: "BLACKWIN".to_string(), board: None });
    assert!(b.win && b.white_to_move);
    let d = State::from_message(&ServerMessage { turn: "DRAW".to_string(), board: None });
    assert!(d.draw && !d.win && !d.white_to_move);
}

#[test]
fn missing_parts_read_as_empty() {
    let s = State::from_message(&ServerMessage { turn: "WHITE".to_string(), board: None });
    assert_eq!((s.white, s.black, s.king), (0, 0, 0));
    let mut rows = board_of(&ROWS).unwrap();
    rows[4] = None;
    let t = State::from_message(&ServerMessage { turn: "BLACK".to_string(), board: Some(rows) });
    assert_eq!(t.king, 0);
    assert_eq!(t.white.count_ones(), 4);
    let u = State::from_message(&ServerMessage { turn: String::new(), board: board_of(&ROWS) });
    assert_eq!(u.white, 0);
    assert!(!u.white_to_move);
}

#[test]
fn move_messages() {
    assert_eq!(move_message(0, 0, 2, 1, true), "{\"from\":\"a1\",\"to\":\"b3\",\"turn\":\"WHITE\"}");
    assert_eq!(move_message(8, 8, 8, 3, false), "{\"from\":\"i9\",\"to\":\"d9\",\"turn\":\"BLACK\"}");
    assert_eq!(move_message(11, 25, 99, 0, true), "{\"from\":\"z12\",\"to\":\"a100\",\"turn\":\"WHITE\"}");
}

#[test]
fn frames() {
    assert_eq!(frame("ab"), vec![0, 0, 0, 2, 97, 98]);
    assert_eq!(frame(""), vec![0, 0, 0, 0]);
    let long = "x".repeat(300);
    let f = frame(&long);
    assert_eq!(&f[..4], &[0, 0, 1, 44]);
    assert_eq!(f.len(), 304);
    assert_eq!(frame("é"), vec![0, 0, 0, 2, 0xC3, 0xA9]);
    assert_eq!(frame_length([0, 0, 1, 2]), 258);
    assert_eq!(frame_length([1, 2, 3, 4]), 0x01020304);
}

#[test]
fn frame_header_reads_back() {
    for p in ["", "ab", "{\"turn\":\"WHITE\"}", "é"] {
        let f = frame(p);
        assert_eq!(frame_length([f[0], f[1], f[2], f[3]]) as usize, p.len());
    }
    let long = "y".repeat(70000);
    let f = frame(&long);
    assert_eq!(frame_length([f[0], f[1], f[2], f[3]]), 70000);
}

fn board_json(rows: &[&str]) -> String {
    let rows: Vec<String> = rows
        .iter()
        .map(|r| {
            let cells: Vec<&str> = r
                .chars()
                .map(|c| match c {
                    'W' => "\"WHITE\"",
                    'B' => "\"BLACK\"",
                    'K' => "\"KING\"",
                    'T' => "\"THRONE\"",
                    _ => "\"EMPTY\"",
                })
                .collect();
            format!("[{}]", cells.join(","))
        })
        .collect();
    format!("[{}]", rows.join(","))
}

#[test]
fn payload_of_a_game_state() {
    let text = format!("{{\"board\":{},\"turn\":\"WHITE\"}}", board_json(&ROWS));
    let s = State::from_payload(text.as_bytes()).ok().expect("read");
    let o = State::new();
    assert_eq!((s.white, s.black, s.king, s.white_to_move, s.hash), (o.white, o.black, o.king, true, o.hash));
    let d = State::from_payload(b"{\"turn\":\"DRAW\"}").ok().expect("read");
    assert!(d.draw && !d.win);
    let w = State::from_payload(b"{\"turn\":\"BLACKWIN\",\"board\":7}").ok().expect("read");
    assert!(w.win && w.white_to_move);
}

#[test]
fn payload_errors() {
    assert!(matches!(State::from_payload(b"not json"), Err(MessageError::NotJson(_))));
    assert!(matches!(State::from_payload(b""), Err(MessageError::NotJson(_))));
    let short = "{\"turn\":\"BLACK\",\"board\":[[\"EMPTY\"]]}";
    assert!(matches!(State::from_payload(short.as_bytes()), Err(MessageError::ShortBoard)));
    let mut rows: Vec<&str> = ROWS.to_vec();
    rows[3] = "BOOOW";
    let text = format!("{{\"turn\":\"WHITE\",\"board\":{}}}", board_json(&rows));
    assert!(matches!(State::from_payload(text.as_bytes()), Err(MessageError::ShortBoard)));
    let text = format!("{{\"turn\":\"WHITEWIN\",\"board\":{}}}", board_json(&rows));
    assert!(State::from_payload(text.as_bytes()).is_ok());
}

#[test]
fn payload_with_odd_fields() {
    let s = State::from_payload(b"{\"turn\":\"WH\xFFITE\"}").ok().expect("read");
    assert!(!s.white_to_move && !s.win && !s.draw);
    let t = State::from_payload(b"{\"turn\":5,\"board\":[]}").ok().expect("read");
    assert!(!t.white_to_move);
    let mut rows: Vec<String> = vec!["[1,2,3,4,5,6,7,8,\"KING\"]".to_string()];
    for _ in 0..8 {
        rows.push("null".to_string());
    }
    let text = format!("{{\"turn\":\"BLACK\",\"board\":[{}]}}", rows.join(","));
    let u = State::from_payload(text.as_bytes()).ok().expect("read");
    assert_eq!((u.white, u.black, u.king), (1 << 8, 0, 1 << 8));
}

#[test]
fn message_fields_of_a_json_value() {
    let v = JsonValue::Object(vec![
        (
            "board".to_string(),
            JsonValue::Array(vec![
                JsonValue::Array(vec![JsonValue::Str("KING".to_string()), JsonValue::Number("3".to_string())]),
                JsonValue::Null,
            ]),
        ),
        ("turn".to_string(), JsonValue::Str("BLACK".to_string())),
    ]);
    let m = message_of_json(&v);
    assert_eq!(m.turn, "BLACK");
    assert_eq!(m.board, Some(vec![Some(vec!["KING".to_string(), String::new()]), None]));
    let n = message_of_json(&JsonValue::Array(vec![]));
    assert_eq!(n.turn, "");
    assert_eq!(n.board, None);
    let o = message_of_json(&JsonValue::Object(vec![("turn".to_string(), JsonValue::Bool(true))]));
    assert_eq!((o.turn.as_str(), o.board.is_none()), ("", true));
}
