use board_session::report::{distinct_sorted, join_words, sort_text, tag_line, Info, MessageHeader, Msg, TrusteeRow};

fn header(t: &str, sender: usize, artifact: bool) -> MessageHeader {
    MessageHeader { type_: t.to_string(), sender, artifact }
}

fn texts(v: &[&str]) -> Vec<String> {
    v.iter().map(|t| t.to_string()).collect()
}

#[test]
fn msg_row_from_header() {
    let m = Msg::from(4, &header("Shares", 2, true));
    assert_eq!(m.id, 4);
    assert_eq!(m.type_, "Shares");
    assert_eq!(m.sender, 2);
    assert!(m.artifact);
    let m = Msg::from(0, &header("Configuration", 1000, false));
    assert_eq!(m.sender, 1000);
    assert!(!m.artifact);
}

#[test]
fn tags_sorted_and_joined() {
    let tags = texts(&["PublicKey-1", "Commitments-2", "Commitments-1"]);
    assert_eq!(tag_line(tags), "Commitments-1 Commitments-2 PublicKey-1");
    assert_eq!(tag_line(vec![]), "");
    assert_eq!(tag_line(texts(&["b", "ab", "a"])), "a ab b");
    assert_eq!(sort_text(texts(&["z", "Z"])), texts(&["Z", "z"]));
    assert_eq!(join_words(&texts(&["x"])), "x");
}

#[test]
fn repeated_tags_appear_once() {
    assert_eq!(tag_line(texts(&["x", "x"])), "x");
    assert_eq!(tag_line(texts(&["b-1", "a-2", "b-1", "a-2", "b-1"])), "a-2 b-1");
    assert_eq!(distinct_sorted(&texts(&["a", "a", "b", "c", "c"])), texts(&["a", "b", "c"]));
    assert_eq!(distinct_sorted(&vec![]), Vec::<String>::new());
}

#[test]
fn trustee_row_from_tags() {
    let row = TrusteeRow::from(
        1,
        2,
        texts(&["Shares-2", "Configuration-0", "Shares-2"]),
        texts(&["Commitments-1", "Commitments-1"]),
    );
    assert_eq!(row.id, 1);
    assert_eq!(row.position, 2);
    assert_eq!(row.statement_data, "Configuration-0 Shares-2");
    assert_eq!(row.artifact_data, "Commitments-1");
}

#[test]
fn info_numbers_rows() {
    let board = vec![
        header("Configuration", 1000, false),
        header("Ballots", 1000, true),
        header("Shares", 1, true),
    ];
    let info = Info::new(&board, 1, vec![], "log line".to_string());
    assert_eq!(info.messages.len(), 3);
    assert_eq!(info.messages[2].id, 2);
    assert_eq!(info.messages[2].sender, 1);
    assert_eq!(info.last_messages.len(), 2);
    assert_eq!(info.last_messages[0].id, 0);
    assert_eq!(info.last_messages[0].type_, "Ballots");
    assert_eq!(info.last_messages[1].type_, "Shares");
    assert_eq!(info.log, "log line");
    let info = Info::new(&board, 3, vec![], String::new());
    assert!(info.last_messages.is_empty());
}
