use kvs::entry::Entry;
use kvs::error::KvsError;
use kvs::record::Command;

fn text(s: &str) -> String {
    s.to_string()
}

fn json_error() -> serde_json::Error {
    serde_json::from_str::<u8>("x").unwrap_err()
}

#[test]
fn an_entry_renders_as_one_json_object() {
    let entry = Entry::new("set", "a", "1");
    assert_eq!(entry.to_json(), Ok(text("{\"command\":\"set\",\"key\":\"a\",\"value\":\"1\"}")));
}

#[test]
fn json_escapes_what_json_wants_escaped() {
    let entry = Entry::new("set", "k\"ey", "line\nback\\slash\ttab\u{1}\u{00e9}");
    assert_eq!(
        entry.to_json(),
        Ok(text(
            "{\"command\":\"set\",\"key\":\"k\\\"ey\",\"value\":\"line\\nback\\\\slash\\ttab\\u0001\u{00e9}\"}"
        ))
    );
}

#[test]
fn the_json_reads_back_as_the_fields() {
    let entry = Entry::new("rm", "a:b", "");
    let json = entry.to_json().unwrap();
    let value: serde_json::Value = serde_json::from_str(&json).unwrap();
    assert_eq!(value["command"].as_str(), Some("rm"));
    assert_eq!(value["key"].as_str(), Some("a:b"));
    assert_eq!(value["value"].as_str(), Some(""));
    assert_eq!(value.as_object().unwrap().len(), 3);
}

#[test]
fn the_entry_of_a_command_names_it_in_words() {
    assert_eq!(Entry::of(&Command::set(text("k"), text("v"))), Entry::new("set", "k", "v"));
    assert_eq!(Entry::of(&Command::remove(text("k"))), Entry::new("rm", "k", ""));
    assert_eq!(
        Entry::of(&Command::remove(text("k"))).to_json(),
        Ok(text("{\"command\":\"rm\",\"key\":\"k\",\"value\":\"\"}"))
    );
}

#[test]
fn assemble_frames_the_three_literals() {
    assert_eq!(
        Entry::assemble(Ok(text("\"c\"")), Ok(text("\"k\"")), Ok(text("\"v\""))),
        Ok(text("{\"command\":\"c\",\"key\":\"k\",\"value\":\"v\"}"))
    );
    assert_eq!(
        Entry::assemble(Ok(text("")), Ok(text("")), Ok(text(""))),
        Ok(text("{\"command\":,\"key\":,\"value\":}"))
    );
}

#[test]
fn assemble_fails_where_a_literal_is_missing() {
    let failed = Err(KvsError::Generic(text("failed json serialization")));
    assert_eq!(Entry::assemble(Err(json_error()), Ok(text("")), Ok(text(""))), failed);
    assert_eq!(Entry::assemble(Ok(text("")), Err(json_error()), Ok(text(""))), failed);
    assert_eq!(Entry::assemble(Ok(text("")), Ok(text("")), Err(json_error())), failed);
}

fn expected_escape(c: char) -> String {
    match c {
        '"' => "\\\"".to_string(),
        '\\' => "\\\\".to_string(),
        '\u{8}' => "\\b".to_string(),
        '\t' => "\\t".to_string(),
        '\n' => "\\n".to_string(),
        '\u{c}' => "\\f".to_string(),
        '\r' => "\\r".to_string(),
        c if (c as u32) < 0x20 => format!("\\u00{:02x}", c as u32),
        c => c.to_string(),
    }
}

#[test]
fn every_character_is_written_as_it_is_or_by_its_escape() {
    let mut samples: Vec<char> = (0u8..=0x7f).map(|b| b as char).collect();
    samples.extend(vec!['\u{80}', '\u{9f}', '\u{e9}', '\u{2028}', '\u{fffd}', '\u{1F980}']);
    for c in samples {
        let text = format!("a{}b", c);
        let expected = format!(
            "{{\"command\":\"a{}b\",\"key\":\"{}\",\"value\":\"\"}}",
            expected_escape(c),
            expected_escape(c)
        );
        assert_eq!(Entry::new(&text, &c.to_string(), "").to_json(), Ok(expected));
    }
}

#[test]
fn control_characters_take_two_lower_case_hexadecimal_digits() {
    assert_eq!(
        Entry::new("\u{0}", "\u{1f}", "\u{1a}\u{b}").to_json(),
        Ok(text("{\"command\":\"\\u0000\",\"key\":\"\\u001f\",\"value\":\"\\u001a\\u000b\"}"))
    );
    assert_eq!(
        Entry::new("\u{7f}", "/", "'").to_json(),
        Ok(text("{\"command\":\"\u{7f}\",\"key\":\"/\",\"value\":\"'\"}"))
    );
}
