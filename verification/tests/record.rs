use kvs::command::Command;
use kvs::json::{find_literal_end, is_whole_literal, quote, read_literal};
use kvs::record::{decode, encode, encode_put, encode_rm, skip_spaces, take_string, take_token};

fn put(k: &str, v: &str) -> Command {
    Command::Put(k.to_string(), v.to_string())
}

#[test]
fn a_set_record_is_an_object_with_a_pair() {
    assert_eq!(encode(&put("a", "1")).unwrap(), b"{\"Set\":[\"a\",\"1\"]}".to_vec());
    assert_eq!(
        encode_put(&"key".to_string(), &"some value".to_string()).unwrap(),
        b"{\"Set\":[\"key\",\"some value\"]}".to_vec()
    );
}

#[test]
fn a_remove_record_is_an_object_with_a_string() {
    assert_eq!(encode(&Command::Rm("a".to_string())).unwrap(), b"{\"Rm\":\"a\"}".to_vec());
    assert_eq!(encode_rm(&"".to_string()).unwrap(), b"{\"Rm\":\"\"}".to_vec());
}

#[test]
fn what_is_encoded_decodes_to_itself() {
    let commands = vec![
        put("a", "1"),
        put("", ""),
        put("a\"b", "c\\d"),
        put("\u{0}\u{1f}", "\n\r\t\u{8}\u{c}"),
        put("\u{e9}", "\u{1f600}"),
        Command::Rm("a".to_string()),
        Command::Rm("}{\"],[".to_string()),
    ];
    for c in commands {
        let bytes = encode(&c).unwrap();
        let d = decode(&bytes, 0).expect("an encoded record decodes");
        assert_eq!(d.command, c);
        assert_eq!(d.start, 0);
        assert_eq!(d.end, bytes.len());
    }
}

#[test]
fn a_record_is_found_wherever_it_stands() {
    let bytes = b"{\"Rm\":\"x\"}\n  {\"Set\":[\"a\",\"1\"]}\n{\"Rm\":\"a\"}";
    let first = decode(bytes, 0).unwrap();
    assert_eq!((first.command, first.start, first.end), (Command::Rm("x".to_string()), 0, 10));
    let second = decode(bytes, first.end).unwrap();
    assert_eq!((second.command, second.start, second.end), (put("a", "1"), 13, 30));
    let third = decode(bytes, second.end).unwrap();
    assert_eq!((third.command, third.start, third.end), (Command::Rm("a".to_string()), 31, 41));
    assert!(decode(bytes, third.end).is_none());
}

#[test]
fn white_space_may_stand_between_the_tokens() {
    let d = decode(b" \t\r\n{ \"Set\"\n:\t[ \"a\" , \"1\" ] } tail", 0).unwrap();
    assert_eq!(d.command, put("a", "1"));
    assert_eq!(d.start, 4);
    assert_eq!(d.end, 29);
}

#[test]
fn escapes_in_strings_are_read_as_json_says() {
    let d = decode(b"{\"Set\":[\"\\u0041\\/\\\"\",\"\\ud83d\\ude00\\b\"]}", 0).unwrap();
    assert_eq!(d.command, put("A/\"", "\u{1f600}\u{8}"));
    let d = decode(b"{\"\\u0052m\":\"k\"}", 0).unwrap();
    assert_eq!(d.command, Command::Rm("k".to_string()));
}

#[test]
fn what_is_no_record_is_refused() {
    let cases: Vec<&[u8]> = vec![
        b"",
        b"   ",
        b"{",
        b"{}",
        b"{\"Set\"}",
        b"{\"Set\":}",
        b"{\"Set\":[]}",
        b"{\"Set\":[\"a\"]}",
        b"{\"Set\":[\"a\",]}",
        b"{\"Set\":[\"a\",\"b\",]}",
        b"{\"Set\":[\"a\",\"b\"}",
        b"{\"Set\":[\"a\",\"b\"]",
        b"{\"Set\":[\"a\" \"b\"]}",
        b"{\"Set\":[\"a\",1]}",
        b"{\"Set\":[\"a\",null]}",
        b"{\"set\":[\"a\",\"b\"]}",
        b"{\"Rm\":\"a\"",
        b"{\"Rm\":1}",
        b"{\"Rm\" \"a\"}",
        b"{\"Rm\":\"a\\\"}",
        b"{\"Rm\":\"\\ud83d\"}",
        b"{\"Rm\":\"\x01\"}",
        b"{'Rm':'a'}",
        b"[\"Rm\",\"a\"]",
        b"null",
        b"\xef\xbb\xbf{\"Rm\":\"a\"}",
    ];
    for bytes in cases {
        assert!(decode(bytes, 0).is_none(), "{:?} was accepted", String::from_utf8_lossy(bytes));
    }
}

#[test]
fn only_the_four_json_spaces_are_skipped() {
    assert_eq!(skip_spaces(b" \t\n\rx", 0), 4);
    assert_eq!(skip_spaces(b"\x0bx", 0), 0);
    assert_eq!(skip_spaces(b"\x0cx", 0), 0);
    assert_eq!(skip_spaces(b"  ", 0), 2);
    assert_eq!(skip_spaces(b"  ", 5), 5);
    assert_eq!(skip_spaces(b"a  b", 1), 3);
}

#[test]
fn a_token_is_taken_after_spaces() {
    assert_eq!(take_token(b"  :x", 0, b':'), Some(3));
    assert_eq!(take_token(b"  :x", 3, b':'), None);
    assert_eq!(take_token(b"   ", 0, b':'), None);
}

#[test]
fn a_string_is_taken_after_spaces() {
    assert_eq!(take_string(b" \"ab\" ", 0), Some(("ab".to_string(), 5)));
    assert_eq!(take_string(b" ab", 0), None);
}

#[test]
fn a_literal_ends_at_the_first_quote_that_is_not_escaped() {
    assert_eq!(find_literal_end(b"\"abc\"", 1), Some(5));
    assert_eq!(find_literal_end(b"\"a\\\"c\" \"", 1), Some(6));
    assert_eq!(find_literal_end(b"\"a\\\\\" \"", 1), Some(5));
    assert_eq!(find_literal_end(b"\"abc", 1), None);
    assert_eq!(find_literal_end(b"\"abc\\", 1), None);
    assert_eq!(find_literal_end(b"\"abc\\\"", 1), None);
    assert_eq!(find_literal_end(b"\"", 7), None);
}

#[test]
fn a_whole_literal_opens_at_the_first_byte_and_closes_at_the_last() {
    assert!(is_whole_literal(b"\"\""));
    assert!(is_whole_literal(b"\"abc\""));
    assert!(is_whole_literal(b"\"a\\\"c\""));
    assert!(!is_whole_literal(b""));
    assert!(!is_whole_literal(b"\""));
    assert!(!is_whole_literal(b"abc"));
    assert!(!is_whole_literal(b"\"abc"));
    assert!(!is_whole_literal(b"\"abc\\\""));
    assert!(!is_whole_literal(b"\"a\"c\""));
    assert!(!is_whole_literal(b"\"abc\" "));
    assert!(!is_whole_literal(b" \"abc\""));
}

#[test]
fn quoting_escapes_and_reading_unescapes() {
    assert_eq!(quote(&"a\"b".to_string()).unwrap(), b"\"a\\\"b\"".to_vec());
    assert_eq!(quote(&"\u{1}\n".to_string()).unwrap(), b"\"\\u0001\\n\"".to_vec());
    assert_eq!(read_literal(b"x\"a\\\"b\"y", 1), Some(("a\"b".to_string(), 7)));
    assert_eq!(read_literal(b"x\"a\\tb\"y", 1), Some(("a\tb".to_string(), 7)));
    assert_eq!(read_literal(b"x\"a\\qb\"y", 1), None);
    assert_eq!(read_literal(b"x\"ab\"y", 0), None);
    assert_eq!(read_literal(b"\"ab", 0), None);
    assert_eq!(read_literal(b"\"ab\"", 9), None);
}
