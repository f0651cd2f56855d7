use bitcask::command;
use bitcask::protocol;

#[test]
fn test_parse_get() {
    match protocol::parse(b"get\r\n3\r\nfoo") {
        Ok(protocol::Command::Get(c)) => assert!(c == b"foo"),
        _ => panic!(),
    }
}

#[test]
fn test_parse_set() {
    match protocol::parse(b"set\r\n3\r\nfoo\r\n7\r\nbar baz") {
        Ok(protocol::Command::Put((key, val))) => {
            assert!(key == b"foo");
            assert!(val == b"bar baz");
        }
        _ => panic!(),
    }
}

#[test]
fn test_parse_delete() {
    match protocol::parse(b"delete\r\n3\r\nfoo") {
        Ok(protocol::Command::Delete(c)) => assert!(c == b"foo"),
        _ => panic!(),
    }
}

#[test]
fn test_parse_merge() {
    match protocol::parse(b"merge\n") {
        Ok(protocol::Command::Merge) => (),
        _ => panic!(),
    }
}

#[test]
fn test_parse_get_bare_newline() {
    match protocol::parse(b"get\n3\nfoo\n") {
        Ok(protocol::Command::Get(c)) => assert!(c == b"foo"),
        _ => panic!(),
    }
}

#[test]
fn test_parse_get_trailing_junk() {
    assert!(protocol::parse(b"get\r\n3\r\nfooX").is_err());
}

#[test]
fn test_parse_wrong_length() {
    assert!(protocol::parse(b"get\r\n9\r\nfoo").is_err());
}

#[test]
fn test_parse_garbage() {
    assert!(protocol::parse(b"what\r\nis this").is_err());
}

#[test]
fn test_parse_set_binary_payload() {
    match protocol::parse(b"set\r\n2\r\n\xff\x00\r\n3\r\nx\ny") {
        Ok(protocol::Command::Put((key, val))) => {
            assert_eq!(key, vec![0xffu8, 0x00]);
            assert_eq!(val, b"x\ny".to_vec());
        }
        _ => panic!(),
    }
}

#[test]
fn test_parse_error() {
    assert!(
        command::parse(b"foo bar").is_err(),
        "should not have parsed successfully"
    );
}

#[test]
fn test_simple_get_parse() {
    match command::parse(b"get foo") {
        Ok(command::Command::Get(command::Get(c))) => assert!(c == "foo".to_string()),
        _ => assert!(false),
    }
}

#[test]
fn test_get_parse_error() {
    assert!(
        command::parse(b"get foo bar").is_err(),
        "should not have parsed successfully"
    );
}

#[test]
fn test_simple_set_parse() {
    match command::parse(b"set foo bar") {
        Ok(command::Command::Put(command::Put { key, val })) => {
            assert!(key == "foo".to_string());
            assert!(val == "bar".to_string());
        }
        _ => assert!(false),
    }
}

#[test]
fn test_set_parse_error() {
    assert!(
        command::parse(b"set foo bar baz").is_err(),
        "should not have parsed successfully"
    );
}

#[test]
fn test_token_trimming() {
    match command::parse(b"get foo\n") {
        Ok(command::Command::Get(command::Get(c))) => assert_eq!(c, "foo"),
        _ => panic!(),
    }
}

#[test]
fn test_tokens_skip_invalid_utf8() {
    let tokens = command::parse_tokens(b"get \xff\xfe foo");
    assert_eq!(tokens.len(), 2);
    assert!(matches!(tokens[0], command::Token::Get));
    match &tokens[1] {
        command::Token::Simple(s) => assert_eq!(s, "foo"),
        _ => panic!(),
    }
}
