use protohackers::kv_store::{Request, Store};

#[test]
fn test_parse_request() {
    assert_eq!(
        "foo=bar".parse::<Request>().unwrap(),
        Request::Insert {
            key: "foo".to_owned(),
            value: "bar".to_owned()
        }
    );

    assert_eq!(
        "foo=".parse::<Request>().unwrap(),
        Request::Insert {
            key: "foo".to_owned(),
            value: "".to_owned()
        }
    );

    assert_eq!(
        "=foo".parse::<Request>().unwrap(),
        Request::Insert {
            key: "".to_owned(),
            value: "foo".to_owned()
        }
    );

    assert_eq!(
        "foo=bar=baz".parse::<Request>().unwrap(),
        Request::Insert {
            key: "foo".to_owned(),
            value: "bar=baz".to_owned()
        }
    );

    assert_eq!(
        "foo===".parse::<Request>().unwrap(),
        Request::Insert {
            key: "foo".to_owned(),
            value: "==".to_owned()
        }
    );

    assert_eq!(
        "foo".parse::<Request>().unwrap(),
        Request::Retrieve {
            key: "foo".to_owned()
        }
    );

    assert_eq!(
        "=".parse::<Request>().unwrap(),
        Request::Insert {
            key: "".to_owned(),
            value: "".to_owned()
        }
    );

    assert_eq!(
        "".parse::<Request>().unwrap(),
        Request::Retrieve { key: "".to_owned() }
    );
}

#[test]
fn parse_reads_each_byte_as_one_character() {
    // The two UTF-8 bytes of 'é' come out as two characters.
    assert_eq!(
        Request::parse("é".as_bytes()),
        Request::Retrieve { key: "\u{c3}\u{a9}".to_owned() }
    );
}

#[test]
fn get_after_put_and_missing_keys() {
    let mut s = Store::new();
    assert_eq!(s.get("a"), "");
    s.put("a".to_owned(), "1".to_owned());
    s.put("b".to_owned(), "2".to_owned());
    assert_eq!(s.get("a"), "1");
    s.put("a".to_owned(), "3".to_owned());
    assert_eq!(s.get("a"), "3");
    assert_eq!(s.get("b"), "2");
}

#[test]
fn retrieve_answers_key_equals_value() {
    let mut s = Store::with_version();
    assert_eq!(
        s.handle(Request::Retrieve { key: "version".to_owned() }),
        Some("version=Ken's Key-Value Store 1.0".to_owned())
    );
    assert_eq!(s.handle("x=y".parse().unwrap()), None);
    assert_eq!(s.handle("x".parse().unwrap()), Some("x=y".to_owned()));
    assert_eq!(s.handle("nothing".parse().unwrap()), Some("nothing=".to_owned()));
}

#[test]
fn version_cannot_be_overwritten() {
    let mut s = Store::with_version();
    assert_eq!(s.handle("version=hacked".parse().unwrap()), None);
    assert_eq!(s.get("version"), "Ken's Key-Value Store 1.0");
}
