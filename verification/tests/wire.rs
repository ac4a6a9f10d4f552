use kvs::de::{from_str, SimpleDeserializer, Step, StreamDeserializer};
use kvs::error::ParseError;
use kvs::error::KvsError;
use kvs::proto::{reply_of_line, to_i64, Reply, Request};

#[test]
fn test_request_get() {
    let old = Request::Get { key: "foo".to_string() };
    let s = old.to_resp();
    let new = from_str::<Request>(s.as_str()).unwrap();
    assert_eq!(old, new);
}

#[test]
fn test_request_set() {
    let old = Request::Put { key: "foo".to_string(), value: "bar".to_string() };
    let s = old.to_resp();
    let new = from_str::<Request>(s.as_str()).unwrap();
    assert_eq!(old, new);
}

#[test]
fn test_request_del() {
    let old = Request::Remove { key: "foo".to_string() };
    let s = old.to_resp();
    let new = from_str::<Request>(s.as_str()).unwrap();
    assert_eq!(old, new)
}

#[test]
fn test_reply_single_line() {
    let old = Reply::SingleLine("OK".to_string());
    let s = old.to_resp();
    let new = from_str::<Reply>(s.as_str()).unwrap();
    assert_eq!(old, new)
}

#[test]
fn test_reply_err() {
    let old = Reply::Error("ERR".to_string());
    let s = old.to_resp();
    let new = from_str::<Reply>(s.as_str()).unwrap();
    assert_eq!(old, new)
}

#[test]
fn test_reply_int() {
    let old = Reply::Int(42);
    let s = old.to_resp();
    let new = from_str::<Reply>(s.as_str()).unwrap();
    assert_eq!(old, new)
}

#[test]
fn request_to_resp() {
    {
        let cmd = Request::Get { key: "key".to_string() };
        assert_eq!(cmd.to_resp(), "*2\r\nGET\r\nkey\r\n".to_string())
    }
    {
        let cmd = Request::Put { key: "key".to_string(), value: "value".to_string() };
        assert_eq!(cmd.to_resp(), "*3\r\nSET\r\nkey\r\nvalue\r\n".to_string())
    }
    {
        let cmd = Request::Remove { key: "key".to_string() };
        assert_eq!(cmd.to_resp(), "*2\r\nDEL\r\nkey\r\n".to_string())
    }
}

fn check_reply(ret: Result<(String, Reply), ParseError>, target: Reply) {
    match ret {
        Err(_) => {
            panic!("wrong reply");
        }
        Ok((_, reply)) => {
            if reply == target {
                return;
            }
            panic!("wrong reply");
        }
    }
}

#[test]
fn parse_reply() {
    check_reply(kvs::proto::parse_reply("+OK\r\n"), Reply::SingleLine("OK".to_string()));
    check_reply(kvs::proto::parse_reply("-ERROR\r\n"), Reply::Error("ERROR".to_string()));
    check_reply(kvs::proto::parse_reply(":10\r\n"), Reply::Int(10));
    assert!(matches!(kvs::proto::parse_reply("OK\r\n"), Err(_)));
    assert!(matches!(kvs::proto::parse_reply(":OK\r\n"), Err(_)));
}

fn check_request(ret: Result<(String, Request), ParseError>, target: Request) {
    match ret {
        Err(_) => {
            panic!("wrong request");
        }
        Ok((_, request)) => {
            if request == target {
                return;
            }
            panic!("wrong reply");
        }
    }
}

#[test]
fn parse_request() {
    {
        let req = Request::Get { key: "key".to_string() };
        let input = req.to_resp();
        check_request(kvs::proto::parse_request(input.as_str()), req)
    }
    {
        let req = Request::Put { key: "key".to_string(), value: "value".to_string() };
        let input = req.to_resp();
        check_request(kvs::proto::parse_request(input.as_str()), req)
    }
    {
        let req = Request::Remove { key: "key".to_string() };
        let input = req.to_resp();
        check_request(kvs::proto::parse_request(input.as_str()), req)
    }
}

#[test]
fn format_reply() {
    let s = Reply::SingleLine("OK".to_string()).to_string();
    assert_eq!(s, "OK")
}

#[test]
fn reply_text_on_the_wire() {
    assert_eq!(Reply::SingleLine("bar".to_string()).to_resp(), "+bar\r\n");
    assert_eq!(Reply::SingleLine(String::new()).to_resp(), "+\r\n");
    assert_eq!(Reply::Error("Key not found".to_string()).to_resp(), "-Key not found\r\n");
    assert_eq!(Reply::Int(0).to_resp(), ":0\r\n");
    assert_eq!(Reply::Int(-17).to_resp(), ":-17\r\n");
    assert_eq!(Reply::Int(i64::MAX).to_resp(), ":9223372036854775807\r\n");
    assert_eq!(Reply::Int(i64::MIN).to_resp(), ":-9223372036854775808\r\n");
}

#[test]
fn reply_numbers_round_trip() {
    for n in [0i64, 1, -1, 9, 10, -10, 12345, i64::MAX, i64::MIN, i64::MIN + 1] {
        let text = Reply::Int(n).to_resp();
        assert_eq!(kvs::proto::parse_reply(text.as_str()), Ok((String::new(), Reply::Int(n))));
    }
}

#[test]
fn reply_number_out_of_range_is_bad_integer() {
    assert_eq!(kvs::proto::parse_reply(":9223372036854775808\r\n"), Err(ParseError::BadInteger));
    assert_eq!(kvs::proto::parse_reply(":-9223372036854775809\r\n"), Err(ParseError::BadInteger));
    assert_eq!(kvs::proto::parse_reply(":+5\r\n"), Err(ParseError::BadInteger));
    assert_eq!(kvs::proto::parse_reply(":\r\n"), Err(ParseError::BadInteger));
    assert_eq!(kvs::proto::parse_reply(":-\r\n"), Err(ParseError::BadInteger));
    assert_eq!(kvs::proto::parse_reply(":5-\r\n"), Err(ParseError::BadInteger));
    assert_eq!(kvs::proto::parse_reply(":007\r\n"), Ok((String::new(), Reply::Int(7))));
}

#[test]
fn each_parse_error_has_its_input() {
    assert_eq!(kvs::proto::parse_reply(""), Err(ParseError::MissingTerminator));
    assert_eq!(kvs::proto::parse_reply("?x\r\n"), Err(ParseError::UnknownPrefix));
    assert_eq!(kvs::proto::parse_reply("+OK"), Err(ParseError::MissingTerminator));
    assert_eq!(kvs::proto::parse_reply("+OK\r"), Err(ParseError::MissingTerminator));
    assert_eq!(kvs::proto::parse_reply("+OK\n"), Err(ParseError::StrayLineBreak));
    assert_eq!(kvs::proto::parse_reply("+O\rK\r\n"), Err(ParseError::StrayLineBreak));
    assert_eq!(kvs::proto::parse_request("GET\r\nk\r\n"), Err(ParseError::UnknownPrefix));
    assert_eq!(kvs::proto::parse_request("*x\r\nGET\r\nk\r\n"), Err(ParseError::BadInteger));
    assert_eq!(kvs::proto::parse_request("*12\r\nGET\r\nk\r\n"), Err(ParseError::BadInteger));
    assert_eq!(kvs::proto::parse_request("*2\r\nPUT\r\nk\r\n"), Err(ParseError::UnsupportedVerb));
    assert_eq!(kvs::proto::parse_request("*2\r\nget\r\nk\r\n"), Err(ParseError::UnsupportedVerb));
    assert_eq!(kvs::proto::parse_request("*2\r\nGET\r\nk"), Err(ParseError::MissingTerminator));
    assert_eq!(kvs::proto::parse_request("*3\r\nSET\r\nk\r\n"), Err(ParseError::MissingTerminator));
}

#[test]
fn parse_leaves_what_follows() {
    let (rest, req) = kvs::proto::parse_request("*2\r\nGET\r\nk1\r\n*2\r\nDEL\r\nk2\r\n").unwrap();
    assert_eq!(req, Request::Get { key: "k1".to_string() });
    assert_eq!(rest, "*2\r\nDEL\r\nk2\r\n");
    let (rest, reply) = kvs::proto::parse_reply("+a b\r\n-next\r\n").unwrap();
    assert_eq!(reply, Reply::SingleLine("a b".to_string()));
    assert_eq!(rest, "-next\r\n");
}

#[test]
fn strings_beyond_ascii_round_trip() {
    let req = Request::Put { key: "clé".to_string(), value: "värde ✓ 値".to_string() };
    assert_eq!(kvs::proto::parse_request(req.to_resp().as_str()), Ok((String::new(), req)));
    let empty = Request::Get { key: String::new() };
    assert_eq!(empty.to_resp(), "*2\r\nGET\r\n\r\n");
    assert_eq!(kvs::proto::parse_request(empty.to_resp().as_str()), Ok((String::new(), empty)));
}

#[test]
fn how_requests_and_replies_are_shown() {
    assert_eq!(Request::Get { key: "k".to_string() }.to_string(), "get k");
    assert_eq!(Request::Put { key: "k".to_string(), value: "v".to_string() }.to_string(), "set k:v");
    assert_eq!(Request::Remove { key: "k".to_string() }.to_string(), "remove k");
    assert_eq!(Reply::Error("bad".to_string()).to_string(), "bad");
    assert_eq!(Reply::Int(-42).to_string(), "-42");
}

#[test]
fn which_replies_are_printed() {
    assert!(!Reply::SingleLine(String::new()).should_println());
    assert!(Reply::SingleLine("x".to_string()).should_println());
    assert!(Reply::Error(String::new()).should_println());
    assert!(Reply::Int(0).should_println());
}

#[test]
fn stream_yields_requests_then_stops_for_good() {
    let text = "*2\r\nGET\r\na\r\n*3\r\nSET\r\nb\r\nc\r\n?junk\r\n*2\r\nGET\r\nd\r\n";
    let mut stream: StreamDeserializer<Request> = SimpleDeserializer::from_buf_reader(text).into_iter();
    assert_eq!(stream.next(), Some(Request::Get { key: "a".to_string() }));
    assert_eq!(stream.next(), Some(Request::Put { key: "b".to_string(), value: "c".to_string() }));
    assert_eq!(stream.next(), None);
    assert_eq!(stream.next(), None);
}

#[test]
fn stream_waits_for_text_that_is_still_arriving() {
    let mut stream: StreamDeserializer<Request> = SimpleDeserializer::from_buf_reader("").into_iter();
    assert!(matches!(stream.poll(), Step::Pending));
    stream.feed("*3\r\nSET\r\n");
    assert!(matches!(stream.poll(), Step::Pending));
    stream.feed("foo\r\nba");
    assert!(matches!(stream.poll(), Step::Pending));
    stream.feed("r\r\n*2\r\nGET\r\nfoo\r\n");
    match stream.poll() {
        Step::Item(req) => assert_eq!(req, Request::Put { key: "foo".to_string(), value: "bar".to_string() }),
        _ => panic!("no request"),
    }
    match stream.poll() {
        Step::Item(req) => assert_eq!(req, Request::Get { key: "foo".to_string() }),
        _ => panic!("no request"),
    }
    assert!(matches!(stream.poll(), Step::Pending));
    stream.feed("*2\r\nNOP\r\nx\r\n");
    assert!(matches!(stream.poll(), Step::Failed(ParseError::UnsupportedVerb)));
    stream.feed("*2\r\nGET\r\nfoo\r\n");
    assert!(matches!(stream.poll(), Step::Closed));
    assert_eq!(stream.next(), None);
}

#[test]
fn reader_hands_out_characters_and_lines() {
    let mut reader = SimpleDeserializer::from_buf_reader("+hello\r\nrest");
    assert_eq!(reader.next_byte(), Ok('+'));
    assert_eq!(reader.next_line(), Ok("hello".to_string()));
    assert_eq!(reader.next_line(), Err(ParseError::MissingTerminator));
    assert_eq!(reader.next_byte(), Ok('r'));
    reader.feed("\r\n");
    assert_eq!(reader.next_line(), Ok("est".to_string()));
    assert_eq!(reader.next_byte(), Err(ParseError::MissingTerminator));
}

#[test]
fn numbers_from_text() {
    assert_eq!(to_i64("0"), Ok(0));
    assert_eq!(to_i64("+5"), Ok(5));
    assert_eq!(to_i64("+0"), Ok(0));
    assert_eq!(to_i64("+9223372036854775807"), Ok(i64::MAX));
    assert_eq!(to_i64("+9223372036854775808"), Err(ParseError::BadInteger));
    assert_eq!(to_i64("+"), Err(ParseError::BadInteger));
    assert_eq!(to_i64("-"), Err(ParseError::BadInteger));
    assert_eq!(to_i64("+-5"), Err(ParseError::BadInteger));
    assert_eq!(to_i64("++5"), Err(ParseError::BadInteger));
    assert_eq!(to_i64("-+5"), Err(ParseError::BadInteger));
    assert_eq!(to_i64("-0"), Ok(0));
    assert_eq!(to_i64("42"), Ok(42));
    assert_eq!(to_i64("-9223372036854775808"), Ok(i64::MIN));
    assert_eq!(to_i64("9223372036854775807"), Ok(i64::MAX));
    assert_eq!(to_i64("9223372036854775808"), Err(ParseError::BadInteger));
    assert_eq!(to_i64("99999999999999999999999"), Err(ParseError::BadInteger));
    assert_eq!(to_i64(""), Err(ParseError::BadInteger));
    assert_eq!(to_i64("4 2"), Err(ParseError::BadInteger));
    assert_eq!(to_i64("٤٢"), Err(ParseError::BadInteger));
}

#[test]
fn what_a_client_makes_of_a_line() {
    assert_eq!(reply_of_line("+bar\r\n"), Ok(Reply::SingleLine("bar".to_string())));
    assert_eq!(reply_of_line("-Key not found\r\n"), Ok(Reply::Error("Key not found".to_string())));
    assert_eq!(reply_of_line(":7\r\n"), Ok(Reply::Int(7)));
    assert_eq!(reply_of_line(""), Err(KvsError::InvalidCommandError));
    assert_eq!(reply_of_line("bar\r\n"), Err(KvsError::InvalidCommandError));
    assert_eq!(reply_of_line("+bar"), Err(KvsError::InvalidCommandError));
}

#[test]
fn reader_lets_go_of_what_it_has_read() {
    let mut stream: StreamDeserializer<Request> = SimpleDeserializer::from_buf_reader("").into_iter();
    for round in 0..2000 {
        stream.feed("*3\r\nSET\r\n");
        assert!(matches!(stream.poll(), Step::Pending));
        stream.feed(&format!("key{}\r\nvalue\r\n", round));
        match stream.poll() {
            Step::Item(req) => {
                assert_eq!(req, Request::Put { key: format!("key{}", round), value: "value".to_string() })
            }
            _ => panic!("no request"),
        }
        assert!(matches!(stream.poll(), Step::Pending));
    }
}
