use bdecode::decoder::{Decoder, Error, Object, Token, Tokens};

const SIMPLE_MSG: &[u8] = b"d3:bari1e3:fooli2ei3ee";
/// The same dict with its closing `e`.
const CLOSED_MSG: &[u8] = b"d3:bari1e3:fooli2ei3eee";

fn all_tokens(input: &[u8]) -> Vec<Result<Token<'_>, Error>> {
    let mut tokens = Tokens(Decoder::new(input));
    let mut out = Vec::new();
    while let Some(t) = tokens.next() {
        let stop = t.is_err();
        out.push(t);
        if stop {
            break;
        }
    }
    out
}

#[test]
fn simple_bdecode_tokenization() {
    let mut decoder = Decoder::new(SIMPLE_MSG);
    assert_eq!(decoder.next_token(), Ok(Some(Token::Dict)));
}

#[test]
fn simple_message_tokens() {
    let expected = vec![
        Ok(Token::Dict),
        Ok(Token::String(b"bar")),
        Ok(Token::Num("1")),
        Ok(Token::String(b"foo")),
        Ok(Token::List),
        Ok(Token::Num("2")),
        Ok(Token::Num("3")),
        Ok(Token::End),
        Ok(Token::End),
    ];
    assert_eq!(all_tokens(CLOSED_MSG), expected);
}

#[test]
fn simple_message_objects() {
    let mut decoder = Decoder::new(CLOSED_MSG);
    let mut dict = match decoder.next() {
        Ok(Some(Object::Dict(d))) => d,
        _ => panic!("expected a dict"),
    };
    match dict.next(&mut decoder) {
        Ok(Some((key, Object::Integer(n)))) => {
            assert_eq!(key, b"bar");
            assert_eq!(n, "1");
        }
        _ => panic!("expected bar => 1"),
    }
    let mut list = match dict.next(&mut decoder) {
        Ok(Some((key, Object::List(l)))) => {
            assert_eq!(key, b"foo");
            l
        }
        _ => panic!("expected foo => list"),
    };
    let mut items = Vec::new();
    loop {
        match list.next(&mut decoder) {
            Ok(Some(Object::Integer(n))) => items.push(n),
            Ok(None) => break,
            _ => panic!("expected integers"),
        }
    }
    assert_eq!(items, vec!["2", "3"]);
    assert!(matches!(list.next(&mut decoder), Ok(None)));
    assert!(matches!(dict.next(&mut decoder), Ok(None)));
    assert!(matches!(dict.next(&mut decoder), Ok(None)));
    assert!(matches!(decoder.next(), Ok(None)));
}

#[test]
fn unsorted_keys_point_at_the_key() {
    let mut decoder = Decoder::new(b"d3:foo2:xx3:bar2:yye");
    assert_eq!(decoder.next_token(), Ok(Some(Token::Dict)));
    assert_eq!(decoder.next_token(), Ok(Some(Token::String(b"foo"))));
    assert_eq!(decoder.next_token(), Ok(Some(Token::String(b"xx"))));
    assert_eq!(decoder.next_token(), Err(Error::UnsortedKeys));
    assert_eq!(decoder.next_token(), Err(Error::UnsortedKeys));
    assert_eq!(decoder.offset(), 10);
}

#[test]
fn unclosed_simple_message_ends_in_eof() {
    let toks = all_tokens(SIMPLE_MSG);
    assert_eq!(toks.len(), 9);
    assert_eq!(toks[7], Ok(Token::End));
    assert_eq!(toks[8], Err(Error::UnexpectedEof));
}

#[test]
fn equal_keys_are_unsorted() {
    let toks = all_tokens(b"d1:ai1e1:ai2ee");
    assert_eq!(toks.last(), Some(&Err(Error::UnsortedKeys)));
}

#[test]
fn short_string_is_eof() {
    assert_eq!(all_tokens(b"3:ab"), vec![Err(Error::UnexpectedEof)]);
}

#[test]
fn string_reaching_end_of_input() {
    assert_eq!(all_tokens(b"3:abc"), vec![Ok(Token::String(b"abc"))]);
}

#[test]
fn empty_string() {
    assert_eq!(all_tokens(b"0:"), vec![Ok(Token::String(b""))]);
}

#[test]
fn leading_zero_is_syntax_error() {
    assert_eq!(
        all_tokens(b"i01e"),
        vec![Err(Error::SyntaxError("Unexpected '1' at offset 2".to_string()))]
    );
}

#[test]
fn zero_and_negative_integers() {
    assert_eq!(all_tokens(b"i0e"), vec![Ok(Token::Num("0"))]);
    assert_eq!(all_tokens(b"i-5e"), vec![Ok(Token::Num("-5"))]);
}

#[test]
fn negative_zero_and_bare_sign_are_syntax_errors() {
    assert!(matches!(all_tokens(b"i-0e")[0], Err(Error::SyntaxError(_))));
    assert!(matches!(all_tokens(b"i-e")[0], Err(Error::SyntaxError(_))));
    assert!(matches!(all_tokens(b"ie")[0], Err(Error::SyntaxError(_))));
}

#[test]
fn unterminated_integer_is_eof() {
    assert_eq!(all_tokens(b"i12"), vec![Err(Error::UnexpectedEof)]);
}

#[test]
fn leading_zero_length_is_syntax_error() {
    assert!(matches!(all_tokens(b"03:abc")[0], Err(Error::SyntaxError(_))));
}

#[test]
fn oversized_length_is_eof() {
    assert_eq!(
        all_tokens(b"99999999999999999999999:ab"),
        vec![Err(Error::UnexpectedEof)]
    );
}

#[test]
fn unknown_leading_byte_is_syntax_error() {
    assert_eq!(
        all_tokens(b"x"),
        vec![Err(Error::SyntaxError("Unexpected 'x' at offset 0".to_string()))]
    );
}

#[test]
fn bare_end_is_invalid_state() {
    assert_eq!(
        all_tokens(b"e"),
        vec![Err(Error::InvalidState("End not allowed at top level".to_string()))]
    );
}

#[test]
fn non_string_key_is_invalid_state() {
    assert_eq!(
        all_tokens(b"di1ei2ee"),
        vec![
            Ok(Token::Dict),
            Err(Error::InvalidState("Map keys must be strings".to_string()))
        ]
    );
}

#[test]
fn key_without_value_is_invalid_state() {
    assert_eq!(
        all_tokens(b"d1:ae"),
        vec![
            Ok(Token::Dict),
            Ok(Token::String(b"a")),
            Err(Error::InvalidState("Map key has no value".to_string()))
        ]
    );
}

#[test]
fn truncated_list_is_eof() {
    assert_eq!(
        all_tokens(b"li1e"),
        vec![Ok(Token::List), Ok(Token::Num("1")), Err(Error::UnexpectedEof)]
    );
}

#[test]
fn several_top_level_values() {
    assert_eq!(
        all_tokens(b"i1e1:x"),
        vec![Ok(Token::Num("1")), Ok(Token::String(b"x"))]
    );
}

#[test]
fn empty_input_has_no_tokens() {
    assert!(all_tokens(b"").is_empty());
}

#[test]
fn error_is_sticky_and_cursor_stays() {
    let mut decoder = Decoder::new(b"li1eee");
    assert_eq!(decoder.next_token(), Ok(Some(Token::List)));
    assert_eq!(decoder.next_token(), Ok(Some(Token::Num("1"))));
    assert_eq!(decoder.next_token(), Ok(Some(Token::End)));
    let first = decoder.next_token();
    assert_eq!(
        first,
        Err(Error::InvalidState("End not allowed at top level".to_string()))
    );
    let at = decoder.offset();
    assert_eq!(at, 5);
    assert_eq!(decoder.next_token(), first);
    assert_eq!(decoder.offset(), at);
    assert!(decoder.next().is_err());
    assert_eq!(decoder.offset(), at);
}

#[test]
fn abandoned_list_is_skipped() {
    let mut decoder = Decoder::new(b"li1ei2eei3e");
    match decoder.next() {
        Ok(Some(Object::List(_))) => {}
        _ => panic!("expected a list"),
    }
    match decoder.next() {
        Ok(Some(Object::Integer(n))) => assert_eq!(n, "3"),
        _ => panic!("expected the sibling integer"),
    }
}

#[test]
fn abandoned_nested_values_are_skipped() {
    let mut decoder = Decoder::new(b"ld1:ali1eee1:bei7e");
    let mut outer = match decoder.next() {
        Ok(Some(Object::List(l))) => l,
        _ => panic!("expected a list"),
    };
    match outer.next(&mut decoder) {
        Ok(Some(Object::Dict(_))) => {}
        _ => panic!("expected a dict"),
    }
    match outer.next(&mut decoder) {
        Ok(Some(Object::Bytes(b))) => assert_eq!(b, b"b"),
        _ => panic!("expected the second element"),
    }
    match decoder.next() {
        Ok(Some(Object::Integer(n))) => assert_eq!(n, "7"),
        _ => panic!("expected the sibling integer"),
    }
}

#[test]
fn token_read_after_abandoned_dict_skips_it() {
    let mut decoder = Decoder::new(b"d1:ai1ee1:z");
    assert!(matches!(decoder.next(), Ok(Some(Object::Dict(_)))));
    assert_eq!(decoder.next_token(), Ok(Some(Token::String(b"z"))));
}

#[test]
fn stale_list_reader_stops() {
    let mut decoder = Decoder::new(b"li1eei3ei4e");
    let mut list = match decoder.next() {
        Ok(Some(Object::List(l))) => l,
        _ => panic!("expected a list"),
    };
    match decoder.next() {
        Ok(Some(Object::Integer(n))) => assert_eq!(n, "3"),
        _ => panic!("expected the sibling integer"),
    }
    assert!(matches!(list.next(&mut decoder), Ok(None)));
    assert!(matches!(list.next(&mut decoder), Ok(None)));
    match decoder.next() {
        Ok(Some(Object::Integer(n))) => assert_eq!(n, "4"),
        _ => panic!("expected the last integer"),
    }
}

#[test]
fn stale_dict_reader_stops() {
    let mut decoder = Decoder::new(b"ld1:ai1eei2e3:xyzi5ee");
    let mut outer = match decoder.next() {
        Ok(Some(Object::List(l))) => l,
        _ => panic!("expected a list"),
    };
    let mut dict = match outer.next(&mut decoder) {
        Ok(Some(Object::Dict(d))) => d,
        _ => panic!("expected a dict"),
    };
    match outer.next(&mut decoder) {
        Ok(Some(Object::Integer(n))) => assert_eq!(n, "2"),
        _ => panic!("expected the element after the dict"),
    }
    assert!(matches!(dict.next(&mut decoder), Ok(None)));
    match outer.next(&mut decoder) {
        Ok(Some(Object::Bytes(b))) => assert_eq!(b, b"xyz"),
        _ => panic!("expected the next element"),
    }
}

#[test]
fn reader_of_a_closed_list_ignores_a_later_list_at_its_depth() {
    let mut decoder = Decoder::new(b"li1eeli2ee");
    let mut first = match decoder.next() {
        Ok(Some(Object::List(l))) => l,
        _ => panic!("expected a list"),
    };
    assert!(matches!(decoder.next(), Ok(Some(Object::List(_)))));
    assert!(matches!(first.next(&mut decoder), Ok(None)));
}

#[test]
fn reader_given_another_decoder_stops() {
    let mut a = Decoder::new(b"li1ee");
    let mut list = match a.next() {
        Ok(Some(Object::List(l))) => l,
        _ => panic!("expected a list"),
    };
    let mut b = Decoder::new(b"i9e");
    assert!(matches!(list.next(&mut b), Ok(None)));
    assert!(matches!(b.next(), Ok(Some(Object::Integer("9")))));
}

#[test]
fn token_spans_rebuild_well_formed_input() {
    let input: &[u8] = b"d1:ali1e0:e1:bd1:ci-12eeei0e4:spam";
    let mut decoder = Decoder::new(input);
    let mut rebuilt = Vec::new();
    let mut at = decoder.offset();
    assert_eq!(at, 0);
    while let Some(_) = decoder.next_token().expect("well-formed input reads cleanly") {
        let next = decoder.offset();
        assert!(next > at);
        rebuilt.extend_from_slice(&input[at..next]);
        at = next;
    }
    assert_eq!(at, input.len());
    assert_eq!(rebuilt, input.to_vec());
}
