use json_parser::number::Number;
use json_parser::parser::{Array, Element, Member, Object, ParseError, Parser};
use json_parser::tokenizer::{Token, Tokenizer, TokenizerTrait};

fn get_parser(str: String) -> Parser {
    let mut tokenizer = Tokenizer::new(str.as_str());

    let tokens = tokenizer.tokenize().unwrap();

    Parser::new(tokens)
}

fn parse(input: &str) -> Result<Element, ParseError> {
    get_parser(input.to_string()).parse()
}

fn number(text: &str) -> Number {
    Number::from_chars(&text.chars().collect::<Vec<char>>()).unwrap()
}

/// An element with its numbers as the floats that the numerals denote.
#[derive(Debug, PartialEq)]
enum Value {
    String(String),
    Number(f64),
    Boolean(bool),
    Null,
    Object(Vec<(String, Value)>),
    Array(Vec<Value>),
}

fn value(element: &Element) -> Value {
    match element {
        Element::String(s) => Value::String(s.clone()),
        Element::Number(n) => Value::Number(n.to_text().parse::<f64>().unwrap()),
        Element::Boolean(b) => Value::Boolean(*b),
        Element::Null => Value::Null,
        Element::Object(o) => {
            Value::Object(o.members.iter().map(|m| (m.key.clone(), value(&m.value))).collect())
        }
        Element::Array(a) => Value::Array(a.elements.iter().map(value).collect()),
    }
}

#[test]
fn parse_string() {
    let mut parser = get_parser("\"これは文字列\"".to_string());

    let result = parser.parse().unwrap();

    println!("{:?}", result);

    assert_eq!(result, Element::String("これは文字列".to_string()),);
}

#[test]
fn parse_object() {
    let mut parser = get_parser(
        r#"
        {}
        "#
        .to_string(),
    );

    let result = parser.parse().unwrap();

    assert_eq!(result, Element::Object(Object { members: vec![] }));

    let mut parser = get_parser(
        r#"
        {
          "key": "value"
        }
        "#
        .to_string(),
    );

    let result = parser.parse().unwrap();
    //
    assert_eq!(
        result,
        Element::Object(Object {
            members: vec![Member {
                key: "key".to_string(),
                value: Element::String("value".to_string()),
            }]
        })
    );

    let mut parser = get_parser(
        r#"
      {
        "key": "value",
        "key2": {
          "key3": "value3",
        },
      }
      "#
        .to_string(),
    );

    let result = parser.parse().unwrap();
    println!("{:?}", result);
    assert_eq!(
        result,
        Element::Object(Object {
            members: vec![
                Member {
                    key: "key".to_string(),
                    value: Element::String("value".to_string()),
                },
                Member {
                    key: "key2".to_string(),
                    value: Element::Object(Object {
                        members: vec![Member {
                            key: "key3".to_string(),
                            value: Element::String("value3".to_string()),
                        }]
                    }),
                }
            ]
        })
    );

    let mut parser = get_parser(
        r#"
      {
        "key": "value",
        "key2": {
          "key3": "value3",
        }
      }
      "#
        .to_string(),
    );

    let result = parser.parse().unwrap();
    println!("{:?}", result);
    assert_eq!(
        result,
        Element::Object(Object {
            members: vec![
                Member {
                    key: "key".to_string(),
                    value: Element::String("value".to_string()),
                },
                Member {
                    key: "key2".to_string(),
                    value: Element::Object(Object {
                        members: vec![Member {
                            key: "key3".to_string(),
                            value: Element::String("value3".to_string()),
                        }]
                    }),
                }
            ]
        })
    );
}

#[test]
fn parse_array() {
    let mut parser = get_parser(
        r#"
            [1,2,3]
      "#
        .to_string(),
    );

    let result = parser.parse().unwrap();
    println!("{:?}", result);
    assert_eq!(
        value(&result),
        Value::Array(vec![Value::Number(1.0), Value::Number(2.0), Value::Number(3.0)])
    );

    let mut parser = get_parser(
        r#"
            [1, "string", null]
      "#
        .to_string(),
    );

    let result = parser.parse().unwrap();
    println!("{:?}", result);
    assert_eq!(
        value(&result),
        Value::Array(vec![
            Value::Number(1.0),
            Value::String("string".to_string()),
            Value::Null
        ])
    );

    let mut parser = get_parser(
        r#"
            {
              "key": [1, "string", null]
            }
      "#
        .to_string(),
    );

    let result = parser.parse().unwrap();
    println!("{:?}", result);
    assert_eq!(
        value(&result),
        Value::Object(vec![(
            "key".to_string(),
            Value::Array(vec![
                Value::Number(1.0),
                Value::String("string".to_string()),
                Value::Null
            ])
        )])
    );
}

#[test]
fn leaves_are_one_token() {
    assert_eq!(parse("\"a\""), Ok(Element::String("a".to_string())));
    assert_eq!(parse("true"), Ok(Element::Boolean(true)));
    assert_eq!(parse("false"), Ok(Element::Boolean(false)));
    assert_eq!(parse("null"), Ok(Element::Null));
    assert_eq!(parse("-1.5"), Ok(Element::Number(number("-1.5"))));
    assert_eq!(parse("1.6").map(|e| value(&e)), Ok(Value::Number(1.6)));
}

#[test]
fn empty_containers() {
    assert_eq!(parse("{}"), Ok(Element::Object(Object { members: vec![] })));
    assert_eq!(parse("[]"), Ok(Element::Array(Array { elements: vec![] })));
    assert_eq!(
        parse("[[], {}]"),
        Ok(Element::Array(Array {
            elements: vec![
                Element::Array(Array { elements: vec![] }),
                Element::Object(Object { members: vec![] }),
            ]
        }))
    );
}

#[test]
fn trailing_comma_is_tolerated() {
    let expected = Element::Object(Object {
        members: vec![
            Member { key: "a".to_string(), value: Element::String("b".to_string()) },
            Member { key: "c".to_string(), value: Element::String("d".to_string()) },
        ],
    });
    assert_eq!(parse(r#"{"a": "b", "c": "d",}"#).as_ref(), Ok(&expected));
    assert_eq!(parse(r#"{"a": "b", "c": "d"}"#).as_ref(), Ok(&expected));

    let expected = Element::Array(Array { elements: vec![Element::Null, Element::Boolean(true)] });
    assert_eq!(parse("[null, true,]").as_ref(), Ok(&expected));
    assert_eq!(parse("[null, true]").as_ref(), Ok(&expected));
}

#[test]
fn a_comma_may_lead_or_be_left_out() {
    let one = Element::Object(Object {
        members: vec![Member { key: "k".to_string(), value: Element::String("v".to_string()) }],
    });
    assert_eq!(parse(r#"{, "k": "v"}"#).as_ref(), Ok(&one));
    assert_eq!(parse("{,}"), Ok(Element::Object(Object { members: vec![] })));
    assert_eq!(parse("[,]"), Ok(Element::Array(Array { elements: vec![] })));
    assert_eq!(
        parse("[true false]"),
        Ok(Element::Array(Array { elements: vec![Element::Boolean(true), Element::Boolean(false)] }))
    );
    assert_eq!(
        parse(r#"{"a": null "b": null}"#),
        Ok(Element::Object(Object {
            members: vec![
                Member { key: "a".to_string(), value: Element::Null },
                Member { key: "b".to_string(), value: Element::Null },
            ]
        }))
    );
}

#[test]
fn two_commas_in_a_row_fail() {
    assert_eq!(parse("[1,,2]"), Err(ParseError::UnexpectedToken(Token::Comma)));
    assert_eq!(parse("[,,]"), Err(ParseError::UnexpectedToken(Token::Comma)));
    assert_eq!(parse("{,,}"), Err(ParseError::ParseError));
    assert_eq!(parse(r#"{"a": 1,, "b": 2}"#), Err(ParseError::ParseError));
}

#[test]
fn duplicate_keys_are_kept_in_order() {
    assert_eq!(
        parse(r#"{"a": true, "a": false}"#),
        Ok(Element::Object(Object {
            members: vec![
                Member { key: "a".to_string(), value: Element::Boolean(true) },
                Member { key: "a".to_string(), value: Element::Boolean(false) },
            ]
        }))
    );
}

#[test]
fn unexpected_end_fails() {
    assert_eq!(parse(""), Err(ParseError::UnexpectedEof));
    assert_eq!(parse(r#"{"a":"#), Err(ParseError::UnexpectedEof));
    assert_eq!(parse(r#"{"a""#), Err(ParseError::UnexpectedEof));
    assert_eq!(parse(r#"{"a": 1"#), Err(ParseError::UnexpectedEof));
    assert_eq!(parse(r#"{"a": 1,"#), Err(ParseError::UnexpectedEof));
    assert_eq!(parse("{"), Err(ParseError::UnexpectedEof));
    assert_eq!(parse("["), Err(ParseError::UnexpectedEof));
    assert_eq!(parse("[1"), Err(ParseError::UnexpectedEof));
    assert_eq!(parse("[1,"), Err(ParseError::UnexpectedEof));
    assert_eq!(parse("[[1]"), Err(ParseError::UnexpectedEof));
}

#[test]
fn unexpected_token_fails() {
    assert_eq!(parse("}"), Err(ParseError::UnexpectedToken(Token::RightBrace)));
    assert_eq!(parse("]"), Err(ParseError::UnexpectedToken(Token::RightBracket)));
    assert_eq!(parse(","), Err(ParseError::UnexpectedToken(Token::Comma)));
    assert_eq!(parse(":"), Err(ParseError::UnexpectedToken(Token::Colon)));
    assert_eq!(parse("[1}"), Err(ParseError::UnexpectedToken(Token::RightBrace)));
    assert_eq!(parse("[:]"), Err(ParseError::UnexpectedToken(Token::Colon)));
    assert_eq!(parse(r#"{"a": }"#), Err(ParseError::UnexpectedToken(Token::RightBrace)));
}

#[test]
fn malformed_member_fails() {
    assert_eq!(parse("{1: 2}"), Err(ParseError::ParseError));
    assert_eq!(parse(r#"{"a" 1}"#), Err(ParseError::ParseError));
    assert_eq!(parse(r#"{"a", 1}"#), Err(ParseError::ParseError));
    assert_eq!(parse("{]"), Err(ParseError::ParseError));
    assert_eq!(parse("{null: 1}"), Err(ParseError::ParseError));
}

#[test]
fn tokens_after_the_element_stay_unread() {
    let mut parser = get_parser("[1] true {}".to_string());
    assert_eq!(parser.parse().map(|e| value(&e)), Ok(Value::Array(vec![Value::Number(1.0)])));
    assert_eq!(parser.parse(), Ok(Element::Boolean(true)));
    assert_eq!(parser.parse(), Ok(Element::Object(Object { members: vec![] })));
    assert_eq!(parser.parse(), Err(ParseError::UnexpectedEof));
}

#[test]
fn parser_takes_tokens_in_the_order_given() {
    let tokens = vec![
        Token::LeftBracket,
        Token::String("x".to_string()),
        Token::Comma,
        Token::Number(number("2")),
        Token::RightBracket,
    ];
    assert_eq!(
        Parser::new(tokens).parse(),
        Ok(Element::Array(Array {
            elements: vec![Element::String("x".to_string()), Element::Number(number("2"))]
        }))
    );
}

#[test]
fn nested_structures() {
    let input = r#"{"a": {"b": [{"c": [[], [null]]}, -0.5]}, "d": [true],}"#;
    assert_eq!(
        parse(input).map(|e| value(&e)),
        Ok(Value::Object(vec![
            (
                "a".to_string(),
                Value::Object(vec![(
                    "b".to_string(),
                    Value::Array(vec![
                        Value::Object(vec![(
                            "c".to_string(),
                            Value::Array(vec![
                                Value::Array(vec![]),
                                Value::Array(vec![Value::Null])
                            ])
                        )]),
                        Value::Number(-0.5),
                    ])
                )])
            ),
            ("d".to_string(), Value::Array(vec![Value::Boolean(true)])),
        ]))
    );
}

#[test]
fn tokens_cut_short_fail_with_unexpected_eof() {
    for input in [
        r#"{"a": {"b": [{"c": [[], [null]]}, -0.5]}, "d": [true],}"#,
        r#"[1, "string", null]"#,
        r#"{"key": "value"}"#,
        "[[[]]]",
        "true",
    ] {
        let tokens = Tokenizer::new(input).tokenize().unwrap();
        assert!(Parser::new(tokens.clone()).parse().is_ok());
        for n in 0..tokens.len() {
            let cut: Vec<Token> = tokens[..n].to_vec();
            assert_eq!(Parser::new(cut).parse(), Err(ParseError::UnexpectedEof));
        }
    }
}

#[test]
fn a_copy_of_an_element_is_equal_to_it() {
    let element = parse(r#"{"a": [1, "x", null, {"b": false}], "c": {}}"#).unwrap();
    assert_eq!(element.clone(), element);
}
