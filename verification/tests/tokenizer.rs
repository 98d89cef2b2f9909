use json_parser::tokenizer::{Token, Tokenizer, TokenizerError, TokenizerTrait};

/// A token with its number as the float that the numeral denotes.
#[derive(Debug, PartialEq, Clone)]
enum Lexed {
    Number(f64),
    String(String),
    LeftBracket,
    RightBracket,
    Comma,
    Bool(bool),
    Null,
    LeftBrace,
    RightBrace,
    Colon,
}

fn lexed(token: &Token) -> Lexed {
    match token {
        Token::Number(n) => Lexed::Number(n.to_text().parse::<f64>().unwrap()),
        Token::String(s) => Lexed::String(s.clone()),
        Token::LeftBracket => Lexed::LeftBracket,
        Token::RightBracket => Lexed::RightBracket,
        Token::Comma => Lexed::Comma,
        Token::Bool(b) => Lexed::Bool(*b),
        Token::Null => Lexed::Null,
        Token::LeftBrace => Lexed::LeftBrace,
        Token::RightBrace => Lexed::RightBrace,
        Token::Colon => Lexed::Colon,
    }
}

fn tokenize(input: &str) -> Result<Vec<Lexed>, TokenizerError> {
    let mut tokenizer = Tokenizer::new(input);
    let tokens = tokenizer.tokenize()?;
    Ok(tokens.iter().map(lexed).collect())
}

#[test]
fn number_tokenize() {
    let res = tokenize("1").unwrap();
    assert_eq!(Lexed::Number(1.0), res[0]);

    let res = tokenize("-1").unwrap();
    assert_eq!(Lexed::Number(-1.0), res[0]);

    let res = tokenize("+1").unwrap();
    assert_eq!(Lexed::Number(1.0), res[0]);

    let res = tokenize(".1").unwrap();
    assert_eq!(Lexed::Number(0.1), res[0]);

    let res = tokenize("1.6").unwrap();
    assert_eq!(Lexed::Number(1.6), res[0]);
}

#[test]
fn string_tokenize() {
    let res = tokenize("\"hello world\"").unwrap();
    assert_eq!(Lexed::String("hello world".to_string()), res[0]);
}

#[test]
fn array_tokenize() {
    let test_str = r#"["文字列1", "文字列2"]"#;
    let res = tokenize(test_str).unwrap();

    assert_eq!(
        vec![
            Lexed::LeftBracket,
            Lexed::String("文字列1".to_string()),
            Lexed::Comma,
            Lexed::String("文字列2".to_string()),
            Lexed::RightBracket,
        ],
        res
    );
}

#[test]
fn boolean_tokenize() {
    let res = tokenize(r#"true"#).unwrap();
    assert_eq!(vec![Lexed::Bool(true)], res);

    let res = tokenize(r#"false"#).unwrap();
    assert_eq!(vec![Lexed::Bool(false)], res);
}

#[test]
fn null_tokenize() {
    let res = tokenize(r#"null"#).unwrap();
    assert_eq!(vec![Lexed::Null], res);
}

#[test]
fn object_tokenize() {
    let test_str = r#"
          {
            "key": "value"
          }
        "#;
    let res = tokenize(test_str).unwrap();

    assert_eq!(
        vec![
            Lexed::LeftBrace,
            Lexed::String("key".to_string()),
            Lexed::Colon,
            Lexed::String("value".to_string()),
            Lexed::RightBrace
        ],
        res
    );
}

#[test]
fn test_comprehensive_json_tokenization() {
    let test_str = r#"
      {
        "string": "こんにちは、世界！",
        "integer": 42,
        "float": 3.1,
        "boolean": true,
        "null": null,
        "array": [1, "two", 3.0, true, null],
        "nested_array": [
          ["a", "b", "c"],
          [1, 2, 3],
          [true, false, null]
        ],
        "object": {
          "name": "山田太郎",
          "age": 30,
          "address": {
            "country": "日本",
            "city": "東京",
            "postal_code": "123-4567"
          },
          "hobbies": ["読書", "映画", "旅行"]
        },
        "empty_array": [],
        "empty_object": {},
        "unicode": "\u3053\u3093\u306B\u3061\u306F"
      }
      "#;

    let res = tokenize(test_str).unwrap();

    assert_eq!(
        vec![
            Lexed::LeftBrace,
            Lexed::String("string".to_string()),
            Lexed::Colon,
            Lexed::String("こんにちは、世界！".to_string()),
            Lexed::Comma,
            Lexed::String("integer".to_string()),
            Lexed::Colon,
            Lexed::Number(42.0),
            Lexed::Comma,
            Lexed::String("float".to_string()),
            Lexed::Colon,
            Lexed::Number(3.1),
            Lexed::Comma,
            Lexed::String("boolean".to_string()),
            Lexed::Colon,
            Lexed::Bool(true),
            Lexed::Comma,
            Lexed::String("null".to_string()),
            Lexed::Colon,
            Lexed::Null,
            Lexed::Comma,
            Lexed::String("array".to_string()),
            Lexed::Colon,
            Lexed::LeftBracket,
            Lexed::Number(1.0),
            Lexed::Comma,
            Lexed::String("two".to_string()),
            Lexed::Comma,
            Lexed::Number(3.0),
            Lexed::Comma,
            Lexed::Bool(true),
            Lexed::Comma,
            Lexed::Null,
            Lexed::RightBracket,
            Lexed::Comma,
            Lexed::String("nested_array".to_string()),
            Lexed::Colon,
            Lexed::LeftBracket,
            Lexed::LeftBracket,
            Lexed::String("a".to_string()),
            Lexed::Comma,
            Lexed::String("b".to_string()),
            Lexed::Comma,
            Lexed::String("c".to_string()),
            Lexed::RightBracket,
            Lexed::Comma,
            Lexed::LeftBracket,
            Lexed::Number(1.0),
            Lexed::Comma,
            Lexed::Number(2.0),
            Lexed::Comma,
            Lexed::Number(3.0),
            Lexed::RightBracket,
            Lexed::Comma,
            Lexed::LeftBracket,
            Lexed::Bool(true),
            Lexed::Comma,
            Lexed::Bool(false),
            Lexed::Comma,
            Lexed::Null,
            Lexed::RightBracket,
            Lexed::RightBracket,
            Lexed::Comma,
            Lexed::String("object".to_string()),
            Lexed::Colon,
            Lexed::LeftBrace,
            Lexed::String("name".to_string()),
            Lexed::Colon,
            Lexed::String("山田太郎".to_string()),
            Lexed::Comma,
            Lexed::String("age".to_string()),
            Lexed::Colon,
            Lexed::Number(30.0),
            Lexed::Comma,
            Lexed::String("address".to_string()),
            Lexed::Colon,
            Lexed::LeftBrace,
            Lexed::String("country".to_string()),
            Lexed::Colon,
            Lexed::String("日本".to_string()),
            Lexed::Comma,
            Lexed::String("city".to_string()),
            Lexed::Colon,
            Lexed::String("東京".to_string()),
            Lexed::Comma,
            Lexed::String("postal_code".to_string()),
            Lexed::Colon,
            Lexed::String("123-4567".to_string()),
            Lexed::RightBrace,
            Lexed::Comma,
            Lexed::String("hobbies".to_string()),
            Lexed::Colon,
            Lexed::LeftBracket,
            Lexed::String("読書".to_string()),
            Lexed::Comma,
            Lexed::String("映画".to_string()),
            Lexed::Comma,
            Lexed::String("旅行".to_string()),
            Lexed::RightBracket,
            Lexed::RightBrace,
            Lexed::Comma,
            Lexed::String("empty_array".to_string()),
            Lexed::Colon,
            Lexed::LeftBracket,
            Lexed::RightBracket,
            Lexed::Comma,
            Lexed::String("empty_object".to_string()),
            Lexed::Colon,
            Lexed::LeftBrace,
            Lexed::RightBrace,
            Lexed::Comma,
            Lexed::String("unicode".to_string()),
            Lexed::Colon,
            Lexed::String(r#"\u3053\u3093\u306B\u3061\u306F"#.to_string()),
            Lexed::RightBrace,
        ],
        res
    );
}

#[test]
fn whitespace_writes_no_token() {
    assert_eq!(tokenize(""), Ok(vec![]));
    assert_eq!(tokenize(" \n\t  "), Ok(vec![]));
    assert_eq!(tokenize("\t[\n ]  "), Ok(vec![Lexed::LeftBracket, Lexed::RightBracket]));
}

#[test]
fn punctuation_stands_for_itself() {
    assert_eq!(
        tokenize("{}[],:"),
        Ok(vec![
            Lexed::LeftBrace,
            Lexed::RightBrace,
            Lexed::LeftBracket,
            Lexed::RightBracket,
            Lexed::Comma,
            Lexed::Colon,
        ])
    );
}

#[test]
fn invalid_character_fails() {
    assert_eq!(tokenize("a"), Err(TokenizerError::InvalidCharacter('a')));
    assert_eq!(tokenize("[1, x]"), Err(TokenizerError::InvalidCharacter('x')));
    assert_eq!(tokenize("\r"), Err(TokenizerError::InvalidCharacter('\r')));
    assert_eq!(tokenize("1e5"), Err(TokenizerError::InvalidCharacter('e')));
}

#[test]
fn keyword_must_be_spelled_out() {
    assert_eq!(tokenize("nul"), Err(TokenizerError::InvalidCharacter('n')));
    assert_eq!(tokenize("n"), Err(TokenizerError::InvalidCharacter('n')));
    assert_eq!(tokenize("nulx"), Err(TokenizerError::InvalidCharacter('n')));
    assert_eq!(tokenize("tru"), Err(TokenizerError::InvalidCharacter('t')));
    assert_eq!(tokenize("trye"), Err(TokenizerError::InvalidCharacter('t')));
    assert_eq!(tokenize("fals"), Err(TokenizerError::InvalidCharacter('f')));
    assert_eq!(tokenize("falsy"), Err(TokenizerError::InvalidCharacter('f')));
    assert_eq!(tokenize("nulltrue"), Ok(vec![Lexed::Null, Lexed::Bool(true)]));
}

#[test]
fn unterminated_string_fails() {
    assert_eq!(tokenize("\"abc"), Err(TokenizerError::UnterminatedString));
    assert_eq!(tokenize("\""), Err(TokenizerError::UnterminatedString));
    assert_eq!(tokenize("[\"a\", \"b]"), Err(TokenizerError::UnterminatedString));
}

#[test]
fn string_is_taken_verbatim() {
    assert_eq!(tokenize("\"\""), Ok(vec![Lexed::String(String::new())]));
    assert_eq!(tokenize("\" a\tb\n\""), Ok(vec![Lexed::String(" a\tb\n".to_string())]));
    assert_eq!(tokenize(r#""a\n""#), Ok(vec![Lexed::String("a\\n".to_string())]));
    assert_eq!(
        tokenize("\"これは文字列\""),
        Ok(vec![Lexed::String("これは文字列".to_string())])
    );
    assert_eq!(
        tokenize("\"{[1,true]}\""),
        Ok(vec![Lexed::String("{[1,true]}".to_string())])
    );
}

#[test]
fn number_that_writes_no_numeral_fails() {
    assert_eq!(tokenize("1.2.3"), Err(TokenizerError::InvalidCharacter('1')));
    assert_eq!(tokenize("."), Err(TokenizerError::InvalidCharacter('.')));
    assert_eq!(tokenize("+"), Err(TokenizerError::InvalidCharacter('+')));
    assert_eq!(tokenize("-"), Err(TokenizerError::InvalidCharacter('-')));
    assert_eq!(tokenize("-."), Err(TokenizerError::InvalidCharacter('-')));
    assert_eq!(tokenize("+-1"), Err(TokenizerError::InvalidCharacter('+')));
    assert_eq!(tokenize("..1"), Err(TokenizerError::InvalidCharacter('.')));
}

#[test]
fn number_runs_through_digits_and_points() {
    assert_eq!(tokenize("12"), Ok(vec![Lexed::Number(12.0)]));
    assert_eq!(tokenize("1."), Ok(vec![Lexed::Number(1.0)]));
    assert_eq!(tokenize("-.5"), Ok(vec![Lexed::Number(-0.5)]));
    assert_eq!(tokenize("007.250"), Ok(vec![Lexed::Number(7.25)]));
    assert_eq!(tokenize("1-2"), Ok(vec![Lexed::Number(1.0), Lexed::Number(-2.0)]));
    assert_eq!(tokenize("1 2"), Ok(vec![Lexed::Number(1.0), Lexed::Number(2.0)]));
    assert_eq!(tokenize("3,"), Ok(vec![Lexed::Number(3.0), Lexed::Comma]));
}

#[test]
fn tokenizing_twice_gives_the_same_tokens() {
    let input = r#"{"a": [1, -2.5, true, null], "b": "c",}"#;
    let first = Tokenizer::new(input).tokenize();
    let second = Tokenizer::new(input).tokenize();
    assert!(first.is_ok());
    assert_eq!(first, second);

    let first = Tokenizer::new("[1, ?]").tokenize();
    let second = Tokenizer::new("[1, ?]").tokenize();
    assert_eq!(first, Err(TokenizerError::InvalidCharacter('?')));
    assert_eq!(first, second);
}

#[test]
fn nothing_remains_after_tokenizing() {
    let mut tokenizer = Tokenizer::new("[1, 2]");
    assert_eq!(tokenizer.tokenize().map(|tokens| tokens.len()), Ok(5));
    assert_eq!(tokenizer.tokenize().map(|tokens| tokens.len()), Ok(0));
}
