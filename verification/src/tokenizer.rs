use crate::number::{is_digit, number_of_text, Number, NumberView};
use crate::text::{lemma_prefix_len, lemma_prefix_len_bounds, prefix_len};
use vstd::prelude::*;

verus! {

#[derive(Debug, PartialEq, Clone)]
pub enum TokenizerError {
    /// A character that starts no lexeme, or the first character of a
    /// lexeme that does not go on as it must: of a keyword that is not
    /// spelled out, or of a number that writes no numeral.
    InvalidCharacter(char),
    /// A string whose closing quote never comes.
    UnterminatedString,
}

/// A lexical unit. A number is kept as the numeral that was written, a
/// string as the characters between its quotes, unchanged.
#[derive(Debug, PartialEq, Clone)]
pub enum Token {
    Number(Number),
    String(String),
    LeftBracket,
    RightBracket,
    Comma,
    Bool(bool),
    Null,
    LeftBrace,
    RightBrace,
    Colon,
}

/// The mathematical content of a [`Token`].
pub ghost enum TokenView {
    Number(NumberView),
    String(Seq<char>),
    LeftBracket,
    RightBracket,
    Comma,
    Bool(bool),
    Null,
    LeftBrace,
    RightBrace,
    Colon,
}

impl View for Token {
    type V = TokenView;

    open spec fn view(&self) -> TokenView {
        match self {
            Token::Number(n) => TokenView::Number(n@),
            Token::String(s) => TokenView::String(s@),
            Token::LeftBracket => TokenView::LeftBracket,
            Token::RightBracket => TokenView::RightBracket,
            Token::Comma => TokenView::Comma,
            Token::Bool(b) => TokenView::Bool(*b),
            Token::Null => TokenView::Null,
            Token::LeftBrace => TokenView::LeftBrace,
            Token::RightBrace => TokenView::RightBrace,
            Token::Colon => TokenView::Colon,
        }
    }
}

impl DeepView for Token {
    type V = TokenView;

    open spec fn deep_view(&self) -> TokenView {
        self@
    }
}

/// Space, newline and tab separate lexemes and write nothing.
pub open spec fn is_whitespace(c: char) -> bool {
    c == ' ' || c == '\n' || c == '\t'
}

/// A digit, a sign or a point starts a number.
pub open spec fn starts_number(c: char) -> bool {
    is_digit(c) || c == '+' || c == '-' || c == '.'
}

/// A number goes on through digits and points.
pub open spec fn continues_number(c: char) -> bool {
    is_digit(c) || c == '.'
}

/// `s` begins with the characters of `word`.
pub open spec fn spells(s: Seq<char>, word: Seq<char>) -> bool {
    word.len() <= s.len() && s.take(word.len() as int) =~= word
}

/// A token together with the number of characters that wrote it.
pub ghost struct Lexeme {
    pub token: TokenView,
    pub len: nat,
}

/// The lexeme that a keyword makes: `token`, if `s` spells `word`.
pub open spec fn keyword(s: Seq<char>, word: Seq<char>, token: TokenView) -> Result<
    Lexeme,
    TokenizerError,
> {
    if spells(s, word) {
        Ok(Lexeme { token, len: word.len() })
    } else {
        Err(TokenizerError::InvalidCharacter(s[0]))
    }
}

/// The lexeme at the start of `s`, which is not empty and does not start
/// with whitespace.
///
/// A number runs on through every digit and `.` that follows its first
/// character, and must then write a numeral. A string runs up to the next
/// `"`, which must come. `null`, `true` and `false` must be spelled out.
/// The six punctuation marks stand for themselves.
pub open spec fn first_lexeme(s: Seq<char>) -> Result<Lexeme, TokenizerError>
    recommends
        s.len() > 0,
{
    let c = s[0];
    if starts_number(c) {
        let len = 1 + prefix_len(s.drop_first(), |c: char| continues_number(c));
        match number_of_text(s.take(len as int)) {
            Some(n) => Ok(Lexeme { token: TokenView::Number(n), len }),
            None => Err(TokenizerError::InvalidCharacter(c)),
        }
    } else if c == '"' {
        let inner = prefix_len(s.drop_first(), |c: char| c != '"');
        if inner + 1 == s.len() {
            Err(TokenizerError::UnterminatedString)
        } else {
            Ok(Lexeme { token: TokenView::String(s.subrange(1, inner as int + 1)), len: inner + 2 })
        }
    } else if c == 'n' {
        keyword(s, seq!['n', 'u', 'l', 'l'], TokenView::Null)
    } else if c == 't' {
        keyword(s, seq!['t', 'r', 'u', 'e'], TokenView::Bool(true))
    } else if c == 'f' {
        keyword(s, seq!['f', 'a', 'l', 's', 'e'], TokenView::Bool(false))
    } else if c == '{' {
        Ok(Lexeme { token: TokenView::LeftBrace, len: 1 })
    } else if c == '}' {
        Ok(Lexeme { token: TokenView::RightBrace, len: 1 })
    } else if c == '[' {
        Ok(Lexeme { token: TokenView::LeftBracket, len: 1 })
    } else if c == ']' {
        Ok(Lexeme { token: TokenView::RightBracket, len: 1 })
    } else if c == ',' {
        Ok(Lexeme { token: TokenView::Comma, len: 1 })
    } else if c == ':' {
        Ok(Lexeme { token: TokenView::Colon, len: 1 })
    } else {
        Err(TokenizerError::InvalidCharacter(c))
    }
}

/// A lexeme is at least one character long and lies within its input.
pub proof fn lemma_first_lexeme_len(s: Seq<char>)
    requires
        s.len() > 0,
    ensures
        first_lexeme(s) matches Ok(lexeme) ==> 1 <= lexeme.len <= s.len(),
{
    lemma_prefix_len_bounds(s.drop_first(), |c: char| continues_number(c));
    lemma_prefix_len_bounds(s.drop_first(), |c: char| c != '"');
}

/// `tokens` in front of what the rest of the input gives.
pub open spec fn prepend(tokens: Seq<TokenView>, rest: Result<Seq<TokenView>, TokenizerError>)
    -> Result<Seq<TokenView>, TokenizerError> {
    match rest {
        Ok(more) => Ok(tokens + more),
        Err(e) => Err(e),
    }
}

/// The tokens that `s` writes, in order, or the first error.
///
/// Whitespace between lexemes writes nothing. The first lexeme that fails
/// makes the whole input fail, with that lexeme's error.
pub open spec fn lex(s: Seq<char>) -> Result<Seq<TokenView>, TokenizerError>
    decreases s.len(),
{
    if s.len() == 0 {
        Ok(Seq::empty())
    } else if is_whitespace(s[0]) {
        lex(s.drop_first())
    } else {
        match first_lexeme(s) {
            Ok(lexeme) => {
                proof {
                    lemma_first_lexeme_len(s);
                }
                prepend(seq![lexeme.token], lex(s.skip(lexeme.len as int)))
            },
            Err(e) => Err(e),
        }
    }
}

/// A character that starts a lexeme.
pub open spec fn starts_lexeme(c: char) -> bool {
    starts_number(c) || c == '"' || c == 'n' || c == 't' || c == 'f' || c == '{' || c == '}'
        || c == '[' || c == ']' || c == ',' || c == ':'
}

/// Text that comes to a character which neither is whitespace nor starts a
/// lexeme fails there, with that character: whatever follows it, and
/// whatever whitespace stands in front of it.
pub proof fn lemma_invalid_character(blank: Seq<char>, s: Seq<char>)
    requires
        forall|i: int| 0 <= i < blank.len() ==> is_whitespace(#[trigger] blank[i]),
        s.len() > 0,
        !is_whitespace(s[0]),
        !starts_lexeme(s[0]),
    ensures
        lex(blank + s) == Err::<Seq<TokenView>, _>(TokenizerError::InvalidCharacter(s[0])),
    decreases blank.len(),
{
    if blank.len() == 0 {
        assert(blank + s =~= s);
    } else {
        let rest = blank.drop_first();
        assert((blank + s).drop_first() =~= rest + s);
        assert forall|i: int| 0 <= i < rest.len() implies is_whitespace(#[trigger] rest[i]) by {
            assert(rest[i] == blank[i + 1]);
        }
        lemma_invalid_character(rest, s);
    }
}

/// `r` is what tokenizing `input` gives: the tokens that `input` writes, or
/// the error that it fails with.
pub open spec fn tokenized(input: Seq<char>, r: Result<Vec<Token>, TokenizerError>) -> bool {
    match lex(input) {
        Ok(tokens) => r is Ok && r->Ok_0.deep_view() == tokens,
        Err(e) => r is Err && r->Err_0 == e,
    }
}

/// Tokenizing the same input twice gives the same: both times the same
/// tokens, or both times the same error.
pub proof fn lemma_same_input_same_tokens(
    input: Seq<char>,
    first: Result<Vec<Token>, TokenizerError>,
    second: Result<Vec<Token>, TokenizerError>,
)
    requires
        tokenized(input, first),
        tokenized(input, second),
    ensures
        first is Ok <==> second is Ok,
        first is Ok ==> first->Ok_0.deep_view() == second->Ok_0.deep_view(),
        first is Err ==> first->Err_0 == second->Err_0,
{
}

/// A cursor over the characters of an input text.
pub struct Tokenizer {
    chars: Vec<char>,
    pos: usize,
}

pub trait TokenizerTrait {
    /// The characters that have not been read yet.
    spec fn remaining(&self) -> Seq<char>;

    /// Reads what remains, from left to right, and gives the tokens that it
    /// writes, or the error of the first lexeme that fails. After a success
    /// nothing remains; after a failure, some tail of what remained.
    fn tokenize(&mut self) -> (r: Result<Vec<Token>, TokenizerError>)
        ensures
            tokenized(old(self).remaining(), r),
            r is Ok ==> final(self).remaining().len() == 0,
            final(self).remaining().is_suffix_of(old(self).remaining()),
    ;
}

impl Tokenizer {
    /// A tokenizer that will read `input`, from its first character on.
    pub fn new(input: &str) -> (t: Self)
        ensures
            t.remaining() == input@,
    {
        let mut chars: Vec<char> = Vec::new();
        for c in it: input.chars()
            invariant
                it.seq() == input@,
                chars@ =~= it.seq().take(it.index()),
        {
            chars.push(c);
        }
        Tokenizer { chars, pos: 0 }
    }

    /// The next character, which stays unread.
    fn peek(&self) -> (c: Option<char>)
        ensures
            c == if self.remaining().len() > 0 {
                Some(self.remaining()[0])
            } else {
                None
            },
    {
        if self.pos < self.chars.len() {
            Some(self.chars[self.pos])
        } else {
            None
        }
    }

    /// Reads the next character.
    fn next(&mut self) -> (c: Option<char>)
        ensures
            c == if old(self).remaining().len() > 0 {
                Some(old(self).remaining()[0])
            } else {
                None
            },
            final(self).remaining() == if old(self).remaining().len() > 0 {
                old(self).remaining().drop_first()
            } else {
                old(self).remaining()
            },
    {
        if self.pos < self.chars.len() {
            let c = self.chars[self.pos];
            self.pos += 1;
            assert(self.remaining() =~= old(self).remaining().drop_first());
            Some(c)
        } else {
            None
        }
    }

    /// Reads the next character if it is `expected`, and says whether it did.
    fn eat(&mut self, expected: char) -> (eaten: bool)
        ensures
            eaten == (old(self).remaining().len() > 0 && old(self).remaining()[0] == expected),
            final(self).remaining() == if eaten {
                old(self).remaining().drop_first()
            } else {
                old(self).remaining()
            },
    {
        match self.peek() {
            Some(c) => {
                if c == expected {
                    self.next();
                    true
                } else {
                    false
                }
            },
            None => false,
        }
    }

    /// Reads the digits and `.` that follow at once, and puts them at the end
    /// of `lexeme`.
    fn read_number_run(&mut self, lexeme: &mut Vec<char>)
        ensures
            ({
                let run = prefix_len(old(self).remaining(), |c: char| continues_number(c)) as int;
                &&& run <= old(self).remaining().len()
                &&& final(lexeme)@ == old(lexeme)@ + old(self).remaining().take(run)
                &&& final(self).remaining() == old(self).remaining().skip(run)
            }),
    {
        let ghost rest = self.remaining();
        let ghost before = lexeme@;
        let ghost mut run: int = 0;
        loop
            invariant
                0 <= run <= rest.len(),
                self.remaining() == rest.skip(run),
                lexeme@ == before + rest.take(run),
                forall|j: int| 0 <= j < run ==> continues_number(#[trigger] rest[j]),
            ensures
                run == rest.len() || !continues_number(rest[run]),
            decreases rest.len() - run,
        {
            match self.peek() {
                Some(c) => {
                    if ('0' <= c && c <= '9') || c == '.' {
                        self.next();
                        lexeme.push(c);
                        proof {
                            assert(rest.skip(run).drop_first() =~= rest.skip(run + 1));
                            assert(before + rest.take(run + 1) =~= (before + rest.take(run)).push(
                                c,
                            ));
                            run = run + 1;
                        }
                    } else {
                        break ;
                    }
                },
                None => {
                    break ;
                },
            }
        }
        proof {
            lemma_prefix_len(rest, |c: char| continues_number(c), run as nat);
        }
    }

    /// Reads a string's characters and its closing quote, the opening quote
    /// having been read. `None` where no closing quote comes.
    fn read_string(&mut self) -> (r: Option<String>)
        ensures
            ({
                let inner = prefix_len(old(self).remaining(), |c: char| c != '"') as int;
                if inner == old(self).remaining().len() {
                    r is None
                } else {
                    &&& inner < old(self).remaining().len()
                    &&& r is Some
                    &&& r->0@ == old(self).remaining().take(inner)
                    &&& final(self).remaining() == old(self).remaining().skip(inner + 1)
                }
            }),
            final(self).remaining().is_suffix_of(old(self).remaining()),
    {
        let ghost rest = self.remaining();
        let ghost mut inner: int = 0;
        let mut text = String::new();
        loop
            invariant
                rest == old(self).remaining(),
                0 <= inner <= rest.len(),
                self.remaining() == rest.skip(inner),
                text@ == rest.take(inner),
                forall|j: int| 0 <= j < inner ==> #[trigger] rest[j] != '"',
            decreases rest.len() - inner,
        {
            match self.next() {
                Some(c) => {
                    proof {
                        assert(rest.skip(inner).drop_first() =~= rest.skip(inner + 1));
                    }
                    if c == '"' {
                        proof {
                            lemma_prefix_len(rest, |c: char| c != '"', inner as nat);
                        }
                        return Some(text);
                    }
                    text.push(c);
                    proof {
                        assert(rest.take(inner + 1) =~= rest.take(inner).push(c));
                        inner = inner + 1;
                    }
                },
                None => {
                    proof {
                        lemma_prefix_len(rest, |c: char| c != '"', inner as nat);
                    }
                    return None;
                },
            }
        }
    }

    /// Reads the characters of `word` one by one for as long as they are what
    /// comes next, and says whether all of them came.
    fn eat_word(&mut self, word: &[char]) -> (eaten: bool)
        ensures
            eaten == spells(old(self).remaining(), word@),
            eaten ==> final(self).remaining() == old(self).remaining().skip(word@.len() as int),
            final(self).remaining().is_suffix_of(old(self).remaining()),
    {
        let ghost rest = self.remaining();
        let mut i: usize = 0;
        while i < word.len()
            invariant
                rest == old(self).remaining(),
                i <= word@.len(),
                i <= rest.len(),
                self.remaining() == rest.skip(i as int),
                forall|j: int| 0 <= j < i ==> #[trigger] rest[j] == word@[j],
            decreases word@.len() - i,
        {
            if !self.eat(word[i]) {
                proof {
                    if spells(rest, word@) {
                        assert(rest.take(word@.len() as int)[i as int] == word@[i as int]);
                    }
                }
                return false;
            }
            proof {
                assert(rest.skip(i as int).drop_first() =~= rest.skip(i + 1));
            }
            i += 1;
        }
        true
    }
}

fn is_number_start(c: char) -> (b: bool)
    ensures
        b == starts_number(c),
{
    ('0' <= c && c <= '9') || c == '+' || c == '-' || c == '.'
}

fn is_whitespace_char(c: char) -> (b: bool)
    ensures
        b == is_whitespace(c),
{
    c == ' ' || c == '\n' || c == '\t'
}

impl Tokenizer {
    /// Reads the rest of the lexeme that `c`, which has just been read,
    /// starts, and gives its token.
    fn read_lexeme(&mut self, c: char) -> (r: Result<Token, TokenizerError>)
        ensures
            match first_lexeme(seq![c] + old(self).remaining()) {
                Ok(lexeme) => {
                    &&& r is Ok
                    &&& r->Ok_0@ == lexeme.token
                    &&& 1 <= lexeme.len <= old(self).remaining().len() + 1
                    &&& final(self).remaining() == old(self).remaining().skip(lexeme.len - 1)
                },
                Err(e) => r is Err && r->Err_0 == e,
            },
            final(self).remaining().is_suffix_of(old(self).remaining()),
    {
        let ghost rest = self.remaining();
        let ghost s = seq![c] + rest;
        proof {
            assert(s.drop_first() =~= rest);
            assert(rest.skip(0) =~= rest);
            lemma_first_lexeme_len(s);
        }
        if is_number_start(c) {
            let mut lexeme: Vec<char> = Vec::new();
            lexeme.push(c);
            self.read_number_run(&mut lexeme);
            proof {
                let run = prefix_len(rest, |c: char| continues_number(c)) as int;
                assert(lexeme@ =~= s.take(1 + run));
            }
            match Number::from_chars(lexeme.as_slice()) {
                Some(n) => Ok(Token::Number(n)),
                None => Err(TokenizerError::InvalidCharacter(c)),
            }
        } else if c == '"' {
            match self.read_string() {
                Some(text) => {
                    proof {
                        let inner = prefix_len(rest, |c: char| c != '"') as int;
                        assert(rest.take(inner) =~= s.subrange(1, inner + 1));
                    }
                    Ok(Token::String(text))
                },
                None => Err(TokenizerError::UnterminatedString),
            }
        } else if c == 'n' {
            let word: [char; 3] = ['u', 'l', 'l'];
            proof {
                lemma_spells_after_first(s, seq!['n', 'u', 'l', 'l'], word@);
            }
            if self.eat_word(word.as_slice()) {
                Ok(Token::Null)
            } else {
                Err(TokenizerError::InvalidCharacter(c))
            }
        } else if c == 't' {
            let word: [char; 3] = ['r', 'u', 'e'];
            proof {
                lemma_spells_after_first(s, seq!['t', 'r', 'u', 'e'], word@);
            }
            if self.eat_word(word.as_slice()) {
                Ok(Token::Bool(true))
            } else {
                Err(TokenizerError::InvalidCharacter(c))
            }
        } else if c == 'f' {
            let word: [char; 4] = ['a', 'l', 's', 'e'];
            proof {
                lemma_spells_after_first(s, seq!['f', 'a', 'l', 's', 'e'], word@);
            }
            if self.eat_word(word.as_slice()) {
                Ok(Token::Bool(false))
            } else {
                Err(TokenizerError::InvalidCharacter(c))
            }
        } else if c == '{' {
            Ok(Token::LeftBrace)
        } else if c == '}' {
            Ok(Token::RightBrace)
        } else if c == '[' {
            Ok(Token::LeftBracket)
        } else if c == ']' {
            Ok(Token::RightBracket)
        } else if c == ',' {
            Ok(Token::Comma)
        } else if c == ':' {
            Ok(Token::Colon)
        } else {
            Err(TokenizerError::InvalidCharacter(c))
        }
    }
}

/// Where the first characters of `s` and `word` agree, `s` spells `word`
/// exactly if what follows the first character of `s` spells what follows
/// that of `word`.
proof fn lemma_spells_after_first(s: Seq<char>, word: Seq<char>, tail: Seq<char>)
    requires
        s.len() > 0,
        word.len() > 0,
        s[0] == word[0],
        tail =~= word.drop_first(),
    ensures
        spells(s, word) == spells(s.drop_first(), tail),
{
    let rest = s.drop_first();
    if spells(s, word) {
        assert forall|j: int| 0 <= j < tail.len() implies rest.take(tail.len() as int)[j]
            == tail[j] by {
            assert(s.take(word.len() as int)[j + 1] == word[j + 1]);
        }
        assert(rest.take(tail.len() as int) =~= tail);
    }
    if spells(rest, tail) {
        assert forall|j: int| 0 <= j < word.len() implies s.take(word.len() as int)[j]
            == word[j] by {
            if j > 0 {
                assert(rest.take(tail.len() as int)[j - 1] == tail[j - 1]);
            }
        }
        assert(s.take(word.len() as int) =~= word);
    }
}

/// A token that has been read moves from the input to the tokens.
proof fn lemma_lex_token(done: Seq<TokenView>, s: Seq<char>)
    requires
        s.len() > 0,
        !is_whitespace(s[0]),
        first_lexeme(s) is Ok,
    ensures
        prepend(done, lex(s)) == prepend(
            done.push(first_lexeme(s)->Ok_0.token),
            lex(s.skip(first_lexeme(s)->Ok_0.len as int)),
        ),
{
    let lexeme = first_lexeme(s)->Ok_0;
    match lex(s.skip(lexeme.len as int)) {
        Ok(more) => {
            assert(done + (seq![lexeme.token] + more) =~= done.push(lexeme.token) + more);
        },
        Err(_) => {},
    }
}

impl TokenizerTrait for Tokenizer {
    closed spec fn remaining(&self) -> Seq<char> {
        if self.pos <= self.chars@.len() {
            self.chars@.skip(self.pos as int)
        } else {
            Seq::empty()
        }
    }

    fn tokenize(&mut self) -> (r: Result<Vec<Token>, TokenizerError>)
    {
        let mut tokens: Vec<Token> = Vec::new();
        loop
            invariant
                lex(old(self).remaining()) == prepend(tokens.deep_view(), lex(self.remaining())),
                self.remaining().is_suffix_of(old(self).remaining()),
            decreases self.remaining().len(),
        {
            let ghost s = self.remaining();
            let ghost done = tokens.deep_view();
            match self.next() {
                Some(c) => {
                    proof {
                        assert(seq![c] + self.remaining() =~= s);
                    }
                    if !is_whitespace_char(c) {
                        match self.read_lexeme(c) {
                            Ok(token) => {
                                tokens.push(token);
                                proof {
                                    lemma_lex_token(done, s);
                                    assert(tokens.deep_view() =~= done.push(token@));
                                    let len = first_lexeme(s)->Ok_0.len as int;
                                    assert(s.drop_first().skip(len - 1) =~= s.skip(len));
                                }
                            },
                            Err(e) => {
                                return Err(e);
                            },
                        }
                    }
                },
                None => {
                    proof {
                        assert(done + Seq::<TokenView>::empty() =~= done);
                    }
                    return Ok(tokens);
                },
            }
        }
    }
}

} // verus!
