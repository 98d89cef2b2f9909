use crate::grammar::{after_comma, element, elements, member, members, Parsed};
use crate::parser::{ElementView, MemberView, ParseErrorView};
use crate::number::{lemma_digit_char, lemma_numeral_reads_back, NumberView};
use crate::text::lemma_prefix_len;
use crate::tokenizer::{
    continues_number, first_lexeme, is_whitespace, lex, spells, starts_number, Lexeme, TokenView,
    TokenizerError,
};
use vstd::prelude::*;

verus! {

/// The comma behind an item: it is written if `more` items follow, or if
/// trailing commas are.
pub open spec fn comma_if(more: bool, trailing: bool) -> Seq<TokenView> {
    if more || trailing {
        seq![TokenView::Comma]
    } else {
        Seq::empty()
    }
}

/// The tokens that write `e`: a leaf is its token; an object or an array
/// is its items between its brackets, with a comma between two items and,
/// if `trailing`, one behind the last.
pub open spec fn element_tokens(e: ElementView, trailing: bool) -> Seq<TokenView>
    decreases e,
{
    match e {
        ElementView::String(s) => seq![TokenView::String(s)],
        ElementView::Number(n) => seq![TokenView::Number(n)],
        ElementView::Boolean(b) => seq![TokenView::Bool(b)],
        ElementView::Null => seq![TokenView::Null],
        ElementView::Object(ms) => seq![TokenView::LeftBrace] + members_tokens(ms, trailing)
            + seq![TokenView::RightBrace],
        ElementView::Array(es) => seq![TokenView::LeftBracket] + elements_tokens(es, trailing)
            + seq![TokenView::RightBracket],
    }
}

/// The tokens that write a member: its key, a colon, its value.
pub open spec fn member_tokens(m: MemberView, trailing: bool) -> Seq<TokenView>
    decreases m,
{
    seq![TokenView::String(m.key), TokenView::Colon] + element_tokens(m.value, trailing)
}

/// The tokens that write the members of an object, commas included.
pub open spec fn members_tokens(ms: Seq<MemberView>, trailing: bool) -> Seq<TokenView>
    decreases ms,
{
    if ms.len() == 0 {
        Seq::empty()
    } else {
        member_tokens(ms[0], trailing) + comma_if(ms.len() > 1, trailing) + members_tokens(
            ms.drop_first(),
            trailing,
        )
    }
}

/// The tokens that write the elements of an array, commas included.
pub open spec fn elements_tokens(es: Seq<ElementView>, trailing: bool) -> Seq<TokenView>
    decreases es,
{
    if es.len() == 0 {
        Seq::empty()
    } else {
        element_tokens(es[0], trailing) + comma_if(es.len() > 1, trailing) + elements_tokens(
            es.drop_first(),
            trailing,
        )
    }
}

/// Reading the tokens that write an element gives that element back, and
/// leaves what follows them: with or without trailing commas, whatever the
/// element and whatever follows.
pub proof fn lemma_element_read_back(e: ElementView, trailing: bool, rest: Seq<TokenView>)
    ensures
        element(element_tokens(e, trailing) + rest) == Ok::<_, ParseErrorView>(
            Parsed { value: e, rest },
        ),
    decreases e, 0nat,
{
    let ts = element_tokens(e, trailing) + rest;
    match e {
        ElementView::Object(ms) => {
            let closed = seq![TokenView::RightBrace] + rest;
            lemma_members_read_back(ms, trailing, false, closed);
            assert(Seq::<TokenView>::empty() + members_tokens(ms, trailing) + closed
                =~= ts.drop_first());
            assert(closed.drop_first() =~= rest);
        },
        ElementView::Array(es) => {
            let closed = seq![TokenView::RightBracket] + rest;
            lemma_elements_read_back(es, trailing, false, closed);
            assert(Seq::<TokenView>::empty() + elements_tokens(es, trailing) + closed
                =~= ts.drop_first());
            assert(closed.drop_first() =~= rest);
        },
        _ => {
            assert(ts.drop_first() =~= rest);
        },
    }
}

/// Reading the tokens that write a member gives that member back.
pub proof fn lemma_member_read_back(m: MemberView, trailing: bool, rest: Seq<TokenView>)
    ensures
        member(member_tokens(m, trailing) + rest) == Ok::<_, ParseErrorView>(
            Parsed { value: m, rest },
        ),
    decreases m, 1nat,
{
    let ts = member_tokens(m, trailing) + rest;
    lemma_element_read_back(m.value, trailing, rest);
    assert(ts.skip(2) =~= element_tokens(m.value, trailing) + rest);
}

/// A comma in front of tokens that start with none is passed over.
proof fn lemma_after_comma(comma: bool, next: Seq<TokenView>)
    requires
        next.len() > 0,
        !(next[0] is Comma),
    ensures
        after_comma(comma_if(comma, false) + next) == next,
{
    let ts = comma_if(comma, false) + next;
    if comma {
        assert(ts.drop_first() =~= next);
    } else {
        assert(ts =~= next);
    }
}

/// Reading the tokens that write the members of an object gives those
/// members back, up to the `}` that follows; a comma in front of them does
/// not matter.
pub proof fn lemma_members_read_back(
    ms: Seq<MemberView>,
    trailing: bool,
    comma: bool,
    rest: Seq<TokenView>,
)
    requires
        rest.len() > 0,
        rest[0] is RightBrace,
    ensures
        members(comma_if(comma, false) + (members_tokens(ms, trailing) + rest)) == Ok::<
            _,
            ParseErrorView,
        >(Parsed { value: ms, rest }),
    decreases ms, 2nat,
{
    let next = members_tokens(ms, trailing) + rest;
    let ts = comma_if(comma, false) + next;
    if ms.len() == 0 {
        assert(next =~= rest);
        lemma_after_comma(comma, next);
        assert(ms =~= Seq::empty());
    } else {
        let tail = ms.drop_first();
        let after = comma_if(ms.len() > 1 || trailing, false) + (members_tokens(tail, trailing)
            + rest);
        assert(next =~= member_tokens(ms[0], trailing) + after);
        lemma_after_comma(comma, next);
        lemma_member_read_back(ms[0], trailing, after);
        lemma_members_read_back(tail, trailing, ms.len() > 1 || trailing, rest);
        assert(seq![ms[0]] + tail =~= ms);
    }
}

/// Reading the tokens that write the elements of an array gives those
/// elements back, up to the `]` that follows; a comma in front of them does
/// not matter.
pub proof fn lemma_elements_read_back(
    es: Seq<ElementView>,
    trailing: bool,
    comma: bool,
    rest: Seq<TokenView>,
)
    requires
        rest.len() > 0,
        rest[0] is RightBracket,
    ensures
        elements(comma_if(comma, false) + (elements_tokens(es, trailing) + rest)) == Ok::<
            _,
            ParseErrorView,
        >(Parsed { value: es, rest }),
    decreases es, 2nat,
{
    let next = elements_tokens(es, trailing) + rest;
    let ts = comma_if(comma, false) + next;
    if es.len() == 0 {
        assert(next =~= rest);
        lemma_after_comma(comma, next);
        assert(es =~= Seq::empty());
    } else {
        let tail = es.drop_first();
        let after = comma_if(es.len() > 1 || trailing, false) + (elements_tokens(tail, trailing)
            + rest);
        assert(next =~= element_tokens(es[0], trailing) + after);
        lemma_after_comma(comma, next);
        lemma_element_read_back(es[0], trailing, after);
        lemma_elements_read_back(tail, trailing, es.len() > 1 || trailing, rest);
        assert(seq![es[0]] + tail =~= es);
    }
}

/// The characters that write a token: a numeral as `NumberView::text`
/// has it, a string between two `"`, the others as they are spelled.
pub open spec fn token_text(t: TokenView) -> Seq<char> {
    match t {
        TokenView::Number(n) => n.text(),
        TokenView::String(s) => seq!['"'] + s + seq!['"'],
        TokenView::LeftBracket => seq!['['],
        TokenView::RightBracket => seq![']'],
        TokenView::Comma => seq![','],
        TokenView::Bool(b) => if b {
            seq!['t', 'r', 'u', 'e']
        } else {
            seq!['f', 'a', 'l', 's', 'e']
        },
        TokenView::Null => seq!['n', 'u', 'l', 'l'],
        TokenView::LeftBrace => seq!['{'],
        TokenView::RightBrace => seq!['}'],
        TokenView::Colon => seq![':'],
    }
}

/// The text that writes `ts`: each token's characters, and a space behind
/// each.
pub open spec fn tokens_text(ts: Seq<TokenView>) -> Seq<char>
    decreases ts.len(),
{
    if ts.len() == 0 {
        Seq::empty()
    } else {
        token_text(ts[0]) + seq![' '] + tokens_text(ts.drop_first())
    }
}

/// A token that text can write: a string must hold no `"`, since nothing
/// escapes one, and a number must be a numeral.
pub open spec fn writable(t: TokenView) -> bool {
    match t {
        TokenView::Number(n) => n.wf(),
        TokenView::String(s) => forall|i: int| 0 <= i < s.len() ==> s[i] != '"',
        _ => true,
    }
}

/// A numeral starts as a number starts and goes on as a number goes on.
proof fn lemma_numeral_shape(n: NumberView)
    requires
        n.wf(),
    ensures
        n.text().len() >= 1,
        starts_number(n.text()[0]),
        forall|i: int| 1 <= i < n.text().len() ==> continues_number(#[trigger] n.text()[i]),
{
    let text = n.text();
    let sign: Seq<char> = if n.negative { seq!['-'] } else { Seq::empty() };
    let whole = crate::number::digit_chars(n.whole());
    let fraction = crate::number::digit_chars(n.fraction());
    assert forall|i: int| 0 <= i < text.len() implies (i == 0 && n.negative && text[i] == '-')
        || continues_number(#[trigger] text[i]) by {
        let j = i - sign.len();
        if j < 0 {
        } else if j < whole.len() {
            assert(text[i] == whole[j]);
            lemma_digit_char(n.whole()[j]);
        } else if j == whole.len() {
            assert(text[i] == '.');
        } else {
            assert(text[i] == fraction[j - whole.len() - 1]);
            lemma_digit_char(n.fraction()[j - whole.len() - 1]);
        }
    }
}

/// The lexeme at the start of a text that writes a token, a space and
/// more is that token, with all its characters.
pub proof fn lemma_token_read_back(t: TokenView, more: Seq<char>)
    requires
        writable(t),
    ensures
        token_text(t).len() >= 1,
        !is_whitespace(token_text(t)[0]),
        first_lexeme(token_text(t) + seq![' '] + more) == Ok::<_, TokenizerError>(
            Lexeme { token: t, len: token_text(t).len() },
        ),
{
    let text = token_text(t);
    let s = text + seq![' '] + more;
    let tail = s.drop_first();
    match t {
        TokenView::Number(n) => {
            lemma_numeral_shape(n);
            lemma_numeral_reads_back(n);
            assert forall|i: int| 0 <= i < text.len() - 1 implies continues_number(
                #[trigger] tail[i],
            ) by {
                assert(tail[i] == text[i + 1]);
            }
            assert(tail[text.len() - 1] == ' ');
            lemma_prefix_len(tail, |c: char| continues_number(c), (text.len() - 1) as nat);
            assert(s.take(text.len() as int) =~= text);
            assert(s[0] == text[0]);
        },
        TokenView::String(inner) => {
            assert forall|i: int| 0 <= i < inner.len() implies #[trigger] tail[i] != '"' by {
                assert(tail[i] == inner[i]);
            }
            assert(tail[inner.len() as int] == '"');
            lemma_prefix_len(tail, |c: char| c != '"', inner.len());
            assert(s.subrange(1, inner.len() as int + 1) =~= inner);
            assert(s[0] == '"');
        },
        TokenView::Bool(b) => {
            assert(s.take(text.len() as int) =~= text);
            assert(s[0] == text[0]);
        },
        TokenView::Null => {
            assert(s.take(text.len() as int) =~= text);
            assert(s[0] == text[0]);
        },
        _ => {
            assert(s[0] == text[0]);
        },
    }
}

/// Tokenizing the text that writes tokens gives those tokens back.
pub proof fn lemma_tokens_read_back(ts: Seq<TokenView>)
    requires
        forall|i: int| 0 <= i < ts.len() ==> writable(#[trigger] ts[i]),
    ensures
        lex(tokens_text(ts)) == Ok::<_, TokenizerError>(ts),
    decreases ts.len(),
{
    if ts.len() == 0 {
        assert(ts =~= Seq::empty());
    } else {
        let text = token_text(ts[0]);
        let more = tokens_text(ts.drop_first());
        let s = text + seq![' '] + more;
        lemma_token_read_back(ts[0], more);
        lemma_tokens_read_back(ts.drop_first());
        assert(s[0] == text[0]);
        let spaced = s.skip(text.len() as int);
        assert(spaced =~= seq![' '] + more);
        assert(spaced.drop_first() =~= more);
        assert(lex(spaced) == lex(more));
        assert(seq![ts[0]] + ts.drop_first() =~= ts);
    }
}

/// An element that text can write: its strings, keys among them, hold no
/// `"` and its numbers are numerals.
pub open spec fn element_writable(e: ElementView) -> bool
    decreases e,
{
    match e {
        ElementView::String(s) => writable(TokenView::String(s)),
        ElementView::Number(n) => n.wf(),
        ElementView::Boolean(_) => true,
        ElementView::Null => true,
        ElementView::Object(ms) => forall|i: int|
            0 <= i < ms.len() ==> writable(TokenView::String((#[trigger] ms[i]).key))
                && element_writable(ms[i].value),
        ElementView::Array(es) => forall|i: int|
            0 <= i < es.len() ==> element_writable(#[trigger] es[i]),
    }
}

/// The text that writes `e`.
pub open spec fn element_text(e: ElementView, trailing: bool) -> Seq<char> {
    tokens_text(element_tokens(e, trailing))
}

/// Every token of these is writable.
pub open spec fn all_writable(ts: Seq<TokenView>) -> bool {
    forall|i: int| 0 <= i < ts.len() ==> writable(#[trigger] ts[i])
}

proof fn lemma_all_writable_concat(a: Seq<TokenView>, b: Seq<TokenView>)
    requires
        all_writable(a),
        all_writable(b),
    ensures
        all_writable(a + b),
{
    assert forall|i: int| 0 <= i < (a + b).len() implies writable(#[trigger] (a + b)[i]) by {
        if i < a.len() {
            assert((a + b)[i] == a[i]);
        } else {
            assert((a + b)[i] == b[i - a.len()]);
        }
    }
}

/// The tokens that write a writable element are writable.
pub proof fn lemma_element_tokens_writable(e: ElementView, trailing: bool)
    requires
        element_writable(e),
    ensures
        all_writable(element_tokens(e, trailing)),
    decreases e, 0nat,
{
    match e {
        ElementView::Object(ms) => {
            lemma_members_tokens_writable(ms, trailing);
            lemma_all_writable_concat(
                seq![TokenView::LeftBrace],
                members_tokens(ms, trailing),
            );
            lemma_all_writable_concat(
                seq![TokenView::LeftBrace] + members_tokens(ms, trailing),
                seq![TokenView::RightBrace],
            );
        },
        ElementView::Array(es) => {
            lemma_elements_tokens_writable(es, trailing);
            lemma_all_writable_concat(
                seq![TokenView::LeftBracket],
                elements_tokens(es, trailing),
            );
            lemma_all_writable_concat(
                seq![TokenView::LeftBracket] + elements_tokens(es, trailing),
                seq![TokenView::RightBracket],
            );
        },
        _ => {},
    }
}

proof fn lemma_members_tokens_writable(ms: Seq<MemberView>, trailing: bool)
    requires
        forall|i: int|
            0 <= i < ms.len() ==> writable(TokenView::String((#[trigger] ms[i]).key))
                && element_writable(ms[i].value),
    ensures
        all_writable(members_tokens(ms, trailing)),
    decreases ms, 1nat,
{
    if ms.len() > 0 {
        let tail = ms.drop_first();
        assert forall|i: int| 0 <= i < tail.len() implies writable(
            TokenView::String((#[trigger] tail[i]).key),
        ) && element_writable(tail[i].value) by {
            assert(tail[i] == ms[i + 1]);
        }
        lemma_element_tokens_writable(ms[0].value, trailing);
        lemma_members_tokens_writable(tail, trailing);
        let head = seq![TokenView::String(ms[0].key), TokenView::Colon];
        lemma_all_writable_concat(head, element_tokens(ms[0].value, trailing));
        lemma_all_writable_concat(
            member_tokens(ms[0], trailing),
            comma_if(ms.len() > 1, trailing),
        );
        lemma_all_writable_concat(
            member_tokens(ms[0], trailing) + comma_if(ms.len() > 1, trailing),
            members_tokens(tail, trailing),
        );
    }
}

proof fn lemma_elements_tokens_writable(es: Seq<ElementView>, trailing: bool)
    requires
        forall|i: int| 0 <= i < es.len() ==> element_writable(#[trigger] es[i]),
    ensures
        all_writable(elements_tokens(es, trailing)),
    decreases es, 1nat,
{
    if es.len() > 0 {
        let tail = es.drop_first();
        assert forall|i: int| 0 <= i < tail.len() implies element_writable(#[trigger] tail[i]) by {
            assert(tail[i] == es[i + 1]);
        }
        lemma_element_tokens_writable(es[0], trailing);
        lemma_elements_tokens_writable(tail, trailing);
        lemma_all_writable_concat(
            element_tokens(es[0], trailing),
            comma_if(es.len() > 1, trailing),
        );
        lemma_all_writable_concat(
            element_tokens(es[0], trailing) + comma_if(es.len() > 1, trailing),
            elements_tokens(tail, trailing),
        );
    }
}

/// Text that writes an element gives that element back: tokenizing it
/// gives the element's tokens, and parsing those gives the element, with
/// no token left over.
pub proof fn lemma_text_reads_back(e: ElementView, trailing: bool)
    requires
        element_writable(e),
    ensures
        lex(element_text(e, trailing)) == Ok::<_, TokenizerError>(element_tokens(e, trailing)),
        element(element_tokens(e, trailing)) == Ok::<_, ParseErrorView>(
            Parsed { value: e, rest: Seq::empty() },
        ),
{
    lemma_element_tokens_writable(e, trailing);
    lemma_tokens_read_back(element_tokens(e, trailing));
    lemma_element_read_back(e, trailing, Seq::empty());
    assert(element_tokens(e, trailing) + Seq::empty() =~= element_tokens(e, trailing));
}

/// A comma behind the last item of an object or an array changes nothing:
/// what is written with trailing commas reads as what is written without.
pub proof fn lemma_trailing_comma(e: ElementView, rest: Seq<TokenView>)
    ensures
        element(element_tokens(e, true) + rest) == element(element_tokens(e, false) + rest),
{
    lemma_element_read_back(e, true, rest);
    lemma_element_read_back(e, false, rest);
}

} // verus!
