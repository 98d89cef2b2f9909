use crate::parser::{ElementView, MemberView, ParseErrorView};
use crate::tokenizer::TokenView;
use vstd::prelude::*;

verus! {

/// What was read from the front of a token sequence, and the tokens that
/// follow it.
pub ghost struct Parsed<T> {
    pub value: T,
    pub rest: Seq<TokenView>,
}

/// Puts `done` in front of the items of `more`.
pub open spec fn prepend<T>(done: Seq<T>, more: Result<Parsed<Seq<T>>, ParseErrorView>) -> Result<
    Parsed<Seq<T>>,
    ParseErrorView,
> {
    match more {
        Ok(p) => Ok(Parsed { value: done + p.value, rest: p.rest }),
        Err(e) => Err(e),
    }
}

/// The tokens without a comma that they may start with.
pub open spec fn after_comma(ts: Seq<TokenView>) -> Seq<TokenView> {
    if ts.len() > 0 && ts[0] is Comma {
        ts.drop_first()
    } else {
        ts
    }
}

/// The element at the front of `ts`.
///
/// A string, a number, a boolean or null is one token. `{` opens an
/// object and `[` an array. No other token starts an element.
pub open spec fn element(ts: Seq<TokenView>) -> Result<Parsed<ElementView>, ParseErrorView>
    decreases ts.len(), 0nat,
{
    if ts.len() == 0 {
        Err(ParseErrorView::UnexpectedEof)
    } else {
        let rest = ts.drop_first();
        match ts[0] {
            TokenView::String(s) => Ok(Parsed { value: ElementView::String(s), rest }),
            TokenView::Number(n) => Ok(Parsed { value: ElementView::Number(n), rest }),
            TokenView::Bool(b) => Ok(Parsed { value: ElementView::Boolean(b), rest }),
            TokenView::Null => Ok(Parsed { value: ElementView::Null, rest }),
            TokenView::LeftBrace => object(rest),
            TokenView::LeftBracket => array(rest),
            other => Err(ParseErrorView::UnexpectedToken(other)),
        }
    }
}

/// The object whose `{` has been read: its members, then `}`.
///
/// Where the members stop and the tokens have ended, the `}` is missing.
/// (They stop nowhere else but at a `}`: see `lemma_items_stop`.)
pub open spec fn object(ts: Seq<TokenView>) -> Result<Parsed<ElementView>, ParseErrorView>
    decreases ts.len(), 3nat,
{
    match members(ts) {
        Ok(p) => if p.rest.len() == 0 {
            Err(ParseErrorView::UnexpectedEof)
        } else if p.rest[0] is RightBrace {
            Ok(Parsed { value: ElementView::Object(p.value), rest: p.rest.drop_first() })
        } else {
            Err(ParseErrorView::ParseError)
        },
        Err(e) => Err(e),
    }
}

/// The members of an object, up to its `}` or to the end of the tokens.
///
/// Before each member, and before the `}`, one comma may stand, and is
/// passed over: so a comma may trail the last member, lead the first, or be
/// left out between two. The comparison of lengths is there to show that
/// the definition ends; it always holds (see `lemma_progress`).
pub open spec fn members(ts: Seq<TokenView>) -> Result<Parsed<Seq<MemberView>>, ParseErrorView>
    decreases ts.len(), 2nat,
{
    let next = after_comma(ts);
    if ts.len() == 0 {
        Ok(Parsed { value: Seq::empty(), rest: ts })
    } else if next.len() == 0 {
        Err(ParseErrorView::UnexpectedEof)
    } else if next[0] is RightBrace {
        Ok(Parsed { value: Seq::empty(), rest: next })
    } else {
        match member(next) {
            Ok(p) => if p.rest.len() < ts.len() {
                prepend(seq![p.value], members(p.rest))
            } else {
                Err(ParseErrorView::ParseError)
            },
            Err(e) => Err(e),
        }
    }
}

/// One member: a string, which is the key, a colon, and an element.
///
/// Another token in place of the key or of the colon is a `ParseError`; the
/// end of the tokens in their place is an `UnexpectedEof`.
pub open spec fn member(ts: Seq<TokenView>) -> Result<Parsed<MemberView>, ParseErrorView>
    decreases ts.len(), 1nat,
{
    if ts.len() == 0 {
        Err(ParseErrorView::UnexpectedEof)
    } else if ts[0] is String {
        if ts.len() == 1 {
            Err(ParseErrorView::UnexpectedEof)
        } else if ts[1] is Colon {
            match element(ts.skip(2)) {
                Ok(p) => Ok(
                    Parsed {
                        value: MemberView { key: ts[0]->String_0, value: p.value },
                        rest: p.rest,
                    },
                ),
                Err(e) => Err(e),
            }
        } else {
            Err(ParseErrorView::ParseError)
        }
    } else {
        Err(ParseErrorView::ParseError)
    }
}

/// The array whose `[` has been read: its elements, then `]`.
///
/// Where the elements stop and the tokens have ended, the `]` is missing.
/// (They stop nowhere else but at a `]`: see `lemma_items_stop`.)
pub open spec fn array(ts: Seq<TokenView>) -> Result<Parsed<ElementView>, ParseErrorView>
    decreases ts.len(), 3nat,
{
    match elements(ts) {
        Ok(p) => if p.rest.len() == 0 {
            Err(ParseErrorView::UnexpectedEof)
        } else if p.rest[0] is RightBracket {
            Ok(Parsed { value: ElementView::Array(p.value), rest: p.rest.drop_first() })
        } else {
            Err(ParseErrorView::ParseError)
        },
        Err(e) => Err(e),
    }
}

/// The elements of an array, up to its `]` or to the end of the tokens.
///
/// Before each element, and before the `]`, one comma may stand, and is
/// passed over: so a comma may trail the last element, lead the first, or
/// be left out between two. The comparison of lengths is there to show
/// that the definition ends; it always holds (see `lemma_progress`).
pub open spec fn elements(ts: Seq<TokenView>) -> Result<Parsed<Seq<ElementView>>, ParseErrorView>
    decreases ts.len(), 2nat,
{
    let next = after_comma(ts);
    if ts.len() == 0 {
        Ok(Parsed { value: Seq::empty(), rest: ts })
    } else if next.len() == 0 {
        Err(ParseErrorView::UnexpectedEof)
    } else if next[0] is RightBracket {
        Ok(Parsed { value: Seq::empty(), rest: next })
    } else {
        match element(next) {
            Ok(p) => if p.rest.len() < ts.len() {
                prepend(seq![p.value], elements(p.rest))
            } else {
                Err(ParseErrorView::ParseError)
            },
            Err(e) => Err(e),
        }
    }
}

/// Reading never adds tokens, and an element or a member takes at least
/// one: so the comparisons of lengths in `members` and `elements` always
/// hold, and neither ever fails for want of them.
pub proof fn lemma_progress(ts: Seq<TokenView>)
    ensures
        element(ts) matches Ok(p) ==> p.rest.len() < ts.len(),
        member(ts) matches Ok(p) ==> p.rest.len() < ts.len(),
        members(ts) matches Ok(p) ==> p.rest.len() <= ts.len(),
        elements(ts) matches Ok(p) ==> p.rest.len() <= ts.len(),
        object(ts) matches Ok(p) ==> p.rest.len() <= ts.len(),
        array(ts) matches Ok(p) ==> p.rest.len() <= ts.len(),
    decreases ts.len(),
{
    if ts.len() > 0 {
        lemma_progress(ts.drop_first());
        if ts.len() >= 2 {
            lemma_progress(ts.skip(2));
        }
        if ts[0] is Comma && ts.len() >= 3 {
            lemma_progress(ts.skip(1).skip(2));
        }
        let next = after_comma(ts);
        if next.len() > 0 {
            if let Ok(p) = member(next) {
                lemma_progress(p.rest);
            }
            if let Ok(p) = element(next) {
                lemma_progress(p.rest);
            }
        }
    }
}

/// The members of an object stop in front of its `}` or at the end of the
/// tokens, and the elements of an array in front of its `]` or at the end:
/// so an object or an array that is not closed fails with `UnexpectedEof`.
pub proof fn lemma_items_stop(ts: Seq<TokenView>)
    ensures
        members(ts) matches Ok(p) ==> p.rest.len() == 0 || p.rest[0] is RightBrace,
        elements(ts) matches Ok(p) ==> p.rest.len() == 0 || p.rest[0] is RightBracket,
        !(object(ts) matches Err(ParseErrorView::ParseError)) || members(ts) is Err,
        !(array(ts) matches Err(ParseErrorView::ParseError)) || elements(ts) is Err,
    decreases ts.len(),
{
    let next = after_comma(ts);
    if ts.len() > 0 && next.len() > 0 {
        if let Ok(p) = member(next) {
            if p.rest.len() < ts.len() {
                lemma_items_stop(p.rest);
            }
        }
        if let Ok(p) = element(next) {
            if p.rest.len() < ts.len() {
                lemma_items_stop(p.rest);
            }
        }
    }
}

} // verus!
