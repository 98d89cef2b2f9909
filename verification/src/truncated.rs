use crate::grammar::{after_comma, element, elements, member, members, Parsed};
use crate::parser::{ElementView, MemberView, ParseErrorView};
use crate::tokenizer::TokenView;
use crate::writing::{
    comma_if, element_tokens, elements_tokens, lemma_element_read_back, lemma_member_read_back,
    member_tokens, members_tokens,
};
use vstd::prelude::*;

verus! {

/// The items of an object or an array were read up to the end of the
/// tokens, or the tokens ended where one more was needed: either way the
/// closing bracket is missing.
pub open spec fn ends_short<T>(r: Result<Parsed<Seq<T>>, ParseErrorView>) -> bool {
    match r {
        Ok(p) => p.rest.len() == 0,
        Err(e) => e is UnexpectedEof,
    }
}

/// Tokens that write an element, cut short anywhere before the last of
/// them, do not read as an element: they fail, and the failure is
/// `UnexpectedEof`.
pub proof fn lemma_element_cut_short(e: ElementView, trailing: bool, n: int)
    requires
        0 <= n < element_tokens(e, trailing).len(),
    ensures
        element(element_tokens(e, trailing).take(n)) == Err::<Parsed<ElementView>, _>(
            ParseErrorView::UnexpectedEof,
        ),
    decreases e, 0nat,
{
    let all = element_tokens(e, trailing);
    let cut = all.take(n);
    if n > 0 {
        match e {
            ElementView::Object(ms) => {
                let inner = members_tokens(ms, trailing);
                assert(cut.drop_first() =~= (comma_if(false, false) + inner).take(n - 1));
                lemma_members_cut_short(ms, trailing, false, n - 1);
            },
            ElementView::Array(es) => {
                let inner = elements_tokens(es, trailing);
                assert(cut.drop_first() =~= (comma_if(false, false) + inner).take(n - 1));
                lemma_elements_cut_short(es, trailing, false, n - 1);
            },
            _ => {},
        }
    }
}

/// Tokens that write a member, cut short, fail with `UnexpectedEof`.
pub proof fn lemma_member_cut_short(m: MemberView, trailing: bool, n: int)
    requires
        0 <= n < member_tokens(m, trailing).len(),
    ensures
        member(member_tokens(m, trailing).take(n)) == Err::<Parsed<MemberView>, _>(
            ParseErrorView::UnexpectedEof,
        ),
    decreases m, 1nat,
{
    let cut = member_tokens(m, trailing).take(n);
    if n >= 2 {
        assert(cut.skip(2) =~= element_tokens(m.value, trailing).take(n - 2));
        lemma_element_cut_short(m.value, trailing, n - 2);
    }
}

/// Tokens that write the members of an object, cut short anywhere, read as
/// members up to where the tokens end, or fail with `UnexpectedEof`.
pub proof fn lemma_members_cut_short(ms: Seq<MemberView>, trailing: bool, comma: bool, n: int)
    requires
        0 <= n <= (comma_if(comma, false) + members_tokens(ms, trailing)).len(),
    ensures
        ends_short(members((comma_if(comma, false) + members_tokens(ms, trailing)).take(n))),
    decreases ms, 2nat,
{
    let body = members_tokens(ms, trailing);
    let cut = (comma_if(comma, false) + body).take(n);
    let skipped: int = if comma { 1 } else { 0 };
    if n > skipped {
        let next = body.take(n - skipped);
        let first = member_tokens(ms[0], trailing);
        let sep = comma_if(ms.len() > 1 || trailing, false);
        let tail = ms.drop_first();
        assert(body == first + comma_if(ms.len() > 1, trailing) + members_tokens(tail, trailing));
        assert(comma_if(ms.len() > 1, trailing) == sep);
        assert(next[0] == first[0]);
        assert(after_comma(cut) =~= next) by {
            if comma {
                assert(cut.drop_first() =~= next);
            } else {
                assert(cut =~= next);
            }
        }
        if n - skipped < first.len() {
            assert(next =~= first.take(n - skipped));
            lemma_member_cut_short(ms[0], trailing, n - skipped);
        } else {
            let left = n - skipped - first.len();
            let after = (sep + members_tokens(tail, trailing)).take(left);
            assert(next =~= first + after);
            lemma_member_read_back(ms[0], trailing, after);
            lemma_members_cut_short(tail, trailing, ms.len() > 1 || trailing, left);
        }
    } else if n > 0 {
        assert(after_comma(cut) =~= Seq::<TokenView>::empty());
    }
}

/// Tokens that write the elements of an array, cut short anywhere, read as
/// elements up to where the tokens end, or fail with `UnexpectedEof`.
pub proof fn lemma_elements_cut_short(es: Seq<ElementView>, trailing: bool, comma: bool, n: int)
    requires
        0 <= n <= (comma_if(comma, false) + elements_tokens(es, trailing)).len(),
    ensures
        ends_short(elements((comma_if(comma, false) + elements_tokens(es, trailing)).take(n))),
    decreases es, 2nat,
{
    let body = elements_tokens(es, trailing);
    let cut = (comma_if(comma, false) + body).take(n);
    let skipped: int = if comma { 1 } else { 0 };
    if n > skipped {
        let next = body.take(n - skipped);
        let first = element_tokens(es[0], trailing);
        let sep = comma_if(es.len() > 1 || trailing, false);
        let tail = es.drop_first();
        assert(body == first + comma_if(es.len() > 1, trailing) + elements_tokens(tail, trailing));
        assert(comma_if(es.len() > 1, trailing) == sep);
        assert(first.len() > 0 && !(first[0] is Comma) && !(first[0] is RightBracket));
        assert(next[0] == first[0]);
        assert(after_comma(cut) =~= next) by {
            if comma {
                assert(cut.drop_first() =~= next);
            } else {
                assert(cut =~= next);
            }
        }
        if n - skipped < first.len() {
            assert(next =~= first.take(n - skipped));
            lemma_element_cut_short(es[0], trailing, n - skipped);
        } else {
            let left = n - skipped - first.len();
            let after = (sep + elements_tokens(tail, trailing)).take(left);
            assert(next =~= first + after);
            lemma_element_read_back(es[0], trailing, after);
            lemma_elements_cut_short(tail, trailing, es.len() > 1 || trailing, left);
        }
    } else if n > 0 {
        assert(after_comma(cut) =~= Seq::<TokenView>::empty());
    }
}

} // verus!
