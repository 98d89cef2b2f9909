use crate::grammar::{
    after_comma, array, element, elements, lemma_progress, member, members, object, prepend,
};
use crate::number::{Number, NumberView};
use crate::tokenizer::{Token, TokenView};
use vstd::prelude::*;

verus! {

/// A key and its value, as an object holds them.
#[derive(Debug, PartialEq, Clone)]
pub struct Member {
    pub key: String,
    pub value: Element,
}

/// The members of an object, in the order in which they were written. A key
/// may occur more than once.
#[derive(Debug, PartialEq, Clone)]
pub struct Object {
    pub members: Vec<Member>,
}

/// The elements of an array, in the order in which they were written.
#[derive(Debug, PartialEq, Clone)]
pub struct Array {
    pub elements: Vec<Element>,
}

/// A value: a leaf, or an object or an array of values.
#[derive(Debug, PartialEq)]
pub enum Element {
    String(String),
    Number(Number),
    Boolean(bool),
    Null,
    Object(Object),
    Array(Array),
}

/// The mathematical content of a [`Member`].
pub ghost struct MemberView {
    pub key: Seq<char>,
    pub value: ElementView,
}

/// The mathematical content of an [`Element`].
pub ghost enum ElementView {
    String(Seq<char>),
    Number(NumberView),
    Boolean(bool),
    Null,
    Object(Seq<MemberView>),
    Array(Seq<ElementView>),
}

/// The mathematical content of an element: its own and, for an object or an
/// array, that of what it holds, in order.
pub open spec fn element_view(e: Element) -> ElementView
    decreases e,
{
    match e {
        Element::String(s) => ElementView::String(s@),
        Element::Number(n) => ElementView::Number(n@),
        Element::Boolean(b) => ElementView::Boolean(b),
        Element::Null => ElementView::Null,
        Element::Object(o) => ElementView::Object(
            Seq::new(
                o.members@.len(),
                |i: int|
                    if 0 <= i < o.members@.len() {
                        MemberView {
                            key: o.members@[i].key@,
                            value: element_view(o.members@[i].value),
                        }
                    } else {
                        MemberView { key: Seq::empty(), value: ElementView::Null }
                    },
            ),
        ),
        Element::Array(a) => ElementView::Array(
            Seq::new(
                a.elements@.len(),
                |i: int|
                    if 0 <= i < a.elements@.len() {
                        element_view(a.elements@[i])
                    } else {
                        ElementView::Null
                    },
            ),
        ),
    }
}

impl View for Element {
    type V = ElementView;

    open spec fn view(&self) -> ElementView {
        element_view(*self)
    }
}

impl View for Member {
    type V = MemberView;

    open spec fn view(&self) -> MemberView {
        MemberView { key: self.key@, value: self.value@ }
    }
}

impl DeepView for Member {
    type V = MemberView;

    open spec fn deep_view(&self) -> MemberView {
        self@
    }
}

impl DeepView for Element {
    type V = ElementView;

    open spec fn deep_view(&self) -> ElementView {
        self@
    }
}

/// An object's view holds the views of its members, in order.
pub proof fn lemma_object_view(o: Object)
    ensures
        Element::Object(o)@ == ElementView::Object(o.members.deep_view()),
{
    let e = Element::Object(o);
    assert(e@ is Object);
    assert(e@->Object_0.len() == o.members@.len());
    assert(e@->Object_0 =~= o.members.deep_view());
}

/// An array's view holds the views of its elements, in order.
pub proof fn lemma_array_view(a: Array)
    ensures
        Element::Array(a)@ == ElementView::Array(a.elements.deep_view()),
{
    let e = Element::Array(a);
    assert(e@ is Array);
    assert(e@->Array_0 =~= a.elements.deep_view());
}

impl Clone for Element {
    fn clone(&self) -> (copy: Self)
        ensures
            copy@ == self@,
        decreases self,
    {
        match self {
            Element::String(s) => Element::String(s.clone()),
            Element::Number(n) => Element::Number(n.clone()),
            Element::Boolean(b) => Element::Boolean(*b),
            Element::Null => Element::Null,
            Element::Object(o) => {
                let mut members: Vec<Member> = Vec::new();
                let mut i: usize = 0;
                while i < o.members.len()
                    invariant
                        *self == Element::Object(*o),
                        i <= o.members@.len(),
                        members@.len() == i,
                        forall|j: int| 0 <= j < i ==> members@[j]@ == o.members@[j]@,
                    decreases o.members@.len() - i,
                {
                    let member = &o.members[i];
                    assert(decreases_to!(*self => self->Object_0));
                    members.push(Member { key: member.key.clone(), value: member.value.clone() });
                    i += 1;
                }
                let object = Object { members };
                proof {
                    lemma_object_view(object);
                    lemma_object_view(*o);
                    assert(object.members.deep_view() =~= o.members.deep_view());
                }
                Element::Object(object)
            },
            Element::Array(a) => {
                let mut elements: Vec<Element> = Vec::new();
                let mut i: usize = 0;
                while i < a.elements.len()
                    invariant
                        *self == Element::Array(*a),
                        i <= a.elements@.len(),
                        elements@.len() == i,
                        forall|j: int| 0 <= j < i ==> elements@[j]@ == a.elements@[j]@,
                    decreases a.elements@.len() - i,
                {
                    assert(decreases_to!(*self => self->Array_0));
                    elements.push(a.elements[i].clone());
                    i += 1;
                }
                let array = Array { elements };
                proof {
                    lemma_array_view(array);
                    lemma_array_view(*a);
                    assert(array.elements.deep_view() =~= a.elements.deep_view());
                }
                Element::Array(array)
            },
        }
    }
}

#[derive(Debug, PartialEq)]
pub enum ParseError {
    /// A token that starts no element stands where an element must start.
    UnexpectedToken(Token),
    /// The tokens end where one more is needed.
    UnexpectedEof,
    /// A member does not start with a string, or no colon follows its key.
    ParseError,
}

/// The mathematical content of a [`ParseError`].
pub ghost enum ParseErrorView {
    UnexpectedToken(TokenView),
    UnexpectedEof,
    ParseError,
}

impl View for ParseError {
    type V = ParseErrorView;

    open spec fn view(&self) -> ParseErrorView {
        match self {
            ParseError::UnexpectedToken(t) => ParseErrorView::UnexpectedToken(t@),
            ParseError::UnexpectedEof => ParseErrorView::UnexpectedEof,
            ParseError::ParseError => ParseErrorView::ParseError,
        }
    }
}

/// A cursor over tokens, which hands each token out once.
pub struct Parser {
    /// The tokens that have not been read, the next one last.
    stack: Vec<Token>,
}

/// Taking the last token off the stack takes the first off what remains.
proof fn lemma_stack_pop(stack: Vec<Token>, popped: Vec<Token>)
    requires
        stack@.len() > 0,
        popped@ == stack@.drop_last(),
    ensures
        popped.deep_view().reverse() == stack.deep_view().reverse().drop_first(),
        stack.deep_view().reverse()[0] == stack@.last()@,
{
    assert(popped.deep_view().reverse() =~= stack.deep_view().reverse().drop_first());
}

impl Parser {
    /// The tokens that have not been read yet, the next one first.
    pub closed spec fn remaining(&self) -> Seq<TokenView> {
        self.stack.deep_view().reverse()
    }

    /// A parser that will read `tokens`, the first of them first.
    pub fn new(tokens: Vec<Token>) -> (p: Self)
        ensures
            p.remaining() == tokens.deep_view(),
    {
        let ghost given = tokens@;
        let ghost given_views = tokens.deep_view();
        let mut tokens = tokens;
        let mut stack: Vec<Token> = Vec::new();
        loop
            invariant
                tokens@.len() + stack@.len() == given.len(),
                tokens@ == given.take(tokens@.len() as int),
                forall|j: int| 0 <= j < stack@.len() ==> stack@[j] == given[given.len() - 1 - j],
            ensures
                stack@.len() == given.len(),
            decreases tokens@.len(),
        {
            match tokens.pop() {
                Some(token) => {
                    stack.push(token);
                    proof {
                        assert(tokens@ =~= given.take(tokens@.len() as int));
                    }
                },
                None => {
                    break ;
                },
            }
        }
        proof {
            assert(stack.deep_view().reverse() =~= given_views);
        }
        Parser { stack }
    }

    /// Reads the next token.
    fn next(&mut self) -> (t: Option<Token>)
        ensures
            match t {
                Some(token) => old(self).remaining().len() > 0 && token@ == old(self).remaining()[0]
                    && final(self).remaining() == old(self).remaining().drop_first(),
                None => old(self).remaining().len() == 0 && final(self).remaining() == old(
                    self,
                ).remaining(),
            },
    {
        let t = self.stack.pop();
        proof {
            if old(self).stack@.len() > 0 {
                lemma_stack_pop(old(self).stack, self.stack);
            }
        }
        t
    }

    /// The next token, which stays unread.
    fn peek(&self) -> (t: Option<&Token>)
        ensures
            match t {
                Some(token) => self.remaining().len() > 0 && token@ == self.remaining()[0],
                None => self.remaining().len() == 0,
            },
    {
        let n: usize = self.stack.len();
        if n > 0 {
            proof {
                assert(self.stack.deep_view().reverse()[0] == self.stack@.last()@);
            }
            Some(&self.stack[n - 1])
        } else {
            None
        }
    }
}

impl Parser {
    /// Reads one element from the front of the tokens. Tokens that follow
    /// it stay unread. Where no element stands there, the first fault found
    /// is the error, and the tokens read up to it are gone.
    pub fn parse(&mut self) -> (r: Result<Element, ParseError>)
        ensures
            match element(old(self).remaining()) {
                Ok(p) => r is Ok && r->Ok_0@ == p.value && final(self).remaining() == p.rest,
                Err(e) => r is Err && r->Err_0@ == e,
            },
            final(self).remaining().is_suffix_of(old(self).remaining()),
            final(self).remaining().is_suffix_of(old(self).remaining()),
    {
        self.parse_element()
    }

    fn parse_element(&mut self) -> (r: Result<Element, ParseError>)
        ensures
            match element(old(self).remaining()) {
                Ok(p) => r is Ok && r->Ok_0@ == p.value && final(self).remaining() == p.rest,
                Err(e) => r is Err && r->Err_0@ == e,
            },
            final(self).remaining().is_suffix_of(old(self).remaining()),
            final(self).remaining().is_suffix_of(old(self).remaining()),
        decreases old(self).remaining().len(), 0nat,
    {
        match self.next() {
            Some(token) => match token {
                Token::String(val) => Ok(Element::String(val)),
                Token::Number(val) => Ok(Element::Number(val)),
                Token::Bool(val) => Ok(Element::Boolean(val)),
                Token::Null => Ok(Element::Null),
                Token::LeftBrace => self.parse_object(),
                Token::LeftBracket => self.parse_array(),
                other => Err(ParseError::UnexpectedToken(other)),
            },
            None => Err(ParseError::UnexpectedEof),
        }
    }

    fn parse_object(&mut self) -> (r: Result<Element, ParseError>)
        ensures
            match object(old(self).remaining()) {
                Ok(p) => r is Ok && r->Ok_0@ == p.value && final(self).remaining() == p.rest,
                Err(e) => r is Err && r->Err_0@ == e,
            },
            final(self).remaining().is_suffix_of(old(self).remaining()),
        decreases old(self).remaining().len(), 3nat,
    {
        let members = match self.parse_members() {
            Ok(members) => members,
            Err(e) => {
                return Err(e);
            },
        };
        let object = Object { members };
        proof {
            lemma_object_view(object);
        }
        let node = Element::Object(object);
        match self.next() {
            Some(Token::RightBrace) => Ok(node),
            Some(_) => Err(ParseError::ParseError),
            None => Err(ParseError::UnexpectedEof),
        }
    }

    fn parse_members(&mut self) -> (r: Result<Vec<Member>, ParseError>)
        ensures
            match members(old(self).remaining()) {
                Ok(p) => r is Ok && r->Ok_0.deep_view() == p.value && final(self).remaining()
                    == p.rest,
                Err(e) => r is Err && r->Err_0@ == e,
            },
            final(self).remaining().is_suffix_of(old(self).remaining()),
        decreases old(self).remaining().len(), 2nat,
    {
        let mut items: Vec<Member> = Vec::new();
        loop
            invariant
                self.remaining().is_suffix_of(old(self).remaining()),
                members(old(self).remaining()) == prepend(
                    items.deep_view(),
                    members(self.remaining()),
                ),
            decreases self.remaining().len(),
        {
            let ghost ts = self.remaining();
            let ghost done = items.deep_view();
            let comma = match self.peek() {
                Some(Token::Comma) => true,
                Some(_) => false,
                None => {
                    proof {
                        assert(done + Seq::<MemberView>::empty() =~= done);
                    }
                    return Ok(items);
                },
            };
            if comma {
                self.next();
            }
            match self.peek() {
                Some(Token::RightBrace) => {
                    proof {
                        assert(done + Seq::<MemberView>::empty() =~= done);
                    }
                    return Ok(items);
                },
                Some(_) => {},
                None => {
                    return Err(ParseError::UnexpectedEof);
                },
            }
            proof {
                lemma_progress(after_comma(ts));
            }
            match self.parse_member() {
                Ok(item) => {
                    items.push(item);
                    proof {
                        assert(items.deep_view() =~= done.push(item@));
                        match members(self.remaining()) {
                            Ok(more) => {
                                assert(done + (seq![item@] + more.value) =~= done.push(item@)
                                    + more.value);
                            },
                            Err(_) => {},
                        }
                    }
                },
                Err(e) => {
                    return Err(e);
                },
            }
        }
    }

    fn parse_member(&mut self) -> (r: Result<Member, ParseError>)
        ensures
            match member(old(self).remaining()) {
                Ok(p) => r is Ok && r->Ok_0@ == p.value && final(self).remaining() == p.rest,
                Err(e) => r is Err && r->Err_0@ == e,
            },
            final(self).remaining().is_suffix_of(old(self).remaining()),
        decreases old(self).remaining().len(), 1nat,
    {
        match self.next() {
            Some(Token::String(key)) => match self.next() {
                Some(Token::Colon) => {
                    proof {
                        assert(self.remaining() =~= old(self).remaining().skip(2));
                    }
                    match self.parse_element() {
                        Ok(value) => Ok(Member { key, value }),
                        Err(e) => Err(e),
                    }
                },
                Some(_) => Err(ParseError::ParseError),
                None => Err(ParseError::UnexpectedEof),
            },
            Some(_) => Err(ParseError::ParseError),
            None => Err(ParseError::UnexpectedEof),
        }
    }

    fn parse_array(&mut self) -> (r: Result<Element, ParseError>)
        ensures
            match array(old(self).remaining()) {
                Ok(p) => r is Ok && r->Ok_0@ == p.value && final(self).remaining() == p.rest,
                Err(e) => r is Err && r->Err_0@ == e,
            },
            final(self).remaining().is_suffix_of(old(self).remaining()),
        decreases old(self).remaining().len(), 3nat,
    {
        let elements = match self.parse_elements() {
            Ok(elements) => elements,
            Err(e) => {
                return Err(e);
            },
        };
        let array = Array { elements };
        proof {
            lemma_array_view(array);
        }
        let node = Element::Array(array);
        match self.next() {
            Some(Token::RightBracket) => Ok(node),
            Some(_) => Err(ParseError::ParseError),
            None => Err(ParseError::UnexpectedEof),
        }
    }

    fn parse_elements(&mut self) -> (r: Result<Vec<Element>, ParseError>)
        ensures
            match elements(old(self).remaining()) {
                Ok(p) => r is Ok && r->Ok_0.deep_view() == p.value && final(self).remaining()
                    == p.rest,
                Err(e) => r is Err && r->Err_0@ == e,
            },
            final(self).remaining().is_suffix_of(old(self).remaining()),
        decreases old(self).remaining().len(), 2nat,
    {
        let mut items: Vec<Element> = Vec::new();
        loop
            invariant
                self.remaining().is_suffix_of(old(self).remaining()),
                elements(old(self).remaining()) == prepend(
                    items.deep_view(),
                    elements(self.remaining()),
                ),
            decreases self.remaining().len(),
        {
            let ghost ts = self.remaining();
            let ghost done = items.deep_view();
            let comma = match self.peek() {
                Some(Token::Comma) => true,
                Some(_) => false,
                None => {
                    proof {
                        assert(done + Seq::<ElementView>::empty() =~= done);
                    }
                    return Ok(items);
                },
            };
            if comma {
                self.next();
            }
            match self.peek() {
                Some(Token::RightBracket) => {
                    proof {
                        assert(done + Seq::<ElementView>::empty() =~= done);
                    }
                    return Ok(items);
                },
                Some(_) => {},
                None => {
                    return Err(ParseError::UnexpectedEof);
                },
            }
            proof {
                lemma_progress(after_comma(ts));
            }
            match self.parse_element() {
                Ok(item) => {
                    items.push(item);
                    proof {
                        assert(items.deep_view() =~= done.push(item@));
                        match elements(self.remaining()) {
                            Ok(more) => {
                                assert(done + (seq![item@] + more.value) =~= done.push(item@)
                                    + more.value);
                            },
                            Err(_) => {},
                        }
                    }
                },
                Err(e) => {
                    return Err(e);
                },
            }
        }
    }
}

} // verus!
