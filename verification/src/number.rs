use crate::text::{lemma_prefix_len, prefix_len};
use vstd::prelude::*;

verus! {

/// A decimal numeral: a sign, the digits as they were written (those of the
/// integer part, then those of the fraction), and how many of them belong to
/// the fraction. It denotes the number `± mantissa / 10^scale`, exactly: no
/// digit is rounded away.
#[derive(Debug, PartialEq)]
pub struct Number {
    negative: bool,
    digits: Vec<u8>,
    scale: usize,
}

/// The mathematical content of a [`Number`].
pub ghost struct NumberView {
    pub negative: bool,
    pub digits: Seq<u8>,
    pub scale: nat,
}

impl View for Number {
    type V = NumberView;

    closed spec fn view(&self) -> NumberView {
        NumberView { negative: self.negative, digits: self.digits@, scale: self.scale as nat }
    }
}

/// The natural number that `digits` write in base ten.
pub open spec fn decimal(digits: Seq<u8>) -> nat
    decreases digits.len(),
{
    if digits.len() == 0 {
        0
    } else {
        decimal(digits.drop_last()) * 10 + digits.last() as nat
    }
}

/// The character that writes a digit.
pub open spec fn digit_char(d: u8) -> char {
    (d + '0' as u8) as char
}

/// The characters that write `digits`, one for each.
pub open spec fn digit_chars(digits: Seq<u8>) -> Seq<char> {
    Seq::new(digits.len(), |i: int| digit_char(digits[i]))
}

impl NumberView {
    /// There is at least one digit, each digit is below ten, and the fraction
    /// is made of digits that are there.
    pub open spec fn wf(self) -> bool {
        &&& self.digits.len() >= 1
        &&& self.scale <= self.digits.len()
        &&& forall|i: int| 0 <= i < self.digits.len() ==> #[trigger] self.digits[i] < 10
    }

    /// All the digits read as one natural number: the numeral denotes this
    /// number divided by ten to the power `scale`, negated if `negative`.
    pub open spec fn mantissa(self) -> nat {
        decimal(self.digits)
    }

    /// The digits of the integer part.
    pub open spec fn whole(self) -> Seq<u8> {
        self.digits.take(self.digits.len() - self.scale)
    }

    /// The digits of the fraction.
    pub open spec fn fraction(self) -> Seq<u8> {
        self.digits.skip(self.digits.len() - self.scale)
    }

    /// The numeral written out: `-` if it is negative, the digits of the
    /// integer part and, if there is a fraction, `.` and its digits.
    pub open spec fn text(self) -> Seq<char> {
        let sign = if self.negative {
            seq!['-']
        } else {
            Seq::empty()
        };
        let fraction = if self.scale > 0 {
            seq!['.'] + digit_chars(self.fraction())
        } else {
            Seq::empty()
        };
        sign + digit_chars(self.whole()) + fraction
    }
}

/// One of the ten characters `0` to `9`.
pub open spec fn is_digit(c: char) -> bool {
    '0' <= c && c <= '9'
}

/// `+` or `-`.
pub open spec fn is_sign(c: char) -> bool {
    c == '+' || c == '-'
}

/// The value of a decimal digit character.
pub open spec fn digit_value(c: char) -> u8 {
    (c as u32 - '0' as u32) as u8
}

/// The values of the digit characters of `s`, one for each.
pub open spec fn digit_values(s: Seq<char>) -> Seq<u8> {
    Seq::new(s.len(), |i: int| digit_value(s[i]))
}

/// The numeral that `text` writes, if it writes one: an optional sign, then
/// digits with at most one `.` among them, and at least one digit in all.
pub open spec fn number_of_text(text: Seq<char>) -> Option<NumberView> {
    let signed = text.len() > 0 && is_sign(text[0]);
    let negative = signed && text[0] == '-';
    let body = if signed { text.drop_first() } else { text };
    let k = prefix_len(body, |c: char| is_digit(c)) as int;
    let whole = body.take(k);
    if k == body.len() {
        if k >= 1 {
            Some(NumberView { negative, digits: digit_values(whole), scale: 0 })
        } else {
            None
        }
    } else {
        let fraction = body.skip(k + 1);
        if body[k] == '.' && prefix_len(fraction, |c: char| is_digit(c)) == fraction.len() && k
            + fraction.len() >= 1 {
            Some(
                NumberView {
                    negative,
                    digits: digit_values(whole + fraction),
                    scale: fraction.len(),
                },
            )
        } else {
            None
        }
    }
}

fn is_digit_char(c: char) -> (b: bool)
    ensures
        b == is_digit(c),
{
    '0' <= c && c <= '9'
}

fn digit_of(c: char) -> (d: u8)
    requires
        is_digit(c),
    ensures
        d == digit_value(c),
        d < 10,
{
    ((c as u32) - ('0' as u32)) as u8
}

impl Clone for Number {
    fn clone(&self) -> (copy: Self)
        ensures
            copy@ == self@,
    {
        proof {
            use_type_invariant(self);
        }
        let digits = self.digits.clone();
        assert(digits@ =~= self.digits@);
        Number { negative: self.negative, digits, scale: self.scale }
    }
}

fn char_of(d: u8) -> (c: char)
    requires
        d < 10,
    ensures
        c == digit_char(d),
{
    (d + 48u8) as char
}

impl Number {
    #[verifier::type_invariant]
    spec fn well_formed(self) -> bool {
        self@.wf()
    }

    /// Whether a `-` was written in front.
    pub fn is_negative(&self) -> (negative: bool)
        ensures
            negative == self@.negative,
    {
        self.negative
    }

    /// The digits, those of the integer part first.
    pub fn digits(&self) -> (digits: &Vec<u8>)
        ensures
            digits@ == self@.digits,
            self@.wf(),
    {
        proof {
            use_type_invariant(self);
        }
        &self.digits
    }

    /// How many of the digits belong to the fraction.
    pub fn scale(&self) -> (scale: usize)
        ensures
            scale == self@.scale,
            scale <= self@.digits.len(),
    {
        proof {
            use_type_invariant(self);
        }
        self.scale
    }

    /// Writes the numeral out.
    pub fn to_text(&self) -> (text: String)
        ensures
            self@.wf(),
            text@ == self@.text(),
    {
        proof {
            use_type_invariant(self);
        }
        let n: usize = self.digits.len();
        let point: usize = n - self.scale;
        let mut text = String::new();
        if self.negative {
            text.push('-');
        }
        let ghost sign = text@;
        let mut i: usize = 0;
        while i < point
            invariant
                self@.wf(),
                point <= self.digits@.len(),
                i <= point,
                text@ == sign + digit_chars(self.digits@.take(i as int)),
            decreases point - i,
        {
            text.push(char_of(self.digits[i]));
            i += 1;
            assert(text@ =~= sign + digit_chars(self.digits@.take(i as int)));
        }
        if point < n {
            text.push('.');
            let ghost whole = text@;
            while i < n
                invariant
                    self@.wf(),
                    n == self.digits@.len(),
                    point <= i <= n,
                    text@ == whole + digit_chars(self.digits@.subrange(point as int, i as int)),
                decreases n - i,
            {
                text.push(char_of(self.digits[i]));
                i += 1;
                assert(text@ =~= whole + digit_chars(
                    self.digits@.subrange(point as int, i as int),
                ));
            }
            assert(text@ =~= self@.text());
        } else {
            assert(text@ =~= self@.text());
        }
        text
    }

    /// Reads the numeral that `text` writes. `None` where `text` writes none.
    pub fn from_chars(text: &[char]) -> (r: Option<Number>)
        ensures
            match number_of_text(text@) {
                Some(n) => r is Some && r->0@ == n && n.wf(),
                None => r is None,
            },
    {
        let n: usize = text.len();
        let mut negative = false;
        let mut start: usize = 0;
        if n > 0 && (text[0] == '+' || text[0] == '-') {
            negative = text[0] == '-';
            start = 1;
        }
        let ghost body = text@.skip(start as int);
        let ghost accept = |c: char| is_digit(c);
        let mut digits: Vec<u8> = Vec::new();
        let mut i: usize = start;
        while i < n && is_digit_char(text[i])
            invariant
                n == text@.len(),
                start <= i <= n,
                forall|j: int| start <= j < i ==> is_digit(#[trigger] text@[j]),
                digits@ =~= digit_values(text@.subrange(start as int, i as int)),
            decreases n - i,
        {
            digits.push(digit_of(text[i]));
            i += 1;
        }
        let ghost k = (i - start) as nat;
        proof {
            assert forall|j: int| 0 <= j < k implies accept(#[trigger] body[j]) by {
                assert(body[j] == text@[start + j]);
            }
            lemma_prefix_len(body, accept, k);
            assert(body =~= if start == 1 { text@.drop_first() } else { text@ });
            assert(body.take(k as int) =~= text@.subrange(start as int, i as int));
        }
        let mut scale: usize = 0;
        if i < n {
            if text[i] != '.' {
                return None;
            }
            i += 1;
            let first: usize = i;
            let ghost fraction = text@.skip(first as int);
            let ghost whole = digits@;
            while i < n && is_digit_char(text[i])
                invariant
                    n == text@.len(),
                    first <= i <= n,
                    scale == i - first,
                    forall|j: int| first <= j < i ==> is_digit(#[trigger] text@[j]),
                    digits@ =~= whole + digit_values(text@.subrange(first as int, i as int)),
                decreases n - i,
            {
                digits.push(digit_of(text[i]));
                scale += 1;
                i += 1;
            }
            proof {
                assert(fraction =~= body.skip(k as int + 1));
                assert forall|j: int| 0 <= j < scale implies accept(#[trigger] fraction[j]) by {
                    assert(fraction[j] == text@[first + j]);
                }
                lemma_prefix_len(fraction, accept, scale as nat);
            }
            if i < n {
                return None;
            }
            proof {
                assert(text@.subrange(first as int, i as int) =~= fraction);
                assert(digits@ =~= digit_values(body.take(k as int) + fraction));
            }
        }
        if digits.len() == 0 {
            return None;
        }
        Some(Number { negative, digits, scale })
    }
}

/// The character that writes a digit is a digit character, and its value
/// is that digit.
pub proof fn lemma_digit_char(d: u8)
    requires
        d < 10,
    ensures
        is_digit(digit_char(d)),
        digit_value(digit_char(d)) == d,
{
}

/// The characters that write digits are digit characters all through, and
/// their values are those digits.
pub proof fn lemma_digit_chars(digits: Seq<u8>)
    requires
        forall|i: int| 0 <= i < digits.len() ==> #[trigger] digits[i] < 10,
    ensures
        digit_values(digit_chars(digits)) == digits,
        prefix_len(digit_chars(digits), |c: char| is_digit(c)) == digits.len(),
{
    let chars = digit_chars(digits);
    assert forall|i: int| 0 <= i < chars.len() implies is_digit(#[trigger] chars[i])
        && digit_value(chars[i]) == digits[i] by {
        lemma_digit_char(digits[i]);
    }
    assert(digit_values(chars) =~= digits);
    lemma_prefix_len(chars, |c: char| is_digit(c), digits.len());
}

/// What text writes is a numeral: it has a digit, digits below ten only,
/// and no longer a fraction than it has digits.
pub proof fn lemma_numeral_wf(text: Seq<char>)
    ensures
        number_of_text(text) matches Some(n) ==> n.wf(),
{
    let signed = text.len() > 0 && is_sign(text[0]);
    let body = if signed { text.drop_first() } else { text };
    let accept = |c: char| is_digit(c);
    let k = prefix_len(body, accept) as int;
    crate::text::lemma_prefix_len_bounds(body, accept);
    if k < body.len() {
        crate::text::lemma_prefix_len_bounds(body.skip(k + 1), accept);
    }
}

/// A numeral that is written out reads back as itself.
pub proof fn lemma_numeral_reads_back(n: NumberView)
    requires
        n.wf(),
    ensures
        number_of_text(n.text()) == Some(n),
{
    let text = n.text();
    let whole = digit_chars(n.whole());
    let fraction = digit_chars(n.fraction());
    let body = if n.scale > 0 {
        whole + (seq!['.'] + fraction)
    } else {
        whole
    };
    let accept = |c: char| is_digit(c);
    lemma_digit_chars(n.whole());
    lemma_digit_chars(n.fraction());
    assert(n.whole() + n.fraction() =~= n.digits);
    assert forall|i: int| 0 <= i < whole.len() implies accept(#[trigger] body[i]) by {
        assert(body[i] == whole[i]);
        lemma_digit_char(n.whole()[i]);
    }
    lemma_prefix_len(body, accept, whole.len());
    assert(body.take(whole.len() as int) =~= whole);
    if n.scale > 0 {
        assert(body.skip(whole.len() as int + 1) =~= fraction);
        assert(digit_values(whole + fraction) =~= digit_values(whole) + digit_values(fraction));
    }
    if body.len() > 0 && whole.len() > 0 {
        lemma_digit_char(n.whole()[0]);
        assert(body[0] == whole[0]);
    }
    if n.negative {
        assert(text =~= seq!['-'] + body);
        assert(text.drop_first() =~= body);
    } else {
        assert(text =~= body);
    }
}

} // verus!
