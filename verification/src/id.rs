//! Validated identifiers: ordinary names start with a letter or ASCII
//! punctuation and exclude the keyword set; constructor names start with an
//! uppercase letter. Also the generator for fresh (synthesized) names.
use vstd::prelude::*;

use crate::location::Location;
use crate::token::Token;

verus! {

/// Whether `c` has the Unicode `Alphabetic` property, a function of the
/// character alone.
pub uninterp spec fn alphabetic(c: char) -> bool;

/// Relies on char::is_alphabetic: true exactly when the character has the
/// Unicode `Alphabetic` property; the ASCII letters are alphabetic and the
/// ASCII digits are not.
#[verifier::external_body]
fn char_is_alphabetic(c: char) -> (r: bool)
    ensures
        r == alphabetic(c),
        (97 <= c as u32 <= 122) || (65 <= c as u32 <= 90) ==> r,
        48 <= c as u32 <= 57 ==> !r,
{
    c.is_alphabetic()
}

/// Whether `c` has the Unicode `Uppercase` property, a function of the
/// character alone.
pub uninterp spec fn uppercase(c: char) -> bool;

/// Relies on char::is_uppercase: true exactly when the character has the
/// Unicode `Uppercase` property; `A` through `Z` are uppercase and `a`
/// through `z` are not.
#[verifier::external_body]
fn char_is_uppercase(c: char) -> (r: bool)
    ensures
        r == uppercase(c),
        65 <= c as u32 <= 90 ==> r,
        97 <= c as u32 <= 122 ==> !r,
{
    c.is_uppercase()
}

/// The ASCII punctuation characters, by code point range.
pub open spec fn ascii_punctuation(c: char) -> bool {
    ||| 33 <= c as u32 <= 47
    ||| 58 <= c as u32 <= 64
    ||| 91 <= c as u32 <= 96
    ||| 123 <= c as u32 <= 126
}

fn char_is_ascii_punctuation(c: char) -> (r: bool)
    ensures
        r == ascii_punctuation(c),
{
    let u = c as u32;
    (33 <= u && u <= 47) || (58 <= u && u <= 64) || (91 <= u && u <= 96) || (123 <= u && u <= 126)
}

fn str_eq(a: &str, b: &str) -> (r: bool)
    ensures
        r == (a@ == b@),
{
    let sa = String::from_str(a);
    let sb = String::from_str(b);
    sa == sb
}

/// The reserved words that an ordinary identifier may not be.
pub open spec fn is_keyword(text: Seq<char>) -> bool {
    ||| text == "<-"@
    ||| text == "->"@
    ||| text == ":"@
    ||| text == ";"@
    ||| text == "else"@
    ||| text == "if"@
    ||| text == "let"@
    ||| text == "match"@
    ||| text == "do"@
    ||| text == "then"@
}

fn text_is_keyword(text: &str) -> (r: bool)
    ensures
        r == is_keyword(text@),
{
    str_eq(text, "<-") || str_eq(text, "->") || str_eq(text, ":") || str_eq(text, ";") || str_eq(
        text,
        "else",
    ) || str_eq(text, "if") || str_eq(text, "let") || str_eq(text, "match") || str_eq(text, "do")
        || str_eq(text, "then")
}

/// The validity rule and diagnostic text of one kind of identifier.
pub trait IdErrorTrait: Sized {
    /// Which texts are acceptable for this kind of identifier.
    spec fn valid_spec(text: Seq<char>) -> bool;

    /// What the diagnostic for a rejected text says.
    spec fn error_text_spec() -> Seq<char>;

    fn is_valid(text: &str) -> (r: bool)
        ensures
            r == Self::valid_spec(text@),
    ;

    fn error_text() -> (r: &'static str)
        ensures
            r@ == Self::error_text_spec(),
    ;
}

/// A validated name plus its source position.
#[derive(Debug, PartialEq, Eq)]
pub struct Id {
    pub token: Token,
}

/// The mathematical mirror of `Id`: the name's characters and its position.
pub struct SpecId {
    pub name: Seq<char>,
    pub location: Location,
}

impl View for Id {
    type V = SpecId;

    open spec fn view(&self) -> SpecId {
        SpecId { name: self.token.text@, location: self.token.location }
    }
}

impl Clone for Id {
    fn clone(&self) -> (r: Self)
        ensures
            r == *self,
    {
        Id { token: self.token.clone() }
    }
}

impl Id {
    /// The text of the identifier.
    pub fn name(&self) -> (r: &str)
        ensures
            r@ == self.token.text@,
    {
        self.token.text.as_str()
    }

    /// Where the identifier stood in the source.
    pub fn location(&self) -> (r: Location)
        ensures
            r == self.token.location,
    {
        self.token.location
    }
}

/// The rule for ordinary identifiers: they start with a letter or ASCII
/// punctuation and are not a keyword.
#[derive(Debug, Clone, Copy)]
pub struct IdImpl;

impl IdErrorTrait for IdImpl {
    open spec fn valid_spec(text: Seq<char>) -> bool {
        &&& text.len() > 0
        &&& (alphabetic(text[0]) || ascii_punctuation(text[0]))
        &&& !is_keyword(text)
    }

    fn is_valid(text: &str) -> (r: bool) {
        let n = text.unicode_len();
        if n == 0 {
            return false;
        }
        let first = text.get_char(0);
        (char_is_alphabetic(first) || char_is_ascii_punctuation(first)) && !text_is_keyword(text)
    }

    open spec fn error_text_spec() -> Seq<char> {
        "id must start with an alphabetic letter or valid punctuation"@
    }

    fn error_text() -> (r: &'static str) {
        "id must start with an alphabetic letter or valid punctuation"
    }
}

/// The rule for constructor identifiers: they start with an uppercase letter.
#[derive(Debug, Clone, Copy)]
pub struct CtorIdImpl;

impl IdErrorTrait for CtorIdImpl {
    open spec fn valid_spec(text: Seq<char>) -> bool {
        text.len() > 0 && uppercase(text[0])
    }

    fn is_valid(text: &str) -> (r: bool) {
        let n = text.unicode_len();
        if n == 0 {
            return false;
        }
        char_is_uppercase(text.get_char(0))
    }

    open spec fn error_text_spec() -> Seq<char> {
        "constructor id must start with an uppercase alphabetic letter"@
    }

    fn error_text() -> (r: &'static str) {
        "constructor id must start with an uppercase alphabetic letter"
    }
}

/// The rejection of a token that is not a valid identifier of kind `E`.
#[derive(Debug)]
pub struct IdError<E: IdErrorTrait> {
    pub token: Token,
    pub phantom: core::marker::PhantomData<E>,
}

/// The diagnostic of a rejected token: its position, the rule it broke, and
/// its text.
pub open spec fn id_error_message_spec<E: IdErrorTrait>(token: Token) -> Seq<char> {
    decimal(token.location.line as nat) + ":"@ + decimal(token.location.col as nat) + ": error: "@
        + E::error_text_spec() + ": '"@ + token.text@ + "'"@
}

impl<E: IdErrorTrait> IdError<E> {
    pub fn new(token: Token) -> (r: Self)
        ensures
            r.token == token,
    {
        IdError { token, phantom: core::marker::PhantomData }
    }

    /// Renders the diagnostic for a reader.
    pub fn message(&self) -> (r: String)
        ensures
            r@ == id_error_message_spec::<E>(self.token),
    {
        let mut s = String::new();
        push_decimal(&mut s, self.token.location.line as u64);
        s.append(":");
        push_decimal(&mut s, self.token.location.col as u64);
        s.append(": error: ");
        s.append(E::error_text());
        s.append(": '");
        s.append(self.token.text.as_str());
        s.append("'");
        proof {
            assert(s@ =~= id_error_message_spec::<E>(self.token));
        }
        s
    }
}

/// Turns a token into an identifier when its text obeys the rule of `E`, and
/// reports the token otherwise.
pub fn parse_id<E: IdErrorTrait>(token: Token) -> (r: Result<Id, IdError<E>>)
    ensures
        r is Ok <==> E::valid_spec(token.text@),
        r matches Ok(id) ==> id.token == token,
        r matches Err(e) ==> e.token == token,
{
    if E::is_valid(token.text.as_str()) {
        Ok(Id { token })
    } else {
        Err(IdError::new(token))
    }
}

/// An identifier for a name that the library itself synthesizes; the caller
/// vouches that the text obeys the ordinary identifier rule.
pub fn internal_id(name: &str) -> (r: Id)
    requires
        IdImpl::valid_spec(name@),
    ensures
        r.token.text@ == name@,
        r.token.location == (Location { line: 0, col: 0 }),
{
    internal_id_impl::<IdImpl>(name)
}

/// As `internal_id`, for constructor names.
pub fn internal_ctor_id(name: &str) -> (r: Id)
    requires
        CtorIdImpl::valid_spec(name@),
    ensures
        r.token.text@ == name@,
        r.token.location == (Location { line: 0, col: 0 }),
{
    internal_id_impl::<CtorIdImpl>(name)
}

pub fn internal_id_impl<E: IdErrorTrait>(name: &str) -> (r: Id)
    requires
        E::valid_spec(name@),
    ensures
        r.token.text@ == name@,
        r.token.location == (Location { line: 0, col: 0 }),
{
    let token = Token { text: String::from_str(name), location: Location::unknown() };
    match parse_id::<E>(token) {
        Ok(id) => id,
        Err(_) => {
            proof {
                assert(false);
            }
            Id { token: Token { text: String::from_str(name), location: Location::unknown() } }
        },
    }
}

/// A term that references `id` by name.
pub fn value_from_id<C: IdErrorTrait>(id: &Id) -> (r: crate::value::Value)
    ensures
        r@ == crate::value::SpecValue::Id(id@),
{
    crate::value::Value::Id(id.clone())
}

/// The decimal digit for a value below ten.
pub open spec fn digit_char(d: nat) -> char {
    if d == 0 {
        '0'
    } else if d == 1 {
        '1'
    } else if d == 2 {
        '2'
    } else if d == 3 {
        '3'
    } else if d == 4 {
        '4'
    } else if d == 5 {
        '5'
    } else if d == 6 {
        '6'
    } else if d == 7 {
        '7'
    } else if d == 8 {
        '8'
    } else {
        '9'
    }
}

/// The decimal rendering of `n`, most significant digit first.
pub open spec fn decimal(n: nat) -> Seq<char>
    decreases n,
{
    if n < 10 {
        seq![digit_char(n)]
    } else {
        decimal(n / 10).push(digit_char(n % 10))
    }
}

fn digit_str(d: u64) -> (r: &'static str)
    requires
        d < 10,
    ensures
        r@ == seq![digit_char(d as nat)],
{
    let r: &'static str = if d == 0 {
        "0"
    } else if d == 1 {
        "1"
    } else if d == 2 {
        "2"
    } else if d == 3 {
        "3"
    } else if d == 4 {
        "4"
    } else if d == 5 {
        "5"
    } else if d == 6 {
        "6"
    } else if d == 7 {
        "7"
    } else if d == 8 {
        "8"
    } else {
        "9"
    };
    proof {
        reveal_strlit("0");
        reveal_strlit("1");
        reveal_strlit("2");
        reveal_strlit("3");
        reveal_strlit("4");
        reveal_strlit("5");
        reveal_strlit("6");
        reveal_strlit("7");
        reveal_strlit("8");
        reveal_strlit("9");
        assert(r@ =~= seq![digit_char(d as nat)]);
    }
    r
}

fn push_decimal(s: &mut String, n: u64)
    ensures
        final(s)@ == old(s)@ + decimal(n as nat),
    decreases n,
{
    if n < 10 {
        s.append(digit_str(n));
        proof {
            assert(s@ =~= old(s)@ + decimal(n as nat));
        }
        // single-digit case done
    } else {
        push_decimal(s, n / 10);
        s.append(digit_str(n % 10));
        proof {
            assert(s@ =~= old(s)@ + decimal(n as nat));
        }
    }
}

/// A decimal rendering is never empty.
proof fn lemma_decimal_len(n: nat)
    ensures
        decimal(n).len() >= 1,
    decreases n,
{
    if n >= 10 {
        lemma_decimal_len(n / 10);
    }
}

/// Decimal renderings are injective: distinct values render distinctly.
pub proof fn lemma_decimal_injective(a: nat, b: nat)
    requires
        decimal(a) == decimal(b),
    ensures
        a == b,
    decreases a,
{
    lemma_decimal_len(a / 10);
    lemma_decimal_len(b / 10);
    if a < 10 && b < 10 {
        assert(decimal(a)[0] == digit_char(a));
        assert(decimal(b)[0] == digit_char(b));
    } else if a < 10 {
        assert(decimal(a).len() == 1);
        assert(decimal(b).len() >= 2);
    } else if b < 10 {
        assert(decimal(a).len() >= 2);
        assert(decimal(b).len() == 1);
    } else {
        assert(decimal(a).last() == digit_char(a % 10));
        assert(decimal(b).last() == digit_char(b % 10));
        assert(a % 10 == b % 10);
        assert(decimal(a).drop_last() =~= decimal(a / 10));
        assert(decimal(b).drop_last() =~= decimal(b / 10));
        lemma_decimal_injective(a / 10, b / 10);
    }
}

/// Fresh names are fresh: two synthesized parameter names taken at
/// distinct counter values are distinct.
pub proof fn lemma_gensym_distinct(a: u64, b: u64)
    requires
        a != b,
    ensures
        seq!['_', '_'] + decimal(a as nat) != seq!['_', '_'] + decimal(b as nat),
{
    if seq!['_', '_'] + decimal(a as nat) == seq!['_', '_'] + decimal(b as nat) {
        assert(decimal(a as nat) =~= (seq!['_', '_'] + decimal(a as nat)).skip(2));
        assert(decimal(b as nat) =~= (seq!['_', '_'] + decimal(b as nat)).skip(2));
        lemma_decimal_injective(a as nat, b as nat);
    }
}

/// A fresh parameter name for synthesized lambda chains: two underscores
/// followed by the decimal value of `counter`. Distinct counters give
/// distinct names.
pub fn gensym(counter: u64, location: Location) -> (r: Id)
    ensures
        r.token.text@ == seq!['_', '_'] + decimal(counter as nat),
        r.token.location == location,
{
    let mut text = String::from_str("__");
    proof {
        reveal_strlit("__");
        assert(text@ =~= seq!['_', '_']);
    }
    push_decimal(&mut text, counter);
    Id { token: Token { text, location } }
}

} // verus!
