//! Names of buckets and sorted tables: decimal numbers and UUIDs as text.

use vstd::prelude::*;

verus! {

/// `uuid::Error`, carried as a value that is not looked into.
#[verifier::external_type_specification]
#[verifier::external_body]
pub struct ExUuidError(uuid::Error);

/// The character of a decimal digit.
pub open spec fn digit_char(d: nat) -> char {
    if d == 0 {
        '0'
    } else if d == 1 {
        '1'
    } else if d == 2 {
        '2'
    } else if d == 3 {
        '3'
    } else if d == 4 {
        '4'
    } else if d == 5 {
        '5'
    } else if d == 6 {
        '6'
    } else if d == 7 {
        '7'
    } else if d == 8 {
        '8'
    } else {
        '9'
    }
}

/// The decimal digits of `n`, most significant first, without leading zeros.
pub open spec fn decimal(n: nat) -> Seq<char>
    decreases n,
{
    if n < 10 {
        seq![digit_char(n)]
    } else {
        decimal(n / 10).push(digit_char(n % 10))
    }
}

/// The text of a UUID in its hyphenated form.
pub uninterp spec fn uuid_text(id: u128) -> Seq<char>;

/// The UUID that a text stands for, if it stands for one.
pub uninterp spec fn uuid_parsed(text: Seq<u8>) -> Option<u128>;

/// The text of one decimal digit.
pub fn digit_text(d: u64) -> (r: &'static str)
    requires
        d < 10,
    ensures
        r@ == seq![digit_char(d as nat)],
{
    proof {
        reveal_strlit("0");
        reveal_strlit("1");
        reveal_strlit("2");
        reveal_strlit("3");
        reveal_strlit("4");
        reveal_strlit("5");
        reveal_strlit("6");
        reveal_strlit("7");
        reveal_strlit("8");
        reveal_strlit("9");
    }
    let text = if d == 0 {
        "0"
    } else if d == 1 {
        "1"
    } else if d == 2 {
        "2"
    } else if d == 3 {
        "3"
    } else if d == 4 {
        "4"
    } else if d == 5 {
        "5"
    } else if d == 6 {
        "6"
    } else if d == 7 {
        "7"
    } else if d == 8 {
        "8"
    } else {
        "9"
    };
    assert(text@ =~= seq![digit_char(d as nat)]);
    text
}

/// The number in decimal digits, without sign or leading zeros.
pub fn decimal_text(n: u64) -> (r: String)
    ensures
        r@ == decimal(n as nat),
    decreases n,
{
    if n < 10 {
        String::from_str(digit_text(n))
    } else {
        let head = decimal_text(n / 10);
        let last = digit_text(n % 10);
        let text = head.concat(last);
        assert(text@ =~= decimal(n as nat));
        text
    }
}

/// `Uuid::new_v4`: a random UUID, handed out as its 128-bit value. Nothing is
/// claimed of the value.
#[verifier::external_body]
pub(crate) fn random_uuid() -> u128 {
    uuid::Uuid::new_v4().as_u128()
}

/// `Uuid::hyphenated` and its `Display`: the text of the UUID with the value
/// `id`.
#[verifier::external_body]
pub(crate) fn uuid_to_text(id: u128) -> (r: String)
    ensures
        r@ == uuid_text(id),
{
    uuid::Uuid::from_u128(id).hyphenated().to_string()
}

/// `Uuid::try_parse_ascii`: the value of the UUID that `text` stands for, or
/// the parser's error.
#[verifier::external_body]
pub(crate) fn parse_uuid(text: &[u8]) -> (r: Result<u128, uuid::Error>)
    ensures
        r is Ok <==> uuid_parsed(text@) is Some,
        r matches Ok(id) ==> uuid_parsed(text@) == Some(id),
{
    uuid::Uuid::try_parse_ascii(text).map(|u| u.as_u128())
}

} // verus!
