//! What holds of response text: numbers are written in standard decimal
//! notation, and each status carries its standard numeric code.

use vstd::prelude::*;

use crate::http::response::{content_type_name, decimal, digit_char, status_number, ContentType, StatusCode};

verus! {

/// Whether `c` is one of the digits `0` to `9`.
pub open spec fn is_digit(c: char) -> bool {
    '0' <= c && c <= '9'
}

/// The value of the digit `c`: its distance from `0`.
pub open spec fn digit_value(c: char) -> int {
    (c as int) - ('0' as int)
}

/// The value of a string of digits, the last one the units.
pub open spec fn value_of(digits: Seq<char>) -> int
    decreases digits.len(),
{
    if digits.len() == 0 {
        0
    } else {
        value_of(digits.drop_last()) * 10 + digit_value(digits.last())
    }
}

proof fn lemma_digit(d: nat)
    requires
        d < 10,
    ensures
        is_digit(digit_char(d)),
        digit_value(digit_char(d)) == d,
{
    assert(('0' as int) == 48 && ('9' as int) == 57);
    if d == 0 {
    } else if d == 1 {
        assert(('1' as int) == 49);
    } else if d == 2 {
        assert(('2' as int) == 50);
    } else if d == 3 {
        assert(('3' as int) == 51);
    } else if d == 4 {
        assert(('4' as int) == 52);
    } else if d == 5 {
        assert(('5' as int) == 53);
    } else if d == 6 {
        assert(('6' as int) == 54);
    } else if d == 7 {
        assert(('7' as int) == 55);
    } else if d == 8 {
        assert(('8' as int) == 56);
    }
}

/// A number is written in standard decimal notation: a non-empty string of
/// digits whose value is the number, with no leading zero but in `0` itself.
pub proof fn law_decimal_notation(n: nat)
    ensures
        decimal(n).len() > 0,
        forall|i: int| 0 <= i < decimal(n).len() ==> is_digit(#[trigger] decimal(n)[i]),
        value_of(decimal(n)) == n,
        decimal(n)[0] == '0' ==> n == 0 && decimal(n).len() == 1,
    decreases n,
{
    lemma_digit(n % 10);
    if n < 10 {
        assert(decimal(n).drop_last() =~= Seq::<char>::empty());
        assert(value_of(Seq::<char>::empty()) == 0);
        assert(decimal(n).last() == digit_char(n));
        assert(n % 10 == n);
    } else {
        let q = n / 10;
        law_decimal_notation(q);
        let ds = decimal(n);
        assert(ds == decimal(q).push(digit_char(n % 10)));
        assert(ds.drop_last() =~= decimal(q));
        assert(ds[0] == decimal(q)[0]);
        assert(q * 10 + n % 10 == n);
        assert(ds.last() == digit_char(n % 10));
        assert(value_of(ds) == value_of(decimal(q)) * 10 + digit_value(digit_char(n % 10)));
        assert forall|i: int| 0 <= i < ds.len() implies is_digit(#[trigger] ds[i]) by {
            if i < ds.len() - 1 {
                assert(ds[i] == decimal(q)[i]);
            }
        }
    }
}

/// Each status carries its standard numeric code.
pub proof fn law_status_numbers()
    ensures
        status_number(StatusCode::OK) == 200,
        status_number(StatusCode::Created) == 201,
        status_number(StatusCode::Accepted) == 202,
        status_number(StatusCode::BadRequest) == 400,
        status_number(StatusCode::Unauthorized) == 401,
        status_number(StatusCode::Forbidden) == 403,
        status_number(StatusCode::NotFound) == 404,
        status_number(StatusCode::Teapot) == 418,
        status_number(StatusCode::Internale) == 500,
        status_number(StatusCode::NotImplemented) == 501,
        status_number(StatusCode::BadGateway) == 502,
        status_number(StatusCode::ServiceUnavailable) == 503,
        status_number(StatusCode::HttpVersionUnsupported) == 505,
{
}

/// No two statuses share a code; in particular only OK is sent as `200`, and
/// the successes are exactly the codes from 200 to 299.
pub proof fn law_status_numbers_distinct(a: StatusCode, b: StatusCode)
    ensures
        status_number(a) == status_number(b) ==> a == b,
        200 <= status_number(a) < 300 <==> (a == StatusCode::OK || a == StatusCode::Created || a
            == StatusCode::Accepted),
        100 <= status_number(a) < 600,
{
}

/// Each media type is named by its standard name, and no two share a name.
pub proof fn law_content_type_names(a: ContentType, b: ContentType)
    ensures
        content_type_name(ContentType::TextHtml) == seq!['t', 'e', 'x', 't', '/', 'h', 't', 'm', 'l'],
        content_type_name(ContentType::TextPlain) == seq!['t', 'e', 'x', 't', '/', 'p', 'l', 'a', 'i', 'n'],
        content_type_name(ContentType::FormData) == seq![
            'm', 'u', 'l', 't', 'i', 'p', 'a', 'r', 't', '/', 'f', 'o', 'r', 'm', '-', 'd', 'a', 't', 'a',
        ],
        content_type_name(ContentType::AppForm) == seq!['a', 'p', 'p', 'l', 'i', 'c', 'a', 't', 'i', 'o', 'n', '/']
            + seq!['x', '-', 'w', 'w', 'w', '-', 'f', 'o', 'r', 'm', '-', 'u', 'r', 'l', 'e', 'n', 'c', 'o', 'd', 'e', 'd'],
        content_type_name(a) == content_type_name(b) ==> a == b,
{
    reveal_strlit("text/html");
    reveal_strlit("text/plain");
    reveal_strlit("multipart/form-data");
    reveal_strlit("application/x-www-form-urlencoded");
    assert(content_type_name(ContentType::TextHtml) =~= seq!['t', 'e', 'x', 't', '/', 'h', 't', 'm', 'l']);
    assert(content_type_name(ContentType::TextPlain) =~= seq!['t', 'e', 'x', 't', '/', 'p', 'l', 'a', 'i', 'n']);
    assert(content_type_name(ContentType::FormData) =~= seq![
        'm', 'u', 'l', 't', 'i', 'p', 'a', 'r', 't', '/', 'f', 'o', 'r', 'm', '-', 'd', 'a', 't', 'a',
    ]);
    assert(content_type_name(ContentType::AppForm) =~= seq!['a', 'p', 'p', 'l', 'i', 'c', 'a', 't', 'i', 'o', 'n', '/']
        + seq!['x', '-', 'w', 'w', 'w', '-', 'f', 'o', 'r', 'm', '-', 'u', 'r', 'l', 'e', 'n', 'c', 'o', 'd', 'e', 'd']);
    if content_type_name(a) == content_type_name(b) && a != b {
        let na = content_type_name(a);
        let nb = content_type_name(b);
        assert(na.len() == nb.len());
        assert(na[5] == nb[5]);
    }
}

} // verus!
