//! Login and sessions: the password check, session tokens, the cookie that
//! carries a token and reading the token back from a `Cookie` header.

use vstd::prelude::*;

use vstd::string::StringSliceAdditionalSpecFns;

use crate::text::{
    chars_of, find_field, first_with_prefix, has_prefix, is_white_space,
    lemma_first_with_prefix_append, lemma_split_on_at_separator, lemma_split_on_without_separator,
    lemma_trim_unchanged, piece_text, split_on,
};

verus! {

broadcast use vstd::utf8::encode_utf8_decode_utf8;

proof fn lemma_or_xor_zero(acc: u8, x: u8, y: u8)
    ensures
        (acc | (x ^ y)) == 0 <==> (acc == 0 && x == y),
{
    assert((acc | (x ^ y)) == 0 <==> (acc == 0 && x == y)) by (bit_vector);
}

/// Compares two byte strings in time that depends on their length only, not
/// on where they first differ.
pub fn constant_time_eq(a: &[u8], b: &[u8]) -> (r: bool)
    ensures
        r == (a@ == b@),
{
    if a.len() != b.len() {
        return false;
    }
    let mut acc: u8 = 0;
    let mut i: usize = 0;
    while i < a.len()
        invariant
            a@.len() == b@.len(),
            i <= a@.len(),
            (acc == 0) <==> (forall|j: int| 0 <= j < i ==> a@[j] == b@[j]),
        decreases a@.len() - i,
    {
        proof {
            lemma_or_xor_zero(acc, a@[i as int], b@[i as int]);
        }
        acc = acc | (a[i] ^ b[i]);
        i = i + 1;
    }
    if acc == 0 {
        assert(a@ =~= b@);
    }
    acc == 0
}

/// Whether the password given at login is the configured one, compared in
/// constant time over their UTF-8 bytes.
pub fn password_matches(given: &str, password: &str) -> (r: bool)
    ensures
        r == (given@ == password@),
{
    let r = constant_time_eq(given.as_bytes(), password.as_bytes());
    proof {
        if r {
            assert(vstd::utf8::decode_utf8(given.spec_bytes()) == given@);
            assert(vstd::utf8::decode_utf8(password.spec_bytes()) == password@);
        }
    }
    r
}

/// The lower-case hexadecimal digits.
pub open spec fn hex_alphabet() -> Seq<char> {
    seq!['0', '1', '2', '3', '4', '5', '6', '7', '8', '9', 'a', 'b', 'c', 'd', 'e', 'f']
}

/// Two lower-case hexadecimal digits per byte, high nibble first, as
/// `format!("{:02x}")` writes each byte.
pub open spec fn hex_lower(bytes: Seq<u8>) -> Seq<char>
    decreases bytes.len(),
{
    if bytes.len() == 0 {
        Seq::empty()
    } else {
        hex_lower(bytes.drop_last()) + seq![
            hex_alphabet()[bytes.last() as int / 16],
            hex_alphabet()[bytes.last() as int % 16],
        ]
    }
}

/// The hexadecimal digit of `n` as a string of one character.
fn hex_digit(n: u8) -> (r: &'static str)
    requires
        n < 16,
    ensures
        r@ == seq![hex_alphabet()[n as int]],
{
    let digits = "0123456789abcdef";
    proof {
        reveal_strlit("0123456789abcdef");
        assert(digits@ =~= hex_alphabet());
    }
    let r = digits.substring_char(n as usize, n as usize + 1);
    assert(r@ =~= seq![hex_alphabet()[n as int]]);
    r
}

/// Encodes random bytes as a session token: lower-case hexadecimal, two
/// digits per byte.
pub fn token_hex(bytes: &[u8]) -> (r: String)
    ensures
        r@ == hex_lower(bytes@),
        r@.len() == 2 * bytes@.len(),
{
    let mut r = String::new();
    let mut i: usize = 0;
    assert(bytes@.take(0) =~= Seq::<u8>::empty());
    while i < bytes.len()
        invariant
            i <= bytes@.len(),
            r@ == hex_lower(bytes@.take(i as int)),
            r@.len() == 2 * i,
        decreases bytes@.len() - i,
    {
        let b = bytes[i];
        r.append(hex_digit(b / 16));
        r.append(hex_digit(b % 16));
        proof {
            let t = bytes@.take(i + 1);
            assert(t.drop_last() =~= bytes@.take(i as int));
            assert(t.last() == b);
        }
        i = i + 1;
    }
    assert(bytes@.take(bytes@.len() as int) =~= bytes@);
    r
}

/// The attributes that follow the token in the session cookie.
pub open spec fn cookie_attributes() -> Seq<char> {
    "; HttpOnly; SameSite=Lax; Path=/; Max-Age=31536000"@
}

/// The value of the `Set-Cookie` header that hands out a session token.
pub open spec fn set_cookie_value(token: Seq<char>) -> Seq<char> {
    "session="@ + token + cookie_attributes()
}

/// The `Set-Cookie` value for a new session: the token, kept from scripts,
/// sent on same-site requests to every path, for a year.
pub fn session_cookie(token: &str) -> (r: String)
    ensures
        r@ == set_cookie_value(token@),
{
    let mut r = String::from_str("session=");
    r.append(token);
    r.append("; HttpOnly; SameSite=Lax; Path=/; Max-Age=31536000");
    r
}

/// The session token that a `Cookie` header carries: of its `;`-separated
/// parts, trimmed, the first that starts with `session=`, without that prefix.
pub open spec fn cookie_session_token(cookie: Seq<char>) -> Option<Seq<char>> {
    first_with_prefix(split_on(cookie, ';'), "session="@, true)
}

/// Reads the session token out of the value of a `Cookie` header.
pub fn session_token(cookie: &str) -> (r: Option<String>)
    ensures
        match r {
            Some(t) => cookie_session_token(cookie@) == Some(t@),
            None => cookie_session_token(cookie@) is None,
        },
{
    let cs = chars_of(cookie);
    let prefix = chars_of("session=");
    match find_field(&cs, ';', &prefix, true) {
        Some((lo, hi)) => Some(String::from_str(cookie.substring_char(lo, hi))),
        None => None,
    }
}

/// A token that a cookie can carry back unchanged: it holds no `;` and does
/// not end in white space.
pub open spec fn cookie_safe(token: Seq<char>) -> bool {
    &&& forall|i: int| 0 <= i < token.len() ==> token[i] != ';'
    &&& token.len() == 0 || !is_white_space(token.last())
}

proof fn lemma_session_piece(token: Seq<char>)
    requires
        cookie_safe(token),
    ensures
        first_with_prefix(seq!["session="@ + token], "session="@, true) == Some(token),
{
    reveal_strlit("session=");
    let s = "session="@ + token;
    assert(s[0] == 's');
    assert(s.last() == if token.len() == 0 { '=' } else { token.last() });
    lemma_trim_unchanged(s);
    assert(piece_text(s, true) == s);
    assert(s.subrange(0, 8) =~= "session="@);
    assert(has_prefix(s, "session="@));
    assert(s.skip(8) =~= token);
    assert(seq![s][0] == s);
}

/// A session token comes back unchanged from the cookie that hands it out,
/// both from the bare `session=<token>` a browser sends back and from the
/// whole `Set-Cookie` value.
pub proof fn lemma_session_cookie_round_trip(token: Seq<char>)
    requires
        cookie_safe(token),
    ensures
        cookie_session_token("session="@ + token) == Some(token),
        cookie_session_token(set_cookie_value(token)) == Some(token),
{
    reveal_strlit("session=");
    reveal_strlit("; HttpOnly; SameSite=Lax; Path=/; Max-Age=31536000");
    let s = "session="@ + token;
    assert forall|i: int| 0 <= i < s.len() implies s[i] != ';' by {
        if i >= 8 {
            assert(s[i] == token[i - 8]);
        }
    }
    lemma_split_on_without_separator(s, ';');
    lemma_session_piece(token);
    let c = set_cookie_value(token);
    let k = s.len() as int;
    assert(c[k] == ';');
    lemma_split_on_at_separator(c, ';', k);
    assert(c.take(k) =~= s);
    let rest = split_on(c.skip(k + 1), ';');
    assert(seq![s] + rest == split_on(c, ';'));
    lemma_first_with_prefix_append(seq![s], rest, "session="@, true);
}

/// Every character of a hexadecimal token is a hexadecimal digit.
pub proof fn lemma_hex_digits_only(bytes: Seq<u8>)
    ensures
        forall|i: int|
            0 <= i < hex_lower(bytes).len() ==> hex_alphabet().contains(#[trigger] hex_lower(bytes)[i]),
    decreases bytes.len(),
{
    if bytes.len() > 0 {
        lemma_hex_digits_only(bytes.drop_last());
        let a = hex_lower(bytes.drop_last());
        let b = bytes.last() as int;
        assert forall|i: int| 0 <= i < hex_lower(bytes).len() implies hex_alphabet().contains(
            #[trigger] hex_lower(bytes)[i],
        ) by {
            if i >= a.len() {
                if i == a.len() {
                    assert(hex_lower(bytes)[i] == hex_alphabet()[b / 16]);
                } else {
                    assert(hex_lower(bytes)[i] == hex_alphabet()[b % 16]);
                }
            } else {
                assert(hex_lower(bytes)[i] == a[i]);
            }
        }
    }
}

/// A token made by `token_hex` travels through the session cookie unchanged.
pub proof fn lemma_hex_token_round_trip(bytes: Seq<u8>)
    ensures
        cookie_safe(hex_lower(bytes)),
        cookie_session_token("session="@ + hex_lower(bytes)) == Some(hex_lower(bytes)),
        cookie_session_token(set_cookie_value(hex_lower(bytes))) == Some(hex_lower(bytes)),
{
    let t = hex_lower(bytes);
    lemma_hex_digits_only(bytes);
    assert forall|i: int| 0 <= i < t.len() implies t[i] != ';' && !is_white_space(t[i]) by {
        assert(hex_alphabet().contains(t[i]));
        let j = choose|j: int| 0 <= j < 16 && hex_alphabet()[j] == t[i];
        assert(0 <= j < 16);
    }
    if t.len() > 0 {
        assert(t.last() == t[t.len() - 1]);
    }
    lemma_session_cookie_round_trip(t);
}

} // verus!
