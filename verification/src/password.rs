//! Passwords written as the base64url text of random bytes.
use vstd::prelude::*;

verus! {

/// How many random bytes a password is made from.
pub const ENTROPY_LEN: usize = 12;

/// The base64url alphabet of RFC 4648 (section 5), symbol `v` for `0 <= v < 64`.
pub open spec fn base64url_symbol(v: int) -> char {
    if v < 26 {
        (('A' as int) + v) as char
    } else if v < 52 {
        (('a' as int) + (v - 26)) as char
    } else if v < 62 {
        (('0' as int) + (v - 52)) as char
    } else if v == 62 {
        '-'
    } else {
        '_'
    }
}

/// RFC 4648 base64url with `=` padding: each group of three bytes becomes
/// four symbols of six bits each; a final group of one or two bytes is
/// filled with zero bits and padded with `=` to four characters.
pub open spec fn base64url(b: Seq<u8>) -> Seq<char>
    decreases b.len(),
{
    if b.len() == 0 {
        Seq::empty()
    } else {
        let x = b[0] as int;
        let y = if b.len() > 1 { b[1] as int } else { 0 };
        let z = if b.len() > 2 { b[2] as int } else { 0 };
        let group = group_symbols(x, y, z);
        if b.len() == 1 {
            seq![group[0], group[1], '=', '=']
        } else if b.len() == 2 {
            seq![group[0], group[1], group[2], '=']
        } else {
            group + base64url(b.skip(3))
        }
    }
}

/// The four symbols of the bytes `x`, `y`, `z`, six bits at a time.
pub open spec fn group_symbols(x: int, y: int, z: int) -> Seq<char> {
    seq![
        base64url_symbol(x / 4),
        base64url_symbol((x % 4) * 16 + y / 16),
        base64url_symbol((y % 16) * 4 + z / 64),
        base64url_symbol(z % 64),
    ]
}

/// `data_encoding::BASE64URL.encode`: the padded base64url text of the
/// bytes, as RFC 4648 defines it.
#[verifier::external_body]
fn base64url_encode(bytes: &[u8]) -> (text: String)
    ensures
        text@ == base64url(bytes@),
{
    data_encoding::BASE64URL.encode(bytes)
}

/// The password for the given random bytes.
pub fn password_from_entropy(entropy: &[u8; ENTROPY_LEN]) -> (password: String)
    ensures
        password@ == base64url(entropy@),
{
    base64url_encode(entropy.as_slice())
}

/// A character of the URL-safe alphabet (no padding).
pub open spec fn is_url_safe(c: char) -> bool {
    ||| 'A' <= c <= 'Z'
    ||| 'a' <= c <= 'z'
    ||| '0' <= c <= '9'
    ||| c == '-'
    ||| c == '_'
}

proof fn lemma_symbol_is_url_safe(v: int)
    requires
        0 <= v < 64,
    ensures
        is_url_safe(base64url_symbol(v)),
{
}

proof fn lemma_full_groups(b: Seq<u8>)
    requires
        b.len() % 3 == 0,
    ensures
        base64url(b).len() == b.len() / 3 * 4,
        forall|i: int| 0 <= i < base64url(b).len() ==> is_url_safe(#[trigger] base64url(b)[i]),
    decreases b.len(),
{
    if b.len() > 0 {
        let rest = b.skip(3);
        lemma_full_groups(rest);
        let (x, y, z) = (b[0] as int, b[1] as int, b[2] as int);
        let head = group_symbols(x, y, z);
        lemma_symbol_is_url_safe(x / 4);
        lemma_symbol_is_url_safe((x % 4) * 16 + y / 16);
        lemma_symbol_is_url_safe((y % 16) * 4 + z / 64);
        lemma_symbol_is_url_safe(z % 64);
        assert(base64url(b) == head + base64url(rest));
        assert forall|i: int| 0 <= i < base64url(b).len() implies is_url_safe(#[trigger] base64url(b)[i]) by {
            if i >= 4 {
                assert(base64url(b)[i] == base64url(rest)[i - 4]);
            }
        }
    }
}

/// A password is sixteen characters of the URL-safe alphabet: twelve bytes
/// fill four whole groups, so no padding is needed.
pub proof fn lemma_password_shape(entropy: Seq<u8>)
    requires
        entropy.len() == ENTROPY_LEN,
    ensures
        base64url(entropy).len() == 16,
        forall|i: int| 0 <= i < 16 ==> is_url_safe(#[trigger] base64url(entropy)[i]),
{
    lemma_full_groups(entropy);
}

} // verus!
