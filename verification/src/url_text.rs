//! URLs as text. The `url` crate reads and joins them; what it hands back is
//! kept in the form in which it writes a URL out.
use crate::text;
use vstd::prelude::*;

verus! {

/// The URL that `text` spells, as the `url` crate writes it out; `None` where
/// `text` is no absolute URL.
pub uninterp spec fn url_parsed(text: Seq<char>) -> Option<Seq<char>>;

/// The URL that `reference` names relative to the URL that `base` spells, as
/// the `url` crate writes it out; `None` where there is none.
pub uninterp spec fn url_joined(base: Seq<char>, reference: Seq<char>) -> Option<Seq<char>>;

/// `n` below 16 as an upper case hexadecimal digit.
pub open spec fn hex_char(n: int) -> char {
    if n < 10 {
        ('0' as int + n) as char
    } else {
        ('A' as int + n - 10) as char
    }
}

/// `byte` as `%` and two hexadecimal digits.
pub open spec fn percent_escape(byte: u8) -> Seq<char> {
    seq!['%', hex_char(byte as int / 16), hex_char(byte as int % 16)]
}

/// The bytes that a form-encoded value holds as they are.
pub open spec fn form_plain(byte: u8) -> bool {
    ||| 0x30 <= byte <= 0x39
    ||| 0x41 <= byte <= 0x5a
    ||| 0x61 <= byte <= 0x7a
    ||| byte == 0x2a
    ||| byte == 0x2d
    ||| byte == 0x2e
    ||| byte == 0x5f
}

/// One byte in form encoding: letters, digits, `*`, `-`, `.` and `_` as they
/// are, the space as `+`, any other as an escape.
pub open spec fn form_byte(byte: u8) -> Seq<char> {
    if form_plain(byte) {
        seq![byte as char]
    } else if byte == 0x20 {
        seq!['+']
    } else {
        percent_escape(byte)
    }
}

/// Bytes in form encoding, one after the other.
pub open spec fn form_bytes(bytes: Seq<u8>) -> Seq<char>
    decreases bytes.len(),
{
    if bytes.len() == 0 {
        Seq::empty()
    } else {
        form_byte(bytes[0]) + form_bytes(bytes.drop_first())
    }
}

/// A text in form encoding: its UTF-8 bytes, one after the other.
pub open spec fn form_encoded(text: Seq<char>) -> Seq<char> {
    form_bytes(vstd::utf8::encode_utf8(text))
}

/// The bytes that the query of a URL holds as they are; the apostrophe is one
/// of them only where the URL's scheme is no special one.
pub open spec fn query_plain(byte: u8, special: bool) -> bool {
    &&& 0x21 <= byte <= 0x7e
    &&& byte != 0x22
    &&& byte != 0x23
    &&& byte != 0x3c
    &&& byte != 0x3e
    &&& special ==> byte != 0x27
}

pub open spec fn query_byte(byte: u8, special: bool) -> Seq<char> {
    if query_plain(byte, special) {
        seq![byte as char]
    } else {
        percent_escape(byte)
    }
}

/// Bytes as the query of a URL holds them.
pub open spec fn query_bytes(bytes: Seq<u8>, special: bool) -> Seq<char>
    decreases bytes.len(),
{
    if bytes.len() == 0 {
        Seq::empty()
    } else {
        query_byte(bytes[0], special) + query_bytes(bytes.drop_first(), special)
    }
}

/// A URL's text up to its query or fragment.
pub open spec fn before_query(url: Seq<char>) -> Seq<char>
    decreases url.len(),
{
    if url.len() == 0 || url[0] == '?' || url[0] == '#' {
        Seq::empty()
    } else {
        seq![url[0]] + before_query(url.drop_first())
    }
}

/// Whether a text, put behind the `?` of a reference, is all query: it starts
/// no fragment, and holds nothing that the reading of a URL leaves out (tabs
/// and line ends anywhere, spaces and control characters at the end).
pub open spec fn all_query(text: Seq<char>) -> bool {
    &&& forall|i: int|
        0 <= i < text.len() ==> {
            &&& #[trigger] text[i] != '#'
            &&& text[i] != '\t'
            &&& text[i] != '\n'
            &&& text[i] != '\r'
        }
    &&& text.len() > 0 ==> text.last() > ' '
}

/// Whether `url` is what stands before the query in the URL that `base`
/// spells, then `?`, then `text` as a query holds it.
pub open spec fn has_query(url: Seq<char>, base: Seq<char>, text: Seq<char>) -> bool {
    &&& url_parsed(base) is Some
    &&& exists|special: bool|
        url == before_query(url_parsed(base)->0) + seq!['?'] + #[trigger] query_bytes(
            vstd::utf8::encode_utf8(text),
            special,
        )
}

/// `url::Url::parse`, and the URL written out again with `String::from`. The
/// contract names the result; it says nothing of which texts are URLs.
#[verifier::external_body]
pub(crate) fn parse_url(text: &str) -> (url: Option<String>)
    ensures
        text::opt_text(url) == url_parsed(text@),
{
    match url::Url::parse(text) {
        Ok(url) => Some(String::from(url)),
        Err(_) => None,
    }
}

/// `url::Url::join` on the URL that `base` spells, written out again with
/// `String::from`. The contract names the result. Of a reference that is `?`
/// and a query it adds what the parser does with it: the query takes the place
/// of the base's own query and fragment, byte for byte but for the escapes.
#[verifier::external_body]
pub(crate) fn join_url(base: &str, reference: &str) -> (url: Option<String>)
    ensures
        text::opt_text(url) == url_joined(base@, reference@),
        url matches Some(u) ==> reference@.len() > 0 && reference@[0] == '?' && all_query(
            reference@.drop_first(),
        ) ==> has_query(u@, base@, reference@.drop_first()),
{
    match url::Url::parse(base).and_then(|base| base.join(reference)) {
        Ok(url) => Some(String::from(url)),
        Err(_) => None,
    }
}

/// `url::form_urlencoded::byte_serialize` on the UTF-8 bytes of `text`, its
/// pieces put together. The contract states the encoding byte by byte.
#[verifier::external_body]
pub(crate) fn form_encode(text: &str) -> (encoded: String)
    ensures
        encoded@ == form_encoded(text@),
{
    url::form_urlencoded::byte_serialize(text.as_bytes()).collect()
}

} // verus!
