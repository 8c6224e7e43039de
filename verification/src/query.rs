//! The query that a backend is sent, and what it reads out of it.
use crate::text::chars_of;
use crate::url_text;
use crate::url_text::form_encode;
use crate::webfinger;
use vstd::prelude::*;
use vstd::string::*;

verus! {

/// Whether a character in a query is taken for something other than itself, or
/// for nothing: it ends the value or the query, is part of an escape or stands
/// for a space, or is a space or control character, which the reading of a URL
/// may leave out.
pub open spec fn means_more(c: char) -> bool {
    c <= ' ' || c == '#' || c == '%' || c == '&' || c == '+'
}

/// A character such that a query holds it and nothing else.
pub open spec fn escaped_char(c: char) -> Seq<char> {
    if means_more(c) {
        url_text::percent_escape(c as u8)
    } else {
        seq![c]
    }
}

/// A text such that a query holds it and nothing else: the characters that
/// would mean more are escaped, all others stand as they are.
pub open spec fn escaped(text: Seq<char>) -> Seq<char>
    decreases text.len(),
{
    if text.len() == 0 {
        Seq::empty()
    } else {
        escaped_char(text[0]) + escaped(text.drop_first())
    }
}

/// One `&rel=...` for each relation type, in order, form-encoded.
pub open spec fn rel_pairs(rels: Seq<Seq<char>>) -> Seq<char>
    decreases rels.len(),
{
    if rels.len() == 0 {
        Seq::empty()
    } else {
        "&rel="@ + url_text::form_encoded(rels[0]) + rel_pairs(rels.drop_first())
    }
}

/// The query for a resource: the resource, then the relation types.
pub open spec fn query_text(resource: Seq<char>, rels: Seq<Seq<char>>) -> Seq<char> {
    "resource="@ + escaped(resource) + rel_pairs(rels)
}

fn hex_digit(n: u8) -> (digit: char)
    requires
        n < 16,
    ensures
        digit == url_text::hex_char(n as int),
{
    if n < 10 {
        (48 + n) as char
    } else {
        (55 + n) as char
    }
}

/// Writes a text such that a query holds it and nothing else.
fn escape(text: &str) -> (query: String)
    ensures
        query@ == escaped(text@),
{
    let chars = chars_of(text);
    let mut query = String::new();
    assert(text@.skip(0) =~= text@);
    assert(query@ + escaped(text@) =~= escaped(text@));
    for i in 0..chars.len()
        invariant
            chars@ == text@,
            query@ + escaped(text@.skip(i as int)) == escaped(text@),
    {
        let c: char = chars[i];
        let ghost before = query@;
        if c <= ' ' || c == '#' || c == '%' || c == '&' || c == '+' {
            let byte: u8 = c as u8;
            query.push('%');
            query.push(hex_digit(byte / 16));
            query.push(hex_digit(byte % 16));
        } else {
            query.push(c);
        }
        proof {
            let rest = text@.skip(i as int);
            assert(rest.drop_first() =~= text@.skip(i + 1));
            assert(rest[0] == c);
            assert(query@ =~= before + escaped_char(c));
            assert(before + escaped(rest) =~= query@ + escaped(text@.skip(i + 1)));
        }
    }
    assert(text@.skip(text@.len() as int) =~= Seq::empty());
    assert(query@ + escaped(Seq::empty()) =~= query@);
    query
}

/// Writes the query for a resource.
pub fn build_query(resource: &str, rels: &[String]) -> (query: String)
    ensures
        query@ == query_text(resource@, webfinger::text_views(rels@)),
{
    let ghost views = webfinger::text_views(rels@);
    let mut query = "resource=".to_owned();
    let value = escape(resource);
    query.append(value.as_str());
    assert(views.skip(0) =~= views);
    for i in 0..rels.len()
        invariant
            views == webfinger::text_views(rels@),
            query@ + rel_pairs(views.skip(i as int)) == query_text(resource@, views),
    {
        let ghost before = query@;
        let encoded = form_encode(rels[i].as_str());
        query.append("&rel=");
        query.append(encoded.as_str());
        proof {
            let rest = views.skip(i as int);
            assert(rest.drop_first() =~= views.skip(i + 1));
            assert(rest[0] == rels@[i as int]@);
            assert(before + rel_pairs(rest) =~= query@ + rel_pairs(views.skip(i + 1)));
        }
    }
    assert(views.skip(rels@.len() as int) =~= Seq::empty());
    assert(query@ + rel_pairs(Seq::empty()) =~= query@);
    query
}

/// Where `c` first stands in `text`; the length of `text` where it does not.
pub open spec fn find(text: Seq<char>, c: char) -> int
    decreases text.len(),
{
    if text.len() == 0 || text[0] == c {
        0
    } else {
        1 + find(text.drop_first(), c)
    }
}

/// What stands behind the first `c` in `text`.
pub open spec fn behind(text: Seq<char>, c: char) -> Seq<char> {
    if find(text, c) < text.len() {
        text.skip(find(text, c) + 1)
    } else {
        Seq::empty()
    }
}

/// The query of a URL: what stands between the `?` and the fragment.
pub open spec fn query_of(url: Seq<char>) -> Seq<char> {
    behind(url, '?').take(find(behind(url, '?'), '#'))
}

/// What a hexadecimal digit stands for.
pub open spec fn hex_value(c: char) -> Option<int> {
    if '0' <= c <= '9' {
        Some(c as int - '0' as int)
    } else if 'A' <= c <= 'F' {
        Some(c as int - 'A' as int + 10)
    } else if 'a' <= c <= 'f' {
        Some(c as int - 'a' as int + 10)
    } else {
        None
    }
}

/// The bytes that a form-encoded text stands for: `+` for the space, `%` and
/// two hexadecimal digits for the byte of that number, anything else for its
/// UTF-8 bytes.
pub open spec fn form_decoded(text: Seq<char>) -> Seq<u8>
    decreases text.len(),
{
    if text.len() == 0 {
        Seq::empty()
    } else if text[0] == '+' {
        seq![0x20u8] + form_decoded(text.drop_first())
    } else if text[0] == '%' && text.len() >= 3 && hex_value(text[1]) is Some && hex_value(
        text[2],
    ) is Some {
        seq![(16 * hex_value(text[1])->0 + hex_value(text[2])->0) as u8] + form_decoded(
            text.skip(3),
        )
    } else {
        vstd::utf8::encode_utf8(seq![text[0]]) + form_decoded(text.drop_first())
    }
}

/// A name and its value, as they stand between two `&`.
pub open spec fn form_pair(piece: Seq<char>) -> (Seq<u8>, Seq<u8>) {
    (form_decoded(piece.take(find(piece, '='))), form_decoded(behind(piece, '=')))
}

/// The names and values that are read out of a query.
pub open spec fn form_pairs(query: Seq<char>) -> Seq<(Seq<u8>, Seq<u8>)>
    decreases query.len(),
    via form_pairs_terminates
{
    let piece = query.take(find(query, '&'));
    let first = if piece.len() == 0 {
        Seq::empty()
    } else {
        seq![form_pair(piece)]
    };
    if find(query, '&') < query.len() {
        first + form_pairs(behind(query, '&'))
    } else {
        first
    }
}

#[via_fn]
proof fn form_pairs_terminates(query: Seq<char>) {
    lemma_find_bounds(query, '&');
}

/// The names and values that a backend is to read: the resource as the
/// `resource`, then each relation type as a `rel`, in order.
pub open spec fn asked(resource: Seq<char>, rels: Seq<Seq<char>>) -> Seq<(Seq<u8>, Seq<u8>)> {
    seq![(vstd::utf8::encode_utf8("resource"@), vstd::utf8::encode_utf8(resource))]
        + rels.map_values(
        |rel: Seq<char>| (vstd::utf8::encode_utf8("rel"@), vstd::utf8::encode_utf8(rel)),
    )
}

proof fn lemma_find_bounds(text: Seq<char>, c: char)
    ensures
        0 <= find(text, c) <= text.len(),
    decreases text.len(),
{
    if text.len() > 0 && text[0] != c {
        lemma_find_bounds(text.drop_first(), c);
    }
}

/// A text that does not hold `c` is passed over.
proof fn lemma_find(head: Seq<char>, c: char, tail: Seq<char>)
    requires
        !head.contains(c),
    ensures
        find(head, c) == head.len(),
        find(head + seq![c] + tail, c) == head.len(),
        behind(head + seq![c] + tail, c) == tail,
    decreases head.len(),
{
    let text = head + seq![c] + tail;
    if head.len() == 0 {
        assert(text[0] == c);
    } else {
        assert(head[0] != c);
        let rest = head.drop_first();
        assert forall|i: int| 0 <= i < rest.len() implies rest[i] != c by {
            assert(rest[i] == head[i + 1]);
        }
        lemma_find(rest, c, tail);
        assert(text.drop_first() =~= rest + seq![c] + tail);
        assert(text[0] == head[0]);
    }
    assert(text.skip(head.len() as int + 1) =~= tail);
}

proof fn lemma_pair(name: Seq<char>, value: Seq<char>)
    requires
        !name.contains('='),
    ensures
        form_pair(name + seq!['='] + value) == (form_decoded(name), form_decoded(value)),
{
    lemma_find(name, '=', value);
    assert((name + seq!['='] + value).take(name.len() as int) =~= name);
}

proof fn lemma_pairs_next(piece: Seq<char>, rest: Seq<char>)
    requires
        piece.len() > 0,
        !piece.contains('&'),
    ensures
        form_pairs(piece + seq!['&'] + rest) == seq![form_pair(piece)] + form_pairs(rest),
{
    lemma_find(piece, '&', rest);
    assert((piece + seq!['&'] + rest).take(piece.len() as int) =~= piece);
}

proof fn lemma_pairs_last(piece: Seq<char>)
    requires
        piece.len() > 0,
        !piece.contains('&'),
    ensures
        form_pairs(piece) == seq![form_pair(piece)],
{
    lemma_find(piece, '&', Seq::empty());
    assert(piece.take(piece.len() as int) =~= piece);
}

proof fn lemma_one_ascii(c: char)
    requires
        (c as int) < 0x80,
    ensures
        vstd::utf8::encode_utf8(seq![c]) == seq![c as u8],
{
    let text = seq![c];
    assert(vstd::utf8::is_ascii_chars(text));
    vstd::utf8::is_ascii_chars_encode_utf8(text);
    assert(vstd::utf8::encode_utf8(text) =~= seq![c as u8]);
}

proof fn lemma_decode_form(bytes: Seq<u8>)
    ensures
        form_decoded(url_text::form_bytes(bytes)) == bytes,
        !url_text::form_bytes(bytes).contains('&'),
    decreases bytes.len(),
{
    if bytes.len() > 0 {
        let text = url_text::form_bytes(bytes);
        let rest = url_text::form_bytes(bytes.drop_first());
        let byte = bytes[0];
        lemma_decode_form(bytes.drop_first());
        assert(!url_text::form_byte(byte).contains('&'));
        if url_text::form_plain(byte) {
            lemma_decode_literal(byte, rest);
        } else if byte == 0x20 {
            assert(text.drop_first() =~= rest);
        } else {
            lemma_decode_escape(byte, rest);
        }
        assert(seq![byte] + bytes.drop_first() =~= bytes);
    }
}

/// An escape stands for its byte.
proof fn lemma_decode_escape(byte: u8, rest: Seq<char>)
    ensures
        form_decoded(url_text::percent_escape(byte) + rest) == seq![byte] + form_decoded(rest),
{
    let text = url_text::percent_escape(byte) + rest;
    assert(text.skip(3) =~= rest);
    assert(hex_value(text[1]) == Some(byte as int / 16));
    assert(hex_value(text[2]) == Some(byte as int % 16));
}

/// A character that is no `+` and no `%` stands for itself.
proof fn lemma_decode_literal(byte: u8, rest: Seq<char>)
    requires
        byte < 0x80,
        byte != 0x2b,
        byte != 0x25,
    ensures
        form_decoded(seq![byte as char] + rest) == seq![byte] + form_decoded(rest),
{
    let text = seq![byte as char] + rest;
    assert(text.drop_first() =~= rest);
    lemma_one_ascii(byte as char);
}

/// Whether bytes in a query mean themselves.
spec fn mean_themselves(bytes: Seq<u8>) -> bool {
    forall|i: int|
        0 <= i < bytes.len() ==> #[trigger] bytes[i] != 0x25 && bytes[i] != 0x26 && bytes[i] != 0x2b
}

/// Such bytes are read as they are, and end neither their pair nor the query.
proof fn lemma_decode_bytes(bytes: Seq<u8>, rest: Seq<char>, special: bool)
    requires
        mean_themselves(bytes),
    ensures
        form_decoded(url_text::query_bytes(bytes, special) + rest) == bytes + form_decoded(rest),
        !url_text::query_bytes(bytes, special).contains('&'),
        !url_text::query_bytes(bytes, special).contains('#'),
    decreases bytes.len(),
{
    let text = url_text::query_bytes(bytes, special);
    if bytes.len() == 0 {
        assert(text + rest =~= rest);
        assert(bytes + form_decoded(rest) =~= form_decoded(rest));
    } else {
        let byte = bytes[0];
        let first = url_text::query_byte(byte, special);
        let after = bytes.drop_first();
        let behind = url_text::query_bytes(after, special);
        assert(mean_themselves(after)) by {
            assert forall|i: int| 0 <= i < after.len() implies #[trigger] after[i] != 0x25
                && after[i] != 0x26 && after[i] != 0x2b by {
                assert(after[i] == bytes[i + 1]);
            }
        }
        lemma_decode_bytes(after, rest, special);
        assert(text + rest =~= first + (behind + rest));
        assert(!first.contains('&') && !first.contains('#'));
        if url_text::query_plain(byte, special) {
            lemma_decode_literal(byte, behind + rest);
        } else {
            lemma_decode_escape(byte, behind + rest);
        }
        assert(seq![byte] + (after + form_decoded(rest)) =~= bytes + form_decoded(rest));
    }
}

/// Beyond ASCII no byte of a character is an ASCII byte.
proof fn lemma_beyond_ascii(c: char)
    requires
        c as int >= 0x80,
    ensures
        forall|i: int|
            0 <= i < vstd::utf8::encode_utf8(seq![c]).len() ==> #[trigger] vstd::utf8::encode_utf8(
                seq![c],
            )[i] >= 0x80,
{
    let text = seq![c];
    assert(forall|x: u8| #[trigger] (0x80u8 | x) >= 0x80) by (bit_vector);
    assert(forall|x: u8| #[trigger] (0xC0u8 | x) >= 0x80) by (bit_vector);
    assert(forall|x: u8| #[trigger] (0xE0u8 | x) >= 0x80) by (bit_vector);
    assert(forall|x: u8| #[trigger] (0xF0u8 | x) >= 0x80) by (bit_vector);
    assert(text.drop_first() =~= Seq::empty());
    assert(vstd::utf8::encode_utf8(text.drop_first()) =~= Seq::empty());
    assert(vstd::utf8::encode_utf8(text) =~= vstd::utf8::encode_scalar(c as u32));
}

proof fn lemma_encode_concat(a: Seq<char>, b: Seq<char>)
    ensures
        vstd::utf8::encode_utf8(a + b) == vstd::utf8::encode_utf8(a) + vstd::utf8::encode_utf8(b),
    decreases a.len(),
{
    if a.len() == 0 {
        assert(a + b =~= b);
    } else {
        assert((a + b).drop_first() =~= a.drop_first() + b);
        lemma_encode_concat(a.drop_first(), b);
    }
}

proof fn lemma_query_concat(a: Seq<u8>, b: Seq<u8>, special: bool)
    ensures
        url_text::query_bytes(a + b, special) == url_text::query_bytes(a, special)
            + url_text::query_bytes(b, special),
    decreases a.len(),
{
    if a.len() == 0 {
        assert(a + b =~= b);
    } else {
        assert((a + b).drop_first() =~= a.drop_first() + b);
        lemma_query_concat(a.drop_first(), b, special);
    }
}

/// Whether a query holds every character as it is.
spec fn unescaped(text: Seq<char>) -> bool {
    forall|i: int|
        0 <= i < text.len() ==> 0x21 <= #[trigger] text[i] as int && text[i] as int <= 0x7e
            && url_text::query_plain(text[i] as u8, true)
}

proof fn lemma_query_unescaped(text: Seq<char>, special: bool)
    requires
        unescaped(text),
    ensures
        url_text::query_bytes(vstd::utf8::encode_utf8(text), special) == text,
    decreases text.len(),
{
    if text.len() > 0 {
        let first = seq![text[0]];
        let rest = text.drop_first();
        assert(text =~= first + rest);
        lemma_encode_concat(first, rest);
        lemma_one_ascii(text[0]);
        assert forall|i: int| 0 <= i < rest.len() implies 0x21 <= #[trigger] rest[i] as int
            && rest[i] as int <= 0x7e && url_text::query_plain(rest[i] as u8, true) by {
            assert(rest[i] == text[i + 1]);
        }
        lemma_query_unescaped(rest, special);
        let bytes = vstd::utf8::encode_utf8(text);
        assert(bytes[0] == text[0] as u8);
        assert(bytes.drop_first() =~= vstd::utf8::encode_utf8(rest));
        assert(url_text::query_bytes(bytes, special) =~= text);
    }
}

proof fn lemma_form_bytes_unescaped(bytes: Seq<u8>)
    ensures
        unescaped(url_text::form_bytes(bytes)),
    decreases bytes.len(),
{
    if bytes.len() > 0 {
        lemma_form_bytes_unescaped(bytes.drop_first());
        assert(unescaped(url_text::form_byte(bytes[0])));
    }
}

proof fn lemma_rel_pairs_unescaped(rels: Seq<Seq<char>>)
    ensures
        unescaped(rel_pairs(rels)),
    decreases rels.len(),
{
    if rels.len() > 0 {
        lemma_rel_pairs_unescaped(rels.drop_first());
        lemma_form_bytes_unescaped(vstd::utf8::encode_utf8(rels[0]));
        reveal_strlit("&rel=");
        assert(unescaped("&rel="@));
    }
}

/// Whether a text starts no fragment, and holds nothing that the reading of a
/// URL leaves out.
spec fn visible(text: Seq<char>) -> bool {
    forall|i: int| 0 <= i < text.len() ==> ' ' < #[trigger] text[i] && text[i] != '#'
}

proof fn lemma_unescaped_visible(text: Seq<char>)
    requires
        unescaped(text),
    ensures
        visible(text),
{
    assert forall|i: int| 0 <= i < text.len() implies ' ' < #[trigger] text[i] && text[i] != '#' by {
        assert(0x21 <= text[i] as int && url_text::query_plain(text[i] as u8, true));
    }
}

proof fn lemma_escape_unescaped(byte: u8)
    ensures
        unescaped(url_text::percent_escape(byte)),
{
}

proof fn lemma_escaped_visible(text: Seq<char>)
    ensures
        visible(escaped(text)),
    decreases text.len(),
{
    if text.len() > 0 {
        lemma_escaped_visible(text.drop_first());
        if means_more(text[0]) {
            lemma_escape_unescaped(text[0] as u8);
            lemma_unescaped_visible(escaped_char(text[0]));
        }
        assert(visible(escaped_char(text[0])));
    }
}

/// Whatever the resource, the query for it is all query.
pub proof fn lemma_all_query(resource: Seq<char>, rels: Seq<Seq<char>>)
    ensures
        url_text::all_query(query_text(resource, rels)),
{
    reveal_strlit("resource=");
    assert(unescaped("resource="@));
    lemma_unescaped_visible("resource="@);
    lemma_escaped_visible(resource);
    lemma_rel_pairs_unescaped(rels);
    lemma_unescaped_visible(rel_pairs(rels));
    let query = query_text(resource, rels);
    assert(visible(query));
    assert(query[query.len() - 1] > ' ');
}

/// A text without `+` and `%` stands for its own bytes.
proof fn lemma_decode_plain(text: Seq<char>)
    requires
        !text.contains('+'),
        !text.contains('%'),
    ensures
        form_decoded(text) == vstd::utf8::encode_utf8(text),
    decreases text.len(),
{
    if text.len() > 0 {
        let rest = text.drop_first();
        assert(text[0] != '+' && text[0] != '%');
        assert forall|i: int| 0 <= i < rest.len() implies rest[i] != '+' && rest[i] != '%' by {
            assert(rest[i] == text[i + 1]);
        }
        lemma_decode_plain(rest);
        assert(text =~= seq![text[0]] + rest);
        lemma_encode_concat(seq![text[0]], rest);
    }
}

/// Behind a pair, each relation type is read as one more.
proof fn lemma_rels_read(piece: Seq<char>, rels: Seq<Seq<char>>)
    requires
        piece.len() > 0,
        !piece.contains('&'),
    ensures
        form_pairs(piece + rel_pairs(rels)) == seq![form_pair(piece)] + rels.map_values(
            |rel: Seq<char>| (vstd::utf8::encode_utf8("rel"@), vstd::utf8::encode_utf8(rel)),
        ),
    decreases rels.len(),
{
    let f = |rel: Seq<char>| (vstd::utf8::encode_utf8("rel"@), vstd::utf8::encode_utf8(rel));
    if rels.len() == 0 {
        assert(piece + rel_pairs(rels) =~= piece);
        lemma_pairs_last(piece);
        assert(seq![form_pair(piece)] + rels.map_values(f) =~= seq![form_pair(piece)]);
    } else {
        let rest = rels.drop_first();
        let value = url_text::form_encoded(rels[0]);
        let next = "rel"@ + seq!['='] + value;
        reveal_strlit("&rel=");
        reveal_strlit("rel");
        assert(piece + rel_pairs(rels) =~= piece + seq!['&'] + (next + rel_pairs(rest)));
        lemma_decode_form(vstd::utf8::encode_utf8(rels[0]));
        lemma_pair("rel"@, value);
        lemma_decode_plain("rel"@);
        assert(!next.contains('&'));
        lemma_pairs_next(piece, next + rel_pairs(rest));
        lemma_rels_read(next, rest);
        assert(rels.map_values(f) =~= seq![f(rels[0])] + rest.map_values(f));
    }
}

proof fn lemma_before_query(url: Seq<char>)
    ensures
        !url_text::before_query(url).contains('?'),
    decreases url.len(),
{
    if url.len() > 0 && url[0] != '?' && url[0] != '#' {
        lemma_before_query(url.drop_first());
        assert(!seq![url[0]].contains('?'));
    }
}

/// What a URL holds of a resource is read as the resource, and ends neither its
/// pair nor the query.
proof fn lemma_resource_read(resource: Seq<char>, special: bool)
    ensures
        ({
            let value = url_text::query_bytes(
                vstd::utf8::encode_utf8(escaped(resource)),
                special,
            );
            &&& form_decoded(value) == vstd::utf8::encode_utf8(resource)
            &&& !value.contains('&')
            &&& !value.contains('#')
        }),
    decreases resource.len(),
{
    if resource.len() > 0 {
        let c = resource[0];
        let rest = resource.drop_first();
        let first = vstd::utf8::encode_utf8(escaped_char(c));
        let after = vstd::utf8::encode_utf8(escaped(rest));
        let value = url_text::query_bytes(after, special);
        lemma_resource_read(rest, special);
        assert(resource =~= seq![c] + rest);
        lemma_encode_concat(seq![c], rest);
        lemma_encode_concat(escaped_char(c), escaped(rest));
        lemma_query_concat(first, after, special);
        if means_more(c) {
            lemma_one_ascii(c);
            lemma_escape_unescaped(c as u8);
            lemma_query_unescaped(escaped_char(c), special);
            lemma_decode_escape(c as u8, value);
            assert(!escaped_char(c).contains('&') && !escaped_char(c).contains('#'));
        } else {
            if (c as int) < 0x80 {
                lemma_one_ascii(c);
            } else {
                lemma_beyond_ascii(c);
            }
            assert(mean_themselves(first));
            lemma_decode_bytes(first, value, special);
        }
    }
}

/// What a URL holds of the query for a resource: only the resource is touched.
proof fn lemma_query_held(resource: Seq<char>, rels: Seq<Seq<char>>, special: bool)
    ensures
        url_text::query_bytes(vstd::utf8::encode_utf8(query_text(resource, rels)), special)
            == "resource="@ + url_text::query_bytes(
            vstd::utf8::encode_utf8(escaped(resource)),
            special,
        ) + rel_pairs(rels),
{
    let head = "resource="@ + escaped(resource);
    reveal_strlit("resource=");
    assert(unescaped("resource="@));
    lemma_query_unescaped("resource="@, special);
    lemma_rel_pairs_unescaped(rels);
    lemma_query_unescaped(rel_pairs(rels), special);
    lemma_encode_concat("resource="@, escaped(resource));
    lemma_encode_concat(head, rel_pairs(rels));
    lemma_query_concat(
        vstd::utf8::encode_utf8("resource="@),
        vstd::utf8::encode_utf8(escaped(resource)),
        special,
    );
    lemma_query_concat(
        vstd::utf8::encode_utf8(head),
        vstd::utf8::encode_utf8(rel_pairs(rels)),
        special,
    );
}

/// What is read out of the query for a resource, as a URL holds it.
proof fn lemma_pairs_read(resource: Seq<char>, rels: Seq<Seq<char>>, special: bool)
    ensures
        ({
            let query = url_text::query_bytes(
                vstd::utf8::encode_utf8(query_text(resource, rels)),
                special,
            );
            &&& form_pairs(query) == asked(resource, rels)
            &&& !query.contains('#')
        }),
{
    let value = url_text::query_bytes(vstd::utf8::encode_utf8(escaped(resource)), special);
    let piece = "resource"@ + seq!['='] + value;
    reveal_strlit("resource=");
    reveal_strlit("resource");
    lemma_query_held(resource, rels, special);
    assert("resource="@ + value + rel_pairs(rels) =~= piece + rel_pairs(rels));
    lemma_resource_read(resource, special);
    lemma_pair("resource"@, value);
    lemma_decode_plain("resource"@);
    assert(!"resource"@.contains('&'));
    assert(!piece.contains('&'));
    lemma_rels_read(piece, rels);
    lemma_rel_pairs_unescaped(rels);
    lemma_unescaped_visible(rel_pairs(rels));
    assert(!rel_pairs(rels).contains('#'));
    assert(!piece.contains('#'));
}

/// A backend that reads its query as a form finds there the resource and the
/// relation types of the query that is being answered, and nothing else,
/// whatever characters they hold.
pub proof fn law_backend_is_asked(
    url: Seq<char>,
    endpoint: Seq<char>,
    resource: Seq<char>,
    rels: Seq<Seq<char>>,
)
    ensures
        url_text::has_query(url, endpoint, query_text(resource, rels)) ==> form_pairs(query_of(url))
            == asked(resource, rels),
{
    if url_text::has_query(url, endpoint, query_text(resource, rels)) {
        let base = url_text::url_parsed(endpoint)->0;
        let special = choose|special: bool|
            url == url_text::before_query(base) + seq!['?'] + #[trigger] url_text::query_bytes(
                vstd::utf8::encode_utf8(query_text(resource, rels)),
                special,
            );
        let query = url_text::query_bytes(
            vstd::utf8::encode_utf8(query_text(resource, rels)),
            special,
        );
        lemma_pairs_read(resource, rels, special);
        lemma_before_query(base);
        lemma_find(url_text::before_query(base), '?', query);
        lemma_find(query, '#', Seq::empty());
        assert(query.take(query.len() as int) =~= query);
    }
}

proof fn lemma_escaped_stays(text: Seq<char>)
    requires
        forall|i: int|
            0 <= i < text.len() ==> #[trigger] text[i] > ' ' && text[i] != '#' && text[i] != '%'
                && text[i] != '&' && text[i] != '+',
    ensures
        escaped(text) == text,
    decreases text.len(),
{
    if text.len() > 0 {
        let rest = text.drop_first();
        assert(text[0] > ' ');
        assert forall|i: int| 0 <= i < rest.len() implies #[trigger] rest[i] > ' ' && rest[i] != '#'
            && rest[i] != '%' && rest[i] != '&' && rest[i] != '+' by {
            assert(rest[i] == text[i + 1]);
        }
        lemma_escaped_stays(rest);
        assert(seq![text[0]] + rest =~= text);
    }
}

/// A resource of nothing but characters that mean themselves goes out as it is,
/// and alone where no relation type is asked for.
pub proof fn law_plain_resource_goes_out_as_it_is(resource: Seq<char>)
    requires
        forall|i: int|
            0 <= i < resource.len() ==> #[trigger] resource[i] > ' ' && resource[i] != '#'
                && resource[i] != '%' && resource[i] != '&' && resource[i] != '+',
    ensures
        query_text(resource, Seq::empty()) == "resource="@ + resource,
{
    lemma_escaped_stays(resource);
    assert(query_text(resource, Seq::empty()) =~= "resource="@ + resource);
}

} // verus!
