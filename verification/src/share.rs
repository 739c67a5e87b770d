use vstd::prelude::*;
use vstd::utf8::{encode_utf8, decode_utf8, valid_utf8, encode_scalar};
use crate::text::{chars_of, string_from_chars, push_str, push_all, contains_char, trim, trim_chars};
use crate::jml::{PatternRecord, RecordModel, jml_reading, parse_jml};
use crate::parameter_list::{ParameterList, read_source, no_entries, lookup, without_parameter};
use base64::Engine;
use std::io::Read;

verus! {

// ---------------------------------------------------------------------------------------
// Percent-encoding of shared pattern settings.
// ---------------------------------------------------------------------------------------

/// The characters that stand for themselves in a shared URL: ASCII letters and digits and
/// `-._~=;&`.
pub open spec fn url_safe(c: char) -> bool {
    ||| ('A' <= c && c <= 'Z')
    ||| ('a' <= c && c <= 'z')
    ||| ('0' <= c && c <= '9')
    ||| c == '-' || c == '.' || c == '_' || c == '~' || c == '=' || c == ';' || c == '&'
}

/// The upper-case hexadecimal digit of `d` (0 to 15).
pub open spec fn hex_digit_upper(d: int) -> char {
    if d < 10 {
        (('0' as int) + d) as char
    } else {
        (('A' as int) + d - 10) as char
    }
}

/// `%` and the two upper-case hexadecimal digits of the byte.
pub open spec fn percent_byte(b: u8) -> Seq<char> {
    seq!['%', hex_digit_upper((b / 16) as int), hex_digit_upper((b % 16) as int)]
}

/// Each byte percent-encoded, in order.
pub open spec fn percent_bytes(bs: Seq<u8>) -> Seq<char>
    decreases bs.len(),
{
    if bs.len() == 0 {
        Seq::empty()
    } else {
        percent_byte(bs[0]) + percent_bytes(bs.drop_first())
    }
}

/// A character as it is written in a shared URL: itself when it is safe, else each byte
/// of its UTF-8 encoding percent-encoded.
pub open spec fn url_piece(c: char) -> Seq<char> {
    if url_safe(c) {
        seq![c]
    } else {
        percent_bytes(encode_scalar(c as u32))
    }
}

/// The text as it is written in a shared URL.
pub open spec fn url_encoded(s: Seq<char>) -> Seq<char>
    decreases s.len(),
{
    if s.len() == 0 {
        Seq::empty()
    } else {
        url_piece(s[0]) + url_encoded(s.drop_first())
    }
}

/// An ASCII hexadecimal digit, either case.
pub open spec fn is_hex(c: char) -> bool {
    ('0' <= c && c <= '9') || ('a' <= c && c <= 'f') || ('A' <= c && c <= 'F')
}

/// The value of a hexadecimal digit.
pub open spec fn hex_val(c: char) -> int {
    if '0' <= c && c <= '9' {
        (c as int) - ('0' as int)
    } else if 'a' <= c && c <= 'f' {
        (c as int) - ('a' as int) + 10
    } else {
        (c as int) - ('A' as int) + 10
    }
}

/// The bytes that a URL text stands for, from position `k` on: `%` with two hexadecimal
/// digits is one byte; any other character is its UTF-8 encoding.
pub open spec fn url_bytes_from(cs: Seq<char>, k: int) -> Seq<u8>
    decreases cs.len() - k,
{
    if k < 0 || k >= cs.len() {
        Seq::empty()
    } else if cs[k] == '%' && k + 2 < cs.len() && is_hex(cs[k + 1]) && is_hex(cs[k + 2]) {
        seq![(hex_val(cs[k + 1]) * 16 + hex_val(cs[k + 2])) as u8] + url_bytes_from(cs, k + 3)
    } else {
        encode_scalar(cs[k] as u32) + url_bytes_from(cs, k + 1)
    }
}

/// The bytes that a URL text stands for.
pub open spec fn url_bytes(cs: Seq<char>) -> Seq<u8> {
    url_bytes_from(cs, 0)
}

proof fn lemma_hex_digit_upper(d: int)
    requires
        0 <= d < 16,
    ensures
        is_hex(hex_digit_upper(d)),
        hex_val(hex_digit_upper(d)) == d,
        hex_digit_upper(d) != '%',
{
}

/// The encoding of a character, as `char::encode_utf8` gives it.
fn push_utf8(out: &mut Vec<u8>, c: char)
    ensures
        final(out)@ == old(out)@ + encode_scalar(c as u32),
{
    proof {
        vstd::utf8::char_is_scalar(c);
    }
    let v = c as u32;
    if v <= 0x7F {
        out.push((v & 0x7F) as u8);
    } else if v <= 0x7FF {
        out.push(0xC0 | ((v >> 6) & 0x1F) as u8);
        out.push(0x80 | (v & 0x3F) as u8);
    } else if v <= 0xFFFF {
        out.push(0xE0 | ((v >> 12) & 0x0F) as u8);
        out.push(0x80 | ((v >> 6) & 0x3F) as u8);
        out.push(0x80 | (v & 0x3F) as u8);
    } else {
        out.push(0xF0 | ((v >> 18) & 0x7) as u8);
        out.push(0x80 | ((v >> 12) & 0x3F) as u8);
        out.push(0x80 | ((v >> 6) & 0x3F) as u8);
        out.push(0x80 | (v & 0x3F) as u8);
    }
}

fn is_url_safe(c: char) -> (r: bool)
    ensures
        r == url_safe(c),
{
    ('A' <= c && c <= 'Z') || ('a' <= c && c <= 'z') || ('0' <= c && c <= '9') || c == '-' || c
        == '.' || c == '_' || c == '~' || c == '=' || c == ';' || c == '&'
}

fn hex_upper(d: u8) -> (r: char)
    requires
        d < 16,
    ensures
        r == hex_digit_upper(d as int),
{
    if d < 10 {
        ((48 + d) as u8) as char
    } else {
        ((55 + d) as u8) as char
    }
}

/// Percent-encodes every character that is not safe in a URL (ASCII letters, digits and
/// `-._~=;&` stand for themselves); other characters become their UTF-8 bytes as `%XX`.
pub fn url_encode(input: &str) -> (r: String)
    ensures
        r@ == url_encoded(input@),
{
    let chars = chars_of(input);
    let ghost s = chars@;
    let mut encoded: Vec<char> = Vec::new();
    let mut i: usize = 0;
    assert(s.skip(0) =~= s);
    assert(encoded@ + url_encoded(s.skip(0)) =~= url_encoded(s));
    while i < chars.len()
        invariant
            s == chars@,
            i <= s.len(),
            url_encoded(s) == encoded@ + url_encoded(s.skip(i as int)),
        decreases chars.len() - i,
    {
        let c = chars[i];
        let ghost before = encoded@;
        proof {
            assert(s.skip(i as int)[0] == c);
            assert(s.skip(i as int).drop_first() =~= s.skip(i as int + 1));
        }
        if is_url_safe(c) {
            encoded.push(c);
        } else {
            let mut bytes: Vec<u8> = Vec::new();
            push_utf8(&mut bytes, c);
            assert(bytes@ =~= encode_scalar(c as u32));
            let ghost start = encoded@;
            let mut j: usize = 0;
            assert(bytes@.skip(0) =~= bytes@);
            while j < bytes.len()
                invariant
                    j <= bytes.len(),
                    start + percent_bytes(bytes@) == encoded@ + percent_bytes(
                        bytes@.skip(j as int),
                    ),
                decreases bytes.len() - j,
            {
                let b = bytes[j];
                proof {
                    assert(bytes@.skip(j as int)[0] == b);
                    assert(bytes@.skip(j as int).drop_first() =~= bytes@.skip(j as int + 1));
                }
                encoded.push('%');
                encoded.push(hex_upper(b / 16));
                encoded.push(hex_upper(b % 16));
                j = j + 1;
                assert(start + percent_bytes(bytes@) =~= encoded@ + percent_bytes(
                    bytes@.skip(j as int),
                ));
            }
            assert(bytes@.skip(j as int) =~= Seq::<u8>::empty());
            assert(bytes@.skip(0) =~= bytes@);
            assert(encoded@ =~= before + percent_bytes(bytes@));
        }
        i = i + 1;
        assert(url_encoded(s) =~= encoded@ + url_encoded(s.skip(i as int)));
    }
    assert(s.skip(i as int) =~= Seq::<char>::empty());
    assert(encoded@ =~= url_encoded(input@));
    string_from_chars(&encoded)
}

/// The value of an ASCII hexadecimal digit byte, 0 for any other byte.
fn hex_value(byte: u8) -> (r: u8)
    ensures
        is_hex(byte as char) ==> r == hex_val(byte as char),
        !is_hex(byte as char) ==> r == 0,
{
    if 48 <= byte && byte <= 57 {
        byte - 48
    } else if 97 <= byte && byte <= 102 {
        byte - 97 + 10
    } else if 65 <= byte && byte <= 70 {
        byte - 65 + 10
    } else {
        0
    }
}

fn is_hex_char(c: char) -> (r: bool)
    ensures
        r == is_hex(c),
{
    ('0' <= c && c <= '9') || ('a' <= c && c <= 'f') || ('A' <= c && c <= 'F')
}

/// Reads a UTF-8 byte string into a `String`, through `String::from_utf8`; the error is the
/// standard library's description of the first invalid sequence.
#[verifier::external_body]
fn string_from_utf8(bytes: Vec<u8>) -> (r: Result<String, String>)
    ensures
        match r {
            Ok(s) => valid_utf8(bytes@) && s@ == decode_utf8(bytes@),
            Err(_) => !valid_utf8(bytes@),
        },
{
    match String::from_utf8(bytes) {
        Ok(s) => Ok(s),
        Err(e) => Err(e.to_string()),
    }
}

/// The bytes that a URL text stands for, as a vector.
fn url_text_bytes(chars: &Vec<char>) -> (r: Vec<u8>)
    ensures
        r@ == url_bytes(chars@),
{
    let ghost s = chars@;
    let mut bytes: Vec<u8> = Vec::new();
    let mut k: usize = 0;
    while k < chars.len()
        invariant
            s == chars@,
            k <= s.len(),
            url_bytes(s) == bytes@ + url_bytes_from(s, k as int),
        decreases chars.len() - k,
    {
        let c = chars[k];
        if c == '%' && chars.len() - k > 2 && is_hex_char(chars[k + 1]) && is_hex_char(
            chars[k + 2],
        ) {
            let high = chars[k + 1] as u8;
            let low = chars[k + 2] as u8;
            proof {
                assert(high as char == chars@[k + 1]);
                assert(low as char == chars@[k + 2]);
            }
            let h = hex_value(high);
            let l = hex_value(low);
            let byte: u8 = (h << 4) | l;
            assert(byte == h * 16 + l) by (bit_vector)
                requires
                    h < 16,
                    l < 16,
                    byte == (h << 4) | l,
            ;
            bytes.push(byte);
            k = k + 3;
        } else {
            push_utf8(&mut bytes, c);
            k = k + 1;
        }
    }
    bytes
}

/// Decodes a percent-encoded URL text: `%` with two hexadecimal digits is one byte, any
/// other character stands for its UTF-8 bytes; the bytes must form UTF-8.
pub fn url_decode(input: &str) -> (r: Result<String, String>)
    ensures
        r is Ok <==> valid_utf8(url_bytes(input@)),
        r matches Ok(s) ==> s@ == decode_utf8(url_bytes(input@)),
        r matches Err(m) ==> m@.len() >= "Invalid UTF-8 in shared URL: "@.len() && m@.take(
            "Invalid UTF-8 in shared URL: "@.len() as int,
        ) == "Invalid UTF-8 in shared URL: "@,
{
    let chars = chars_of(input);
    let bytes = url_text_bytes(&chars);
    match string_from_utf8(bytes) {
        Ok(s) => Ok(s),
        Err(e) => {
            let mut msg = chars_of("Invalid UTF-8 in shared URL: ");
            let ghost prefix = msg@;
            let detail = chars_of(e.as_str());
            crate::text::push_all(&mut msg, &detail);
            assert(msg@.take(prefix.len() as int) =~= prefix);
            Err(string_from_chars(&msg))
        },
    }
}

proof fn lemma_url_bytes_shift(p: Seq<char>, t: Seq<char>, j: int)
    requires
        0 <= j <= t.len(),
    ensures
        url_bytes_from(p + t, p.len() + j) == url_bytes_from(t, j),
    decreases t.len() - j,
{
    let x = p + t;
    if j < t.len() {
        assert(x[p.len() + j] == t[j]);
        if p.len() + j + 1 < x.len() {
            assert(x[p.len() + j + 1] == t[j + 1]);
        }
        if p.len() + j + 2 < x.len() {
            assert(x[p.len() + j + 2] == t[j + 2]);
        }
        if t[j] == '%' && j + 2 < t.len() && is_hex(t[j + 1]) && is_hex(t[j + 2]) {
            lemma_url_bytes_shift(p, t, j + 3);
        } else {
            lemma_url_bytes_shift(p, t, j + 1);
        }
    }
}

proof fn lemma_percent_bytes_decode(bs: Seq<u8>, t: Seq<char>)
    ensures
        url_bytes(percent_bytes(bs) + t) == bs + url_bytes(t),
    decreases bs.len(),
{
    if bs.len() == 0 {
        assert(percent_bytes(bs) + t =~= t);
        assert(bs + url_bytes(t) =~= url_bytes(t));
    } else {
        let b = bs[0];
        let rest = percent_bytes(bs.drop_first()) + t;
        let x = percent_byte(b) + rest;
        assert(percent_bytes(bs) + t =~= x);
        lemma_hex_digit_upper((b / 16) as int);
        lemma_hex_digit_upper((b % 16) as int);
        assert(x[0] == '%');
        assert(x[1] == hex_digit_upper((b / 16) as int));
        assert(x[2] == hex_digit_upper((b % 16) as int));
        assert((hex_val(x[1]) * 16 + hex_val(x[2])) as u8 == b);
        lemma_url_bytes_shift(percent_byte(b), rest, 0);
        lemma_percent_bytes_decode(bs.drop_first(), t);
        assert(bs =~= seq![b] + bs.drop_first());
        assert(url_bytes(x) =~= seq![b] + url_bytes(rest));
    }
}

proof fn lemma_url_encoded_bytes(s: Seq<char>)
    ensures
        url_bytes(url_encoded(s)) == encode_utf8(s),
    decreases s.len(),
{
    if s.len() > 0 {
        let c = s[0];
        let t = url_encoded(s.drop_first());
        lemma_url_encoded_bytes(s.drop_first());
        if url_safe(c) {
            let x = seq![c] + t;
            assert(x[0] == c);
            lemma_url_bytes_shift(seq![c], t, 0);
            assert(url_bytes(x) == encode_scalar(c as u32) + url_bytes_from(x, 1));
        } else {
            lemma_percent_bytes_decode(encode_scalar(c as u32), t);
        }
    }
}

/// Decoding what `url_encode` wrote gives back the text.
pub proof fn lemma_url_round_trip(s: Seq<char>)
    ensures
        valid_utf8(url_bytes(url_encoded(s))),
        decode_utf8(url_bytes(url_encoded(s))) == s,
{
    lemma_url_encoded_bytes(s);
    vstd::utf8::encode_utf8_valid_utf8(s);
    vstd::utf8::encode_utf8_decode_utf8(s);
}


// ---------------------------------------------------------------------------------------
// Reading a shared URL: its settings, and a pattern shared as compressed JML.
// ---------------------------------------------------------------------------------------

/// The position of the first `?` from `i` on, or -1.
pub open spec fn first_question(s: Seq<char>, i: int) -> int
    decreases s.len() - i,
{
    if i < 0 || i >= s.len() {
        -1
    } else if s[i] == '?' {
        i
    } else {
        first_question(s, i + 1)
    }
}

/// The query of a URL: what follows its first `?`, or the whole text when it has none.
pub open spec fn url_query(s: Seq<char>) -> Seq<char> {
    let q = first_question(s, 0);
    if q < 0 {
        s
    } else {
        s.subrange(q + 1, s.len() as int)
    }
}

/// The settings of a decoded query: a query without `=` is a bare pattern.
pub open spec fn settings_text(d: Seq<char>) -> Seq<char> {
    if d.contains('=') {
        d
    } else {
        "pattern="@ + d
    }
}

/// The JML payload among the parameters, when it is there and not blank.
pub open spec fn jml_payload(e: Seq<(Seq<char>, Seq<char>)>) -> Option<Seq<char>> {
    match lookup(e, "jml"@) {
        Some(v) => if trim(v).len() > 0 {
            Some(v)
        } else {
            None
        },
        None => None,
    }
}

fn url_query_chars(url: &Vec<char>) -> (r: Vec<char>)
    ensures
        r@ == url_query(url@),
{
    let mut i: usize = 0;
    while i < url.len()
        invariant
            i <= url.len(),
            first_question(url@, 0) == first_question(url@, i as int),
        decreases url.len() - i,
    {
        if url[i] == '?' {
            let mut out: Vec<char> = Vec::new();
            let mut k = i + 1;
            while k < url.len()
                invariant
                    i + 1 <= k <= url.len(),
                    out@ == url@.subrange(i + 1, k as int),
                decreases url.len() - k,
            {
                out.push(url[k]);
                k = k + 1;
                assert(out@ =~= url@.subrange(i + 1, k as int));
            }
            return out;
        }
        i = i + 1;
    }
    url.clone()
}

/// Reads the settings of a shared URL: the query after the first `?` (or the whole text)
/// is percent-decoded, a query without `=` is taken as `pattern=` and the query, and the
/// settings are read as parameters; the `jml` parameter (when not blank) comes back on
/// its own, and the other parameters without it.
pub fn share_settings(url: &str) -> (r: Result<(Option<String>, ParameterList), String>)
    ensures
        !valid_utf8(url_bytes(url_query(url@))) ==> (r matches Err(m) && m@.len() >= "Invalid UTF-8 in shared URL: "@.len()
            && m@.take("Invalid UTF-8 in shared URL: "@.len() as int) == "Invalid UTF-8 in shared URL: "@),
        valid_utf8(url_bytes(url_query(url@))) ==> {
            let (e, err) = read_source(no_entries(), settings_text(decode_utf8(url_bytes(url_query(url@)))));
            match err {
                Some(m) => (r matches Err(x) && x@ == m),
                None => (r matches Ok((j, l)) && l.well_formed() && l@ == without_parameter(e, "jml"@)
                    && match jml_payload(e) {
                    Some(v) => (j matches Some(s) && s@ == v),
                    None => j is None,
                }),
            }
        },
{
    let chars = chars_of(url);
    let query = url_query_chars(&chars);
    let query_text = string_from_chars(&query);
    let decoded = match url_decode(query_text.as_str()) {
        Ok(d) => d,
        Err(m) => {
            return Err(m);
        },
    };
    let dchars = chars_of(decoded.as_str());
    let settings = if contains_char(&dchars, '=') {
        decoded
    } else {
        let mut t = chars_of("pattern=");
        push_all(&mut t, &dchars);
        string_from_chars(&t)
    };
    let mut parameters = match ParameterList::parse(Some(settings.as_str())) {
        Ok(l) => l,
        Err(m) => {
            return Err(m);
        },
    };
    let jml = parameters.remove_parameter("jml");
    let payload = match jml {
        Some(v) => {
            let vc = chars_of(v.as_str());
            let tv = trim_chars(&vc);
            if tv.len() > 0 {
                Some(v)
            } else {
                None
            }
        },
        None => None,
    };
    Ok((payload, parameters))
}

/// What `base64::engine::general_purpose::STANDARD.decode` gives for a text: its bytes, or
/// the text of its error.
pub uninterp spec fn base64_standard_decoded(text: Seq<char>) -> Result<Seq<u8>, Seq<char>>;

/// What reading a gzip stream of the bytes to a string with `flate2::read::GzDecoder`
/// gives: the text, or the text of the input/output error.
pub uninterp spec fn gunzipped_text(bytes: Seq<u8>) -> Result<Seq<char>, Seq<char>>;

/// `base64::engine::general_purpose::STANDARD.decode`; the error as its display text.
#[verifier::external_body]
fn base64_decode(text: &str) -> (r: Result<Vec<u8>, String>)
    ensures
        match r {
            Ok(b) => base64_standard_decoded(text@) == Ok::<Seq<u8>, Seq<char>>(b@),
            Err(e) => base64_standard_decoded(text@) == Err::<Seq<u8>, Seq<char>>(e@),
        },
{
    match base64::engine::general_purpose::STANDARD.decode(text) {
        Ok(bytes) => Ok(bytes),
        Err(error) => Err(format!("{error}")),
    }
}

/// `flate2::read::GzDecoder` read to a string; the error as its display text.
#[verifier::external_body]
fn gzip_decompress(bytes: &Vec<u8>) -> (r: Result<String, String>)
    ensures
        match r {
            Ok(s) => gunzipped_text(bytes@) == Ok::<Seq<char>, Seq<char>>(s@),
            Err(e) => gunzipped_text(bytes@) == Err::<Seq<char>, Seq<char>>(e@),
        },
{
    let mut decoder = flate2::read::GzDecoder::new(bytes.as_slice());
    let mut xml = String::new();
    match decoder.read_to_string(&mut xml) {
        Ok(_) => Ok(xml),
        Err(error) => Err(format!("{error}")),
    }
}

/// A record that can be animated: it names a notation and has a setting or its own JML.
pub open spec fn playable(m: RecordModel) -> bool {
    m.notation is Some && (m.config is Some || m.raw_pattern is Some)
}

/// The first playable record from position `i` on.
pub open spec fn first_playable(recs: Seq<RecordModel>, i: int) -> Option<RecordModel>
    decreases recs.len() - i,
{
    if i < 0 || i >= recs.len() {
        None
    } else if playable(recs[i]) {
        Some(recs[i])
    } else {
        first_playable(recs, i + 1)
    }
}

/// Reads a pattern shared as JML: the payload is Base64 (standard alphabet) of a gzip
/// stream of a JML text, and the first playable record of that text is the pattern.
pub fn decode_shared_jml(payload: &str) -> (r: Result<PatternRecord, String>)
    ensures
        match base64_standard_decoded(payload@) {
            Err(e) => r matches Err(m) && m@ == "Invalid shared JML Base64 data: "@ + e,
            Ok(b) => match gunzipped_text(b) {
                Err(e) => r matches Err(m) && m@ == "Unable to decompress shared JML: "@ + e,
                Ok(xml) => match jml_reading(xml) {
                    Err(e) => r matches Err(m) && m@ == e,
                    Ok(lib) => match first_playable(lib.records, 0) {
                        Some(rec) => r matches Ok(p) && p.model() == rec,
                        None => r matches Err(m) && m@ == "Shared JML does not contain a playable pattern"@,
                    },
                },
            },
        },
{
    let bytes = match base64_decode(payload) {
        Ok(b) => b,
        Err(e) => {
            let mut m = chars_of("Invalid shared JML Base64 data: ");
            push_str(&mut m, e.as_str());
            return Err(string_from_chars(&m));
        },
    };
    let xml = match gzip_decompress(&bytes) {
        Ok(x) => x,
        Err(e) => {
            let mut m = chars_of("Unable to decompress shared JML: ");
            push_str(&mut m, e.as_str());
            return Err(string_from_chars(&m));
        },
    };
    let mut library = match parse_jml(xml.as_str()) {
        Ok(l) => l,
        Err(e) => {
            return Err(e);
        },
    };
    let ghost lm = library.model();
    let ghost models = library.model().records;
    let mut i: usize = 0;
    while i < library.records.len()
        invariant
            i <= library.records.len(),
            base64_standard_decoded(payload@) == Ok::<Seq<u8>, Seq<char>>(bytes@),
            gunzipped_text(bytes@) == Ok::<Seq<char>, Seq<char>>(xml@),
            jml_reading(xml@) == Ok::<crate::jml::LibraryModel, Seq<char>>(lm),
            models == lm.records,
            models == library.model().records,
            first_playable(models, 0) == first_playable(models, i as int),
        decreases library.records.len() - i,
    {
        if library.records[i].is_playable() {
            assert(models[i as int] == library.records@[i as int].model());
            assert(playable(models[i as int]));
            assert(first_playable(models, i as int) == Some(models[i as int]));
            let ghost before = library.records@;
            let record = library.records.remove(i);
            assert(record == before[i as int]);
            return Ok(record);
        }
        assert(models[i as int] == library.records@[i as int].model());
        i = i + 1;
    }
    Err("Shared JML does not contain a playable pattern".to_owned())
}

} // verus!
