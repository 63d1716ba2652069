//! Registry rules: lookup keys, name normalization, request URLs, and what a
//! registry's answer means.
//!
//! The HTTP requests themselves are made by the application around this
//! library; the status and body of each answer are handed back as text.

use vstd::prelude::*;
use crate::model::Ecosystem;
use crate::text::{chars_of, chars_of_string, push_all, starts_with, string_of, lower_char, to_lower_char};
use crate::package_json::{JsonValue, JsonView, json_document, json_error_text, json_get, json_parse, json_view, member_exec};
use vstd::utf8::encode_utf8;

verus! {

/// One registry lookup: the ecosystem and the normalized package name.
pub type LookupKey = (Ecosystem, String);

/// `s` without its trailing `/` characters.
pub open spec fn strip_trailing_slashes(s: Seq<char>) -> Seq<char>
    decreases s.len(),
{
    if s.len() > 0 && s.last() == '/' {
        strip_trailing_slashes(s.drop_last())
    } else {
        s
    }
}

pub fn trim_trailing_slash(value: &str) -> (r: String)
    ensures
        r@ == strip_trailing_slashes(value@),
{
    let v = chars_of(value);
    let mut n = v.len();
    assert(v@.take(n as int) =~= v@);
    while n > 0 && v[n - 1] == '/'
        invariant
            n <= v@.len(),
            strip_trailing_slashes(value@) == strip_trailing_slashes(v@.take(n as int)),
        decreases n,
    {
        assert(v@.take(n as int).drop_last() =~= v@.take(n - 1));
        n = n - 1;
    }
    let out = crate::text::slice_of(v.as_slice(), 0, n);
    proof {
        assert(v@.take(v@.len() as int) =~= v@);
    }
    string_of(out.as_slice())
}

/// Bytes that stand for themselves in a URL path segment.
pub open spec fn unreserved(b: u8) -> bool {
    ||| 65 <= b <= 90
    ||| 97 <= b <= 122
    ||| 48 <= b <= 57
    ||| b == 45
    ||| b == 46
    ||| b == 95
    ||| b == 126
}

/// Uppercase hexadecimal digit of a value below 16.
pub open spec fn hex_char(n: u8) -> char {
    if n < 10 {
        ((48 + n) as u8) as char
    } else {
        ((55 + n) as u8) as char
    }
}

/// One byte in a path segment: itself when unreserved, else `%XX`.
pub open spec fn encode_byte(b: u8) -> Seq<char> {
    if unreserved(b) {
        seq![b as char]
    } else {
        seq!['%', hex_char(b / 16), hex_char(b % 16)]
    }
}

pub open spec fn encode_bytes(bs: Seq<u8>) -> Seq<char>
    decreases bs.len(),
{
    if bs.len() == 0 {
        seq![]
    } else {
        encode_bytes(bs.drop_last()) + encode_byte(bs.last())
    }
}

fn hex_exec(n: u8) -> (c: char)
    requires
        n < 16,
    ensures
        c == hex_char(n),
{
    if n < 10 {
        (48 + n) as char
    } else {
        (55 + n) as char
    }
}

/// Percent-encodes the UTF-8 bytes of a package name so that it forms a
/// single URL path segment (a scoped npm name keeps its `/` encoded).
pub fn encode_path_segment(value: &str) -> (r: String)
    ensures
        r@ == encode_bytes(encode_utf8(value@)),
{
    let bytes = value.as_bytes();
    let mut out: Vec<char> = Vec::new();
    let mut i: usize = 0;
    while i < bytes.len()
        invariant
            i <= bytes@.len(),
            bytes@ == encode_utf8(value@),
            out@ == encode_bytes(bytes@.take(i as int)),
        decreases bytes.len() - i,
    {
        let b = bytes[i];
        proof {
            assert(bytes@.take(i + 1).drop_last() =~= bytes@.take(i as int));
        }
        if (65 <= b && b <= 90) || (97 <= b && b <= 122) || (48 <= b && b <= 57) || b == 45 || b
            == 46 || b == 95 || b == 126 {
            out.push(b as char);
            assert(out@ =~= encode_bytes(bytes@.take(i as int)) + encode_byte(b));
        } else {
            out.push('%');
            out.push(hex_exec(b / 16));
            out.push(hex_exec(b % 16));
            assert(out@ =~= encode_bytes(bytes@.take(i as int)) + encode_byte(b));
        }
        i = i + 1;
    }
    proof {
        assert(bytes@.take(bytes@.len() as int) =~= bytes@);
    }
    string_of(out.as_slice())
}

/// Python distribution names treat `-`, `_` and `.` alike and ignore ASCII
/// case; npm names are kept as written.
pub open spec fn normalize_char(c: char) -> char {
    if c == '_' || c == '.' {
        '-'
    } else {
        lower_char(c)
    }
}

pub open spec fn spec_normalize(ecosystem: Ecosystem, name: Seq<char>) -> Seq<char> {
    match ecosystem {
        Ecosystem::Python => name.map_values(|c: char| normalize_char(c)),
        Ecosystem::Node => name,
    }
}

/// Normalizes a characters sequence as a lookup name.
pub fn normalize_chars(ecosystem: Ecosystem, name: &[char]) -> (r: Vec<char>)
    ensures
        r@ == spec_normalize(ecosystem, name@),
{
    match ecosystem {
        Ecosystem::Node => crate::text::slice_of(name, 0, name.len()),
        Ecosystem::Python => {
            let mut out: Vec<char> = Vec::new();
            let mut i: usize = 0;
            while i < name.len()
                invariant
                    i <= name@.len(),
                    out@ == name@.take(i as int).map_values(|c: char| normalize_char(c)),
                decreases name.len() - i,
            {
                let c = name[i];
                let m = if c == '_' || c == '.' {
                    '-'
                } else {
                    to_lower_char(c)
                };
                out.push(m);
                i = i + 1;
                assert(out@ =~= name@.take(i as int).map_values(|c: char| normalize_char(c)));
            }
            assert(name@.take(name@.len() as int) =~= name@);
            out
        },
    }
}

/// The name under which a package is looked up in its registry.
pub fn normalize_lookup_name(ecosystem: Ecosystem, name: &str) -> (r: String)
    ensures
        r@ == spec_normalize(ecosystem, name@),
{
    let v = chars_of(name);
    let n = normalize_chars(ecosystem, v.as_slice());
    string_of(n.as_slice())
}

/// Normalizing a name twice changes nothing more than normalizing it once.
pub proof fn normalize_is_idempotent(ecosystem: Ecosystem, name: Seq<char>)
    ensures
        spec_normalize(ecosystem, spec_normalize(ecosystem, name)) == spec_normalize(
            ecosystem,
            name,
        ),
{
    let once = spec_normalize(ecosystem, name);
    assert(spec_normalize(ecosystem, once) =~= once);
}

/// An encoded path segment never holds `/`: every name stays one segment.
pub proof fn encoded_segment_has_no_slash(bs: Seq<u8>)
    ensures
        !encode_bytes(bs).contains('/'),
    decreases bs.len(),
{
    if bs.len() > 0 {
        encoded_segment_has_no_slash(bs.drop_last());
        let b = bs.last();
        let e = encode_byte(b);
        assert(!e.contains('/')) by {
            if unreserved(b) {
                assert(e[0] == b as char);
                assert(b != 47);
            } else {
                assert(b / 16 < 16 && b % 16 < 16);
                assert(e[1] == hex_char(b / 16));
                assert(e[2] == hex_char(b % 16));
            }
        }
        let prev = encode_bytes(bs.drop_last());
        assert forall|i: int| 0 <= i < encode_bytes(bs).len() implies encode_bytes(bs)[i]
            != '/' by {
            if i < prev.len() {
                assert(encode_bytes(bs)[i] == prev[i]);
                assert(prev.contains(prev[i]) ==> prev[i] != '/');
            } else {
                assert(encode_bytes(bs)[i] == e[i - prev.len()]);
                assert(e.contains(e[i - prev.len()]));
            }
        }
    }
}

/// The value of a hexadecimal digit, in either case.
pub open spec fn hex_value(c: char) -> Option<int> {
    let v = c as int;
    if 48 <= v <= 57 {
        Some(v - 48)
    } else if 65 <= v <= 70 {
        Some(v - 55)
    } else if 97 <= v <= 102 {
        Some(v - 87)
    } else {
        None
    }
}

/// Percent-decoding of an ASCII path segment: `%XX` gives the byte `XX`,
/// any other ASCII character gives its own byte; none for a malformed
/// escape or a character outside ASCII.
pub open spec fn percent_decode(s: Seq<char>) -> Option<Seq<u8>>
    decreases s.len(),
{
    if s.len() == 0 {
        Some(seq![])
    } else if s[0] == '%' {
        if s.len() >= 3 && hex_value(s[1]) is Some && hex_value(s[2]) is Some {
            match percent_decode(s.skip(3)) {
                Some(r) => Some(seq![(hex_value(s[1])->0 * 16 + hex_value(s[2])->0) as u8] + r),
                None => None,
            }
        } else {
            None
        }
    } else if (s[0] as int) < 128 {
        match percent_decode(s.skip(1)) {
            Some(r) => Some(seq![(s[0] as int) as u8] + r),
            None => None,
        }
    } else {
        None
    }
}

proof fn lemma_hex_char(n: u8)
    requires
        n < 16,
    ensures
        hex_value(hex_char(n)) == Some(n as int),
        (hex_char(n) as int) < 128,
        hex_char(n) != '%',
{
}

/// Encoding the first byte then the rest is encoding all of them.
proof fn lemma_encode_bytes_front(bs: Seq<u8>)
    requires
        bs.len() > 0,
    ensures
        encode_bytes(bs) == encode_byte(bs[0]) + encode_bytes(bs.drop_first()),
    decreases bs.len(),
{
    if bs.len() > 1 {
        lemma_encode_bytes_front(bs.drop_last());
        assert(bs.drop_last().drop_first() =~= bs.drop_first().drop_last());
        assert(bs.drop_last()[0] == bs[0]);
        assert(bs.drop_first().last() == bs.last());
        assert(encode_byte(bs[0]) + encode_bytes(bs.drop_first().drop_last()) + encode_byte(
            bs.last(),
        ) =~= encode_byte(bs[0]) + (encode_bytes(bs.drop_first().drop_last()) + encode_byte(
            bs.last(),
        )));
    } else {
        assert(bs.drop_last().len() == 0);
        assert(bs.drop_first().len() == 0);
        assert(encode_bytes(bs.drop_first()) =~= Seq::<char>::empty());
        assert(encode_byte(bs[0]) + encode_bytes(bs.drop_first()) =~= encode_byte(bs[0]));
        assert(encode_bytes(bs.drop_last()) =~= Seq::<char>::empty());
        assert(encode_bytes(bs) =~= encode_byte(bs.last()));
    }
}

/// Decoding one encoded byte in front of more text.
proof fn lemma_decode_encoded_byte(b: u8, rest: Seq<char>)
    ensures
        percent_decode(encode_byte(b) + rest) == match percent_decode(rest) {
            Some(r) => Some(seq![b] + r),
            None => None::<Seq<u8>>,
        },
        forall|i: int| 0 <= i < encode_byte(b).len() ==> (#[trigger] encode_byte(b)[i] as int) < 128,
{
    let s = encode_byte(b) + rest;
    if unreserved(b) {
        assert(s[0] == b as char);
        assert(s.skip(1) =~= rest);
        assert(((b as char) as int) as u8 == b);
    } else {
        assert(b / 16 < 16 && b % 16 < 16);
        lemma_hex_char(b / 16);
        lemma_hex_char(b % 16);
        assert(s[0] == '%');
        assert(s[1] == hex_char(b / 16));
        assert(s[2] == hex_char(b % 16));
        assert(s.skip(3) =~= rest);
        assert((b / 16) as int * 16 + (b % 16) as int == b as int);
    }
}

/// An encoded path segment is plain ASCII, and percent-decoding it gives
/// back exactly the bytes that were encoded.
pub proof fn encoded_segment_decodes_back(bs: Seq<u8>)
    ensures
        percent_decode(encode_bytes(bs)) == Some(bs),
        forall|i: int| 0 <= i < encode_bytes(bs).len() ==> (#[trigger] encode_bytes(bs)[i] as int) < 128,
    decreases bs.len(),
{
    if bs.len() == 0 {
        assert(encode_bytes(bs) =~= Seq::<char>::empty());
    } else {
        lemma_encode_bytes_front(bs);
        encoded_segment_decodes_back(bs.drop_first());
        lemma_decode_encoded_byte(bs[0], encode_bytes(bs.drop_first()));
        assert(seq![bs[0]] + bs.drop_first() =~= bs);
        let e = encode_byte(bs[0]);
        let rest = encode_bytes(bs.drop_first());
        assert forall|i: int| 0 <= i < encode_bytes(bs).len() implies (
        #[trigger] encode_bytes(bs)[i] as int) < 128 by {
            if i < e.len() {
                assert(encode_bytes(bs)[i] == e[i]);
            } else {
                assert(encode_bytes(bs)[i] == rest[i - e.len()]);
            }
        }
    }
}

// ---------------------------------------------------------------------------
// Requests and responses
// ---------------------------------------------------------------------------

/// The URL of a package's record: `<base>/<name>/json` on PyPI's JSON API,
/// `<base>/<name>` on an npm registry, the name encoded as one segment.
pub open spec fn spec_registry_url(ecosystem: Ecosystem, base: Seq<char>, name: Seq<char>) -> Seq<
    char,
> {
    let segment = encode_bytes(encode_utf8(name));
    match ecosystem {
        Ecosystem::Python => base + seq!['/'] + segment + "/json"@,
        Ecosystem::Node => base + seq!['/'] + segment,
    }
}

pub fn registry_url(ecosystem: Ecosystem, base: &str, name: &str) -> (r: String)
    ensures
        r@ == spec_registry_url(ecosystem, base@, name@),
{
    let mut u = chars_of(base);
    u.push('/');
    push_all(&mut u, chars_of_string(&encode_path_segment(name)).as_slice());
    match ecosystem {
        Ecosystem::Python => {
            push_all(&mut u, chars_of("/json").as_slice());
        },
        Ecosystem::Node => {},
    }
    string_of(u.as_slice())
}

/// The error a registry's HTTP status means: none for a success (2xx),
/// "not found" for 404, else the status itself (`status` is its text).
pub open spec fn spec_status_error(code: u16, status: Seq<char>) -> Option<Seq<char>> {
    if 200 <= code <= 299 {
        None
    } else if code == 404 {
        Some("registry package not found"@)
    } else {
        Some("registry returned HTTP "@ + status)
    }
}

pub fn status_error(code: u16, status: &str) -> (r: Option<String>)
    ensures
        match r {
            Some(m) => spec_status_error(code, status@) == Some(m@),
            None => spec_status_error(code, status@) is None,
        },
{
    if 200 <= code && code <= 299 {
        None
    } else if code == 404 {
        Some(crate::text::owned("registry package not found"))
    } else {
        let mut m = chars_of("registry returned HTTP ");
        push_all(&mut m, chars_of(status).as_slice());
        Some(string_of(m.as_slice()))
    }
}

/// Where a registry's record names the latest version: `info.version` on
/// PyPI, `dist-tags.latest` on npm.
pub open spec fn version_field_path(ecosystem: Ecosystem) -> (Seq<char>, Seq<char>) {
    match ecosystem {
        Ecosystem::Python => ("info"@, "version"@),
        Ecosystem::Node => ("dist-tags"@, "latest"@),
    }
}

pub open spec fn msg_missing_version(ecosystem: Ecosystem, name: Seq<char>) -> Seq<char> {
    match ecosystem {
        Ecosystem::Python => "PyPI response for "@ + name + " did not include info.version"@,
        Ecosystem::Node => "npm response for "@ + name + " did not include dist-tags.latest"@,
    }
}

/// The latest version a registry record names, or the error saying that
/// the record has none.
pub open spec fn spec_latest_version(ecosystem: Ecosystem, name: Seq<char>, payload: JsonView) -> Result<
    Seq<char>,
    Seq<char>,
> {
    let (outer, inner) = version_field_path(ecosystem);
    match json_get(payload, outer) {
        Some(record) => match json_get(record, inner) {
            Some(JsonView::Str(v)) => Ok(v),
            _ => Err(msg_missing_version(ecosystem, name)),
        },
        None => Err(msg_missing_version(ecosystem, name)),
    }
}

/// `Value::get` on the model.
fn json_get_exec<'a>(v: &'a JsonValue, k: &str) -> (r: Option<&'a JsonValue>)
    ensures
        match r {
            Some(x) => json_get(json_view(*v), k@) == Some(json_view(*x)),
            None => json_get(json_view(*v), k@) is None,
        },
{
    match v {
        JsonValue::Object(ms) => member_exec(ms.as_slice(), chars_of(k).as_slice()),
        _ => None,
    }
}

/// The latest version named by a parsed registry record (`name` is the
/// package's, for the error).
pub fn latest_version(ecosystem: Ecosystem, name: &str, payload: &JsonValue) -> (r: Result<
    String,
    String,
>)
    ensures
        match spec_latest_version(ecosystem, name@, json_view(*payload)) {
            Ok(v) => r matches Ok(s) && s@ == v,
            Err(e) => r matches Err(m) && m@ == e,
        },
{
    let (outer, inner) = match ecosystem {
        Ecosystem::Python => ("info", "version"),
        Ecosystem::Node => ("dist-tags", "latest"),
    };
    let found = match json_get_exec(payload, outer) {
        Some(record) => match json_get_exec(record, inner) {
            Some(JsonValue::Str(v)) => Some(v.clone()),
            _ => None,
        },
        None => None,
    };
    match found {
        Some(v) => Ok(v),
        None => {
            let mut m = match ecosystem {
                Ecosystem::Python => chars_of("PyPI response for "),
                Ecosystem::Node => chars_of("npm response for "),
            };
            push_all(&mut m, chars_of(name).as_slice());
            match ecosystem {
                Ecosystem::Python => push_all(
                    &mut m,
                    chars_of(" did not include info.version").as_slice(),
                ),
                Ecosystem::Node => push_all(
                    &mut m,
                    chars_of(" did not include dist-tags.latest").as_slice(),
                ),
            }
            Err(string_of(m.as_slice()))
        },
    }
}

pub open spec fn msg_decoding() -> Seq<char> {
    "error decoding response body: "@
}

/// Reads a registry's response body: the latest version it names, or why
/// there is none.
pub fn parse_registry_response(ecosystem: Ecosystem, name: &str, body: &str) -> (r: Result<
    String,
    String,
>)
    ensures
        match json_document(body@) {
            None => r matches Err(m) && starts_with(m@, msg_decoding()),
            Some(payload) => match spec_latest_version(ecosystem, name@, payload) {
                Ok(v) => r matches Ok(s) && s@ == v,
                Err(e) => r matches Err(m) && m@ == e,
            },
        },
{
    match json_parse(body) {
        Err(e) => {
            let mut m = chars_of("error decoding response body: ");
            let ghost prefix = m@;
            push_all(&mut m, chars_of_string(&json_error_text(&e)).as_slice());
            assert(m@.take(prefix.len() as int) =~= prefix);
            Err(string_of(m.as_slice()))
        },
        Ok(payload) => latest_version(ecosystem, name, &payload),
    }
}

} // verus!
