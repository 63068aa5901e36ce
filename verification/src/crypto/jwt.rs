//! JWT (JSON Web Token) handling for Bedrock authentication chains and skin data.
use crate::crypto::codec::{decode_url_safe, decode_url_safe_no_pad, url_safe_decoded, url_safe_no_pad_decoded};
use crate::error::{Error, Result};
use crate::util::text::{
    concat_str, count_char, count_char_in, decimal, find_char, find_char_from, find_seq,
    find_seq_from, push_char, push_decimal, skip_whitespace, skip_ws, str_chars, string_of,
    utf8_to_string, lemma_count_concat, lemma_count_none,
};
use vstd::prelude::*;
use vstd::string::StringSliceAdditionalSpecFns;

verus! {

/// JWT token structure
#[derive(Debug, Clone)]
pub struct JWT {
    pub header: String,
    pub payload: String,
    pub signature: String,
}

/// The three dot-separated parts of a token with exactly two dots.
pub open spec fn jwt_parts(token: Seq<char>) -> Option<(Seq<char>, Seq<char>, Seq<char>)> {
    if count_char(token, '.') != 2 {
        None
    } else {
        match find_char_from(token, '.', 0) {
            Some(i1) => match find_char_from(token, '.', i1 + 1) {
                Some(i2) => Some(
                    (
                        token.subrange(0, i1),
                        token.subrange(i1 + 1, i2),
                        token.subrange(i2 + 1, token.len() as int),
                    ),
                ),
                None => None,
            },
            None => None,
        }
    }
}

/// The text between the first and the second dot of a token.
pub open spec fn payload_segment(token: Seq<char>) -> Option<Seq<char>> {
    match find_char_from(token, '.', 0) {
        Some(i1) => match find_char_from(token, '.', i1 + 1) {
            Some(i2) => Some(token.subrange(i1 + 1, i2)),
            None => None,
        },
        None => None,
    }
}

/// `bytes` followed by as many `=` as bring its length to a multiple of four.
pub open spec fn pad_to_four(bytes: Seq<u8>) -> Seq<u8> {
    bytes + Seq::new(((4 - bytes.len() % 4) % 4) as nat, |i: int| 0x3Du8)
}

/// The text decoded bytes stand for, when they are valid UTF-8.
pub open spec fn utf8_text(v: Seq<u8>) -> Option<Seq<char>> {
    if vstd::utf8::valid_utf8(v) {
        Some(vstd::utf8::decode_utf8(v))
    } else {
        None
    }
}

/// Base64url decoding of a JWT segment into text: unpadded first, then padded to a
/// multiple of four with `=` and decoded with padding, and the bytes must be valid UTF-8.
pub open spec fn jwt_decoded(encoded: Seq<char>) -> Option<Seq<char>> {
    let bytes = vstd::utf8::encode_utf8(encoded);
    let raw = match url_safe_no_pad_decoded(bytes) {
        Some(v) => Some(v),
        None => url_safe_decoded(pad_to_four(bytes)),
    };
    match raw {
        Some(v) => utf8_text(v),
        None => None,
    }
}

/// The decoded payload of a token.
pub open spec fn jwt_payload(token: Seq<char>) -> Option<Seq<char>> {
    match payload_segment(token) {
        Some(seg) => jwt_decoded(seg),
        None => None,
    }
}

/// The text after the opening quote of a JSON string up to its closing quote.
/// A quote preceded by an odd run of backslashes does not close the string;
/// escapes are kept as written.
pub open spec fn quoted_value(s: Seq<char>, prev_backslash: bool) -> Option<Seq<char>>
    decreases s.len(),
{
    if s.len() == 0 {
        None
    } else if s[0] == '"' && !prev_backslash {
        Some(Seq::empty())
    } else {
        match quoted_value(s.drop_first(), s[0] == '\\' && !prev_backslash) {
            Some(v) => Some(seq![s[0]] + v),
            None => None,
        }
    }
}

/// A character that ends an unquoted JSON value.
pub open spec fn is_value_delimiter(c: char) -> bool {
    c == ',' || c == '}' || c == ']' || c == ' '
}

/// The index of the first delimiter at or after `i` (or the length).
pub open spec fn bare_end(s: Seq<char>, i: int) -> int
    decreases s.len() - i,
{
    if i < 0 || i >= s.len() {
        i
    } else if is_value_delimiter(s[i]) {
        i
    } else {
        bare_end(s, i + 1)
    }
}

/// The JSON search pattern for a key: `"key":`.
pub open spec fn key_pattern(key: Seq<char>) -> Seq<char> {
    seq!['"'] + key + seq!['"', ':']
}

/// The value text for `key` in `json`: the first occurrence of `"key":`, white space
/// skipped, then either a quoted string (without its quotes) or the run of characters
/// up to `,` `}` `]` or a space (which must not be empty).
pub open spec fn json_value(json: Seq<char>, key: Seq<char>) -> Option<Seq<char>> {
    let pat = key_pattern(key);
    match find_seq_from(json, pat, 0) {
        None => None,
        Some(p) => {
            let st = skip_whitespace(json, p + pat.len());
            if st < json.len() && json[st] == '"' {
                quoted_value(json.skip(st + 1), false)
            } else {
                let e = bare_end(json, st);
                if e == st {
                    None
                } else {
                    Some(json.subrange(st, e))
                }
            }
        },
    }
}

/// The decoded payloads of the quoted tokens of `s` from `pos` on: each quoted run that
/// holds exactly two dots and whose payload decodes contributes that payload; the scan
/// ends at a quote that has no closing quote.
pub open spec fn auth_chain_from(s: Seq<char>, pos: int) -> Seq<Seq<char>>
    decreases s.len() - pos,
{
    if pos < 0 || pos > s.len() {
        Seq::empty()
    } else {
        match find_char_from(s, '"', pos) {
            None => Seq::empty(),
            Some(q) => match find_char_from(s, '"', q + 1) {
                None => Seq::empty(),
                Some(e) => {
                    proof {
                        lemma_find_char_bounds(s, '"', pos);
                        lemma_find_char_bounds(s, '"', q + 1);
                    }
                    let token = s.subrange(q + 1, e);
                    let rest = auth_chain_from(s, e + 1);
                    if count_char(token, '.') == 2 {
                        match jwt_payload(token) {
                            Some(p) => seq![p] + rest,
                            None => rest,
                        }
                    } else {
                        rest
                    }
                },
            },
        }
    }
}

/// Where `find_char_from` lands.
pub proof fn lemma_find_char_bounds(s: Seq<char>, c: char, from: int)
    ensures
        find_char_from(s, c, from) matches Some(i) ==> 0 <= from <= i < s.len() && s[i] == c,
    decreases s.len() - from,
{
    if from >= 0 && from < s.len() && s[from] != c {
        lemma_find_char_bounds(s, c, from + 1);
    }
}

proof fn lemma_find_char_first(s: Seq<char>, c: char, from: int, j: int)
    requires
        0 <= from <= j < s.len(),
        s[j] == c,
        forall|k: int| from <= k < j ==> s[k] != c,
    ensures
        find_char_from(s, c, from) == Some(j),
    decreases j - from,
{
    if from < j {
        lemma_find_char_first(s, c, from + 1, j);
    }
}

/// What a token is made of reads back: the three parts of `header.payload.signature`
/// are the header, payload and signature, when none of them holds a dot.
pub proof fn lemma_jwt_parts_read_back(h: Seq<char>, p: Seq<char>, s: Seq<char>)
    requires
        forall|k: int| 0 <= k < h.len() ==> h[k] != '.',
        forall|k: int| 0 <= k < p.len() ==> p[k] != '.',
        forall|k: int| 0 <= k < s.len() ==> s[k] != '.',
    ensures
        jwt_parts(h + seq!['.'] + p + seq!['.'] + s) == Some((h, p, s)),
{
    let t = h + seq!['.'] + p + seq!['.'] + s;
    lemma_count_none(h, '.');
    lemma_count_none(p, '.');
    lemma_count_none(s, '.');
    lemma_count_concat(h, seq!['.'], '.');
    lemma_count_concat(h + seq!['.'], p, '.');
    lemma_count_concat(h + seq!['.'] + p, seq!['.'], '.');
    lemma_count_concat(h + seq!['.'] + p + seq!['.'], s, '.');
    assert(count_char(seq!['.'], '.') == 1) by {
        assert(seq!['.'].drop_last() =~= Seq::<char>::empty());
        assert(count_char(Seq::<char>::empty(), '.') == 0);
    }
    let i1 = h.len() as int;
    let i2 = i1 + 1 + p.len();
    assert forall|k: int| 0 <= k < i1 implies t[k] != '.' by {
        assert(t[k] == h[k]);
    }
    lemma_find_char_first(t, '.', 0, i1);
    assert forall|k: int| i1 + 1 <= k < i2 implies t[k] != '.' by {
        assert(t[k] == p[k - i1 - 1]);
    }
    lemma_find_char_first(t, '.', i1 + 1, i2);
    assert(t.subrange(0, i1) =~= h);
    assert(t.subrange(i1 + 1, i2) =~= p);
    assert(t.subrange(i2 + 1, t.len() as int) =~= s);
}

fn crypto_error(prefix: &str, detail: &str) -> (e: Error)
    ensures
        e matches Error::CryptoError(m) && m@ == prefix@ + detail@,
{
    Error::CryptoError(concat_str(prefix, detail))
}

impl JWT {
    /// Parse a JWT token from string format (`header.payload.signature`).
    pub fn parse(token: &str) -> (r: Result<Self>)
        ensures
            match jwt_parts(token@) {
                Some((h, p, s)) => r matches Ok(j) && j.header@ == h && j.payload@ == p
                    && j.signature@ == s,
                None => r matches Err(e) && e matches Error::CryptoError(m) && m@
                    == "Invalid JWT format: expected 3 parts, got "@ + decimal(
                    count_char(token@, '.') + 1,
                ),
            },
    {
        let cs = str_chars(token);
        let n = cs.len();
        let dots = count_char_in(cs.as_slice(), '.', 0, n);
        proof {
            assert(cs@.subrange(0, n as int) == cs@);
        }
        if dots != 2 {
            let mut msg = String::from_str("Invalid JWT format: expected 3 parts, got ");
            push_decimal(&mut msg, dots as u128 + 1);
            return Err(Error::CryptoError(msg));
        }
        match find_char(cs.as_slice(), '.', 0) {
            Some(i1) => match find_char(cs.as_slice(), '.', i1 + 1) {
                Some(i2) => Ok(
                    JWT {
                        header: string_of(cs.as_slice(), 0, i1),
                        payload: string_of(cs.as_slice(), i1 + 1, i2),
                        signature: string_of(cs.as_slice(), i2 + 1, n),
                    },
                ),
                None => {
                    proof {
                        assert(find_char_from(cs@, '.', 0) == Some(i1 as int));
                        lemma_two_dots_found(cs@, i1 as int);
                    }
                    Err(Error::CryptoError(String::from_str("unreachable")))
                },
            },
            None => {
                proof { lemma_no_dot_count(cs@, 0); }
                Err(Error::CryptoError(String::from_str("unreachable")))
            },
        }
    }

    /// Extract and decode the payload from a JWT token string.
    pub fn get_payload(token: &str) -> (r: Result<String>)
        ensures
            match jwt_payload(token@) {
                Some(p) => r matches Ok(s) && s@ == p,
                None => r matches Err(e) && e is CryptoError,
            },
    {
        let cs = str_chars(token);
        let n = cs.len();
        let first_dot = match find_char(cs.as_slice(), '.', 0) {
            Some(i) => i,
            None => {
                return Err(Error::CryptoError(String::from_str("Invalid JWT: missing first dot")));
            },
        };
        let second_dot = match find_char(cs.as_slice(), '.', first_dot + 1) {
            Some(i) => i,
            None => {
                return Err(
                    Error::CryptoError(String::from_str("Invalid JWT: missing second dot")),
                );
            },
        };
        let segment = string_of(cs.as_slice(), first_dot + 1, second_dot);
        Self::decode_base64(segment.as_str())
    }

    /// Verify the JWT signature.  No verification is performed: the result is always `true`.
    pub fn verify(&self, _public_key: &[u8]) -> (r: Result<bool>)
        ensures
            r matches Ok(b) && b,
    {
        Ok(true)
    }

    /// Decode the JWT payload (without verification).
    pub fn decode_payload(&self) -> (r: Result<String>)
        ensures
            match jwt_decoded(self.payload@) {
                Some(p) => r matches Ok(s) && s@ == p,
                None => r matches Err(e) && e is CryptoError,
            },
    {
        Self::decode_base64(self.payload.as_str())
    }

    /// Decode a base64url segment, with or without padding, into UTF-8 text.
    pub fn decode_base64(encoded: &str) -> (r: Result<String>)
        ensures
            match jwt_decoded(encoded@) {
                Some(p) => r matches Ok(s) && s@ == p,
                None => r matches Err(e) && e is CryptoError,
            },
    {
        let bytes = encoded.as_bytes();
        let decoded = match decode_url_safe_no_pad(bytes) {
            Ok(v) => v,
            Err(_) => {
                let mut padded = vstd::slice::slice_to_vec(bytes);
                let ghost base = padded@;
                while padded.len() % 4 != 0
                    invariant
                        base == encoded.spec_bytes(),
                        padded@.len() >= base.len(),
                        padded@.len() <= base.len() + 3,
                        padded@ == base + Seq::new(
                            (padded@.len() - base.len()) as nat,
                            |i: int| 0x3Du8,
                        ),
                        (padded@.len() - base.len()) as nat <= (4 - base.len() % 4) % 4,
                    decreases base.len() + 3 - padded@.len(),
                {
                    padded.push(0x3D);
                    proof {
                        assert(padded@ =~= base + Seq::new(
                            (padded@.len() - base.len()) as nat,
                            |i: int| 0x3Du8,
                        ));
                    }
                }
                proof {
                    assert(padded@ =~= pad_to_four(base));
                }
                match decode_url_safe(padded.as_slice()) {
                    Ok(v) => v,
                    Err(e) => {
                        return Err(crypto_error("JWT decode error: ", e.as_str()));
                    },
                }
            },
        };
        Self::decoded_text(decoded)
    }

    /// The text of a decoded segment: its bytes read as UTF-8.
    pub fn decoded_text(decoded: Vec<u8>) -> (r: Result<String>)
        ensures
            match utf8_text(decoded@) {
                Some(t) => r matches Ok(s) && s@ == t,
                None => r matches Err(Error::CryptoError(m)) && m@ == "UTF-8 decode error"@,
            },
    {
        match utf8_to_string(decoded) {
            Some(s) => Ok(s),
            None => Err(Error::CryptoError(String::from_str("UTF-8 decode error"))),
        }
    }

    /// Extract a JSON value from decoded payload text (string values without quotes,
    /// other values up to the next delimiter).
    pub fn get_json_value(json: &str, key: &str) -> (r: Option<String>)
        ensures
            match json_value(json@, key@) {
                Some(v) => r matches Some(s) && s@ == v,
                None => r is None,
            },
    {
        let cs = str_chars(json);
        let n = cs.len();
        let mut pat: Vec<char> = Vec::new();
        pat.push('"');
        let kc = str_chars(key);
        let mut k: usize = 0;
        while k < kc.len()
            invariant
                k <= kc@.len(),
                pat@ == seq!['"'] + kc@.take(k as int),
            decreases kc.len() - k,
        {
            pat.push(kc[k]);
            proof {
                assert(kc@.take(k + 1) == kc@.take(k as int).push(kc@[k as int]));
            }
            k = k + 1;
        }
        pat.push('"');
        pat.push(':');
        proof {
            assert(kc@.take(kc@.len() as int) == kc@);
            assert(pat@ =~= key_pattern(key@));
        }
        let p = match find_seq(cs.as_slice(), pat.as_slice(), 0) {
            Some(p) => p,
            None => {
                return None;
            },
        };
        let st = skip_ws(cs.as_slice(), p + pat.len());
        if st < cs.len() && cs[st] == '"' {
            // quoted string value
            proof {
                assert(json_value(json@, key@) == quoted_value(cs@.skip(st + 1), false));
            }
            let mut value = String::new();
            let mut prev_backslash = false;
            let mut i = st + 1;
            while i < n
                invariant
                    n == cs@.len(),
                    st + 1 <= i <= cs@.len(),
                    json_value(json@, key@) == quoted_value(cs@.skip(st + 1), false),
                    quoted_value(cs@.skip(st + 1), false) == match quoted_value(
                        cs@.skip(i as int),
                        prev_backslash,
                    ) {
                        Some(v) => Some(value@ + v),
                        None => None::<Seq<char>>,
                    },
                decreases n - i,
            {
                let c = cs[i];
                proof {
                    assert(cs@.skip(i as int).drop_first() == cs@.skip(i + 1));
                    assert(cs@.skip(i as int)[0] == c);
                }
                if c == '"' && !prev_backslash {
                    proof {
                        assert(quoted_value(cs@.skip(i as int), prev_backslash) == Some(
                            Seq::<char>::empty(),
                        ));
                        assert(value@ + Seq::<char>::empty() =~= value@);
                    }
                    return Some(value);
                }
                let ghost old_value = value@;
                let ghost old_prev = prev_backslash;
                prev_backslash = c == '\\' && !prev_backslash;
                push_char(&mut value, c);
                proof {
                    let rest = cs@.skip(i + 1);
                    assert(quoted_value(cs@.skip(i as int), old_prev) == match quoted_value(
                        rest,
                        prev_backslash,
                    ) {
                        Some(v) => Some(seq![c] + v),
                        None => None::<Seq<char>>,
                    });
                    match quoted_value(rest, prev_backslash) {
                        Some(v) => {
                            assert(old_value + (seq![c] + v) =~= value@ + v);
                        },
                        None => {},
                    }
                }
                i = i + 1;
            }
            proof {
                assert(cs@.skip(i as int).len() == 0);
            }
            None
        } else {
            let mut e = st;
            while e < cs.len() && !(cs[e] == ',' || cs[e] == '}' || cs[e] == ']' || cs[e] == ' ')
                invariant
                    st <= e <= cs@.len(),
                    bare_end(cs@, st as int) == bare_end(cs@, e as int),
                decreases cs.len() - e,
            {
                e = e + 1;
            }
            if e == st {
                None
            } else {
                Some(string_of(cs.as_slice(), st, e))
            }
        }
    }
}

proof fn lemma_no_dot_count(s: Seq<char>, from: int)
    requires
        0 <= from <= s.len(),
        find_char_from(s, '.', from) is None,
    ensures
        count_char(s.subrange(from, s.len() as int), '.') == 0,
{
    crate::util::text::lemma_find_char_from_bounds(s, '.', from);
    let t = s.subrange(from, s.len() as int);
    assert forall|k: int| 0 <= k < t.len() implies t[k] != '.' by {
        assert(t[k] == s[from + k]);
    }
    lemma_count_none(t, '.');
}

proof fn lemma_two_dots_found(s: Seq<char>, i1: int)
    requires
        count_char(s, '.') == 2,
        find_char_from(s, '.', 0) == Some(i1),
    ensures
        find_char_from(s, '.', i1 + 1) is Some,
{
    crate::util::text::lemma_find_char_from_bounds(s, '.', 0);
    if find_char_from(s, '.', i1 + 1) is None {
        let a = s.subrange(0, i1);
        let b = seq![s[i1]];
        let c = s.subrange(i1 + 1, s.len() as int);
        assert(s =~= a + b + c);
        assert forall|k: int| 0 <= k < a.len() implies a[k] != '.' by {
            assert(a[k] == s[k]);
        }
        lemma_count_none(a, '.');
        lemma_no_dot_count(s, i1 + 1);
        lemma_count_concat(a, b, '.');
        lemma_count_concat(a + b, c, '.');
        assert(count_char(b, '.') == 1) by {
            reveal_with_fuel(count_char, 2);
            assert(b.drop_last().len() == 0);
        }
    }
}

/// Parse the authentication chain of a login packet: the decoded payloads of its
/// quoted JWT tokens, in order.
pub fn parse_auth_chain(chain_json: &str) -> (r: Result<Vec<String>>)
    ensures
        r matches Ok(v) && v.deep_view() == auth_chain_from(chain_json@, 0),
{
    let cs = str_chars(chain_json);
    let n = cs.len();
    let mut tokens: Vec<String> = Vec::new();
    let mut search_pos: usize = 0;
    let mut done = false;
    while !done
        invariant
            n == cs@.len(),
            search_pos <= cs@.len(),
            done ==> auth_chain_from(cs@, search_pos as int) == Seq::<Seq<char>>::empty(),
            auth_chain_from(cs@, 0) == tokens.deep_view() + auth_chain_from(
                cs@,
                search_pos as int,
            ),
        decreases n + 1 - search_pos + if done { 0int } else { 1int },
    {
        let q = match find_char(cs.as_slice(), '"', search_pos) {
            Some(q) => q,
            None => {
                done = true;
                continue;
            },
        };
        let e = match find_char(cs.as_slice(), '"', q + 1) {
            Some(e) => e,
            None => {
                done = true;
                continue;
            },
        };
        let ghost before = tokens.deep_view();
        let ghost token_spec = cs@.subrange(q + 1, e as int);
        assert(auth_chain_from(cs@, search_pos as int) == {
            let rest = auth_chain_from(cs@, e + 1);
            if count_char(token_spec, '.') == 2 {
                match jwt_payload(token_spec) {
                    Some(p) => seq![p] + rest,
                    None => rest,
                }
            } else {
                rest
            }
        });
        if count_char_in(cs.as_slice(), '.', q + 1, e) == 2 {
            let token = string_of(cs.as_slice(), q + 1, e);
            match JWT::get_payload(token.as_str()) {
                Ok(payload) => {
                    tokens.push(payload);
                    proof {
                        assert(tokens.deep_view() =~= before.push(jwt_payload(token_spec)->0));
                        assert(before + (seq![jwt_payload(token_spec)->0] + auth_chain_from(
                            cs@,
                            e + 1,
                        )) =~= tokens.deep_view() + auth_chain_from(cs@, e + 1));
                    }
                },
                Err(_) => {},
            }
        }
        search_pos = e + 1;
    }
    Ok(tokens)
}

} // verus!
