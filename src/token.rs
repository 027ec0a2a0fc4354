//! Signed tokens: `header.payload.signature`, the first two segments base64url text, the last
//! the HMAC-SHA256 of the first two (dot included) under the service's secret.
use vstd::prelude::*;
use vstd::utf8::is_ascii_chars;
use crate::base64url;

verus! {

/// Why a token was turned down.
#[derive(Debug, Clone, Copy, PartialEq, Eq, Structural)]
pub enum AuthError {
    /// Malformed, signed with another key or algorithm, or altered.
    Invalid,
    /// Well signed, but its expiry time has come.
    Expired,
}

/// The base64url HMAC-SHA256 of `message` under `key`, as jsonwebtoken computes it.
pub uninterp spec fn hs256_signature(key: Seq<u8>, message: Seq<u8>) -> Seq<char>;

/// Relies on `jsonwebtoken::crypto::sign` with `Algorithm::HS256`: the base64url text (ASCII)
/// of the HMAC-SHA256 of `message` under `key`; for the HMAC algorithms it always returns `Ok`.
#[verifier::external_body]
fn sign_hs256(message: &[u8], key: &[u8]) -> (r: String)
    ensures
        r@ == hs256_signature(key@, message@),
        is_ascii_chars(r@),
{
    let key = jsonwebtoken::EncodingKey::from_secret(key);
    match jsonwebtoken::crypto::sign(message, &key, jsonwebtoken::Algorithm::HS256) {
        Ok(s) => s,
        Err(_) => String::new(),
    }
}

/// Relies on `jsonwebtoken::crypto::verify` with `Algorithm::HS256`, which signs `message`
/// again with `key` and compares that text with `signature` in constant time.
#[verifier::external_body]
fn verify_hs256(signature: &str, message: &[u8], key: &[u8]) -> (r: bool)
    ensures
        r == (signature@ == hs256_signature(key@, message@)),
{
    let key = jsonwebtoken::DecodingKey::from_secret(key);
    jsonwebtoken::crypto::verify(signature, message, &key, jsonwebtoken::Algorithm::HS256)
        .unwrap_or(false)
}

/// Relies on `String::push`: appends `c`.
#[verifier::external_body]
fn push_char(s: &mut String, c: char)
    ensures
        final(s)@ == old(s)@.push(c),
{
    s.push(c);
}

/// The header `{"typ":"JWT","alg":"HS256"}` as bytes.
pub open spec fn header_json() -> Seq<u8> {
    seq![
        123u8, 34, 116, 121, 112, 34, 58, 34, 74, 87, 84, 34, 44, 34, 97, 108, 103, 34, 58, 34,
        72, 83, 50, 53, 54, 34, 125,
    ]
}

fn header_json_bytes() -> (r: Vec<u8>)
    ensures
        r@ == header_json(),
{
    let r: Vec<u8> = vec![
        123, 34, 116, 121, 112, 34, 58, 34, 74, 87, 84, 34, 44, 34, 97, 108, 103, 34, 58, 34,
        72, 83, 50, 53, 54, 34, 125,
    ];
    assert(r@ =~= header_json());
    r
}

pub open spec fn header_segment() -> Seq<u8> {
    base64url::encode(header_json())
}

/// The name of what `jsonwebtoken::decode_header` makes of a header segment: true where it is
/// base64url of a JSON header whose `alg` is HS256.
pub uninterp spec fn declares_hs256(segment: Seq<char>) -> bool;

/// Relies on `jsonwebtoken::decode_header`: it takes the first of a token's three segments,
/// base64url-decodes it and reads it as a JSON header, failing where either step fails. The
/// segment is handed over as the first of three segments, the other two empty, so the result
/// depends on the segment alone.
#[verifier::external_body]
fn header_declares_hs256(segment: &str) -> (r: bool)
    requires
        forall|i: int| 0 <= i < segment@.len() ==> segment@[i] != '.',
    ensures
        r == declares_hs256(segment@),
{
    match jsonwebtoken::decode_header(&format!("{segment}..")) {
        Ok(header) => header.alg == jsonwebtoken::Algorithm::HS256,
        Err(_) => false,
    }
}

pub open spec fn no_dot(s: Seq<u8>) -> bool {
    forall|j: int| 0 <= j < s.len() ==> s[j] != 46
}

/// What the signature covers: the header and payload segments joined by a dot.
pub open spec fn framed_input(header: Seq<u8>, payload: Seq<u8>) -> Seq<u8> {
    header + seq![46u8] + base64url::encode(payload)
}

/// What the signature of a token that `seal` makes covers.
pub open spec fn signing_input(payload: Seq<u8>) -> Seq<u8> {
    framed_input(header_segment(), payload)
}

pub open spec fn ascii_text(b: Seq<u8>) -> Seq<char> {
    b.map_values(|x: u8| x as char)
}

/// The token with header segment `header` that carries `payload` under `key`.
pub open spec fn framed(key: Seq<u8>, header: Seq<u8>, payload: Seq<u8>) -> Seq<char> {
    ascii_text(framed_input(header, payload)) + seq!['.'] + hs256_signature(
        key,
        framed_input(header, payload),
    )
}

/// The token that `seal` makes for `payload` under `key`.
pub open spec fn sealed(key: Seq<u8>, payload: Seq<u8>) -> Seq<char> {
    framed(key, header_segment(), payload)
}

/// A header segment that is accepted: the one that `seal` writes, or any other that declares
/// HS256.
pub open spec fn header_accepted(header: Seq<u8>) -> bool {
    no_dot(header) && (header == header_segment() || declares_hs256(ascii_text(header)))
}

/// `t` is an ASCII token, with an accepted header, that carries `payload` under `key`.
pub open spec fn opens_to(key: Seq<u8>, t: Seq<char>, payload: Seq<u8>) -> bool {
    is_ascii_chars(t) && exists|h: Seq<u8>| header_accepted(h) && #[trigger] framed(key, h, payload) == t
}

/// What checking `t` under `key` gives: the payload that it carries, or `Invalid`.
pub open spec fn open_result(key: Seq<u8>, t: Seq<char>) -> Result<Seq<u8>, AuthError> {
    if exists|p: Seq<u8>| opens_to(key, t, p) {
        Ok(choose|p: Seq<u8>| opens_to(key, t, p))
    } else {
        Err(AuthError::Invalid)
    }
}

pub open spec fn ascii_bytes(t: Seq<char>) -> Seq<u8> {
    Seq::new(t.len(), |i: int| t[i] as u8)
}

pub proof fn lemma_header_segment_no_dot()
    ensures
        no_dot(header_segment()),
{
    base64url::lemma_encode_alphabet(header_json());
}

/// ASCII text read as bytes and back is the same text.
pub proof fn lemma_ascii_text_bytes(t: Seq<char>)
    requires
        is_ascii_chars(t),
    ensures
        ascii_text(ascii_bytes(t)) == t,
{
    assert forall|i: int| 0 <= i < t.len() implies ascii_text(ascii_bytes(t))[i] == t[i] by {
        vstd::utf8::char_u32_cast(t[i], t[i] as u32);
    }
    assert(ascii_text(ascii_bytes(t)) =~= t);
}

/// Where the dots of a token stand, and what lies between them.
pub proof fn lemma_framed_shape(key: Seq<u8>, header: Seq<u8>, payload: Seq<u8>)
    requires
        no_dot(header),
    ensures
        ({
            let t = framed(key, header, payload);
            let b = ascii_bytes(t);
            let h = header.len() as int;
            let m = base64url::encode(payload).len() as int;
            &&& h + m + 2 <= t.len()
            &&& b.subrange(0, h + 1 + m) == framed_input(header, payload)
            &&& b.subrange(0, h) == header
            &&& b.subrange(h + 1, h + 1 + m) == base64url::encode(payload)
            &&& b[h] == 46
            &&& b[h + 1 + m] == 46
            &&& (forall|j: int| 0 <= j < h ==> b[j] != 46)
            &&& (forall|j: int| h < j < h + 1 + m ==> b[j] != 46)
            &&& t.subrange(h + m + 2, t.len() as int) == hs256_signature(
                key,
                framed_input(header, payload),
            )
        }),
{
    let t = framed(key, header, payload);
    let b = ascii_bytes(t);
    let si = framed_input(header, payload);
    let e = base64url::encode(payload);
    let h = header.len() as int;
    let m = e.len() as int;
    base64url::lemma_encode_alphabet(payload);
    assert forall|j: int| 0 <= j < si.len() implies b[j] == si[j] by {
        assert(t[j] == ascii_text(si)[j]);
    }
    assert(b.subrange(0, h + 1 + m) =~= si);
    assert(b.subrange(0, h) =~= header) by {
        assert forall|j: int| 0 <= j < h implies b[j] == header[j] by {
            assert(si[j] == header[j]);
        }
    }
    assert(b.subrange(h + 1, h + 1 + m) =~= e) by {
        assert forall|j: int| 0 <= j < m implies b[h + 1 + j] == e[j] by {
            assert(si[h + 1 + j] == e[j]);
        }
    }
    assert(b[h] == si[h]);
    assert(t[h + 1 + m] == '.');
    assert forall|j: int| 0 <= j < h implies b[j] != 46 by {
        assert(si[j] == header[j]);
    }
    assert forall|j: int| h < j < h + 1 + m implies b[j] != 46 by {
        assert(si[j] == e[j - h - 1]);
    }
    assert(t.subrange(h + m + 2, t.len() as int) =~= hs256_signature(key, si));
}

/// One token has one header segment and carries one payload.
pub proof fn lemma_framed_injective(
    key: Seq<u8>,
    h1: Seq<u8>,
    p: Seq<u8>,
    h2: Seq<u8>,
    q: Seq<u8>,
)
    requires
        no_dot(h1),
        no_dot(h2),
        framed(key, h1, p) == framed(key, h2, q),
    ensures
        h1 == h2,
        p == q,
{
    lemma_framed_shape(key, h1, p);
    lemma_framed_shape(key, h2, q);
    let b = ascii_bytes(framed(key, h1, p));
    let l1 = h1.len() as int;
    let l2 = h2.len() as int;
    if l1 < l2 {
        assert(b[l1] == 46);
    } else if l2 < l1 {
        assert(b[l2] == 46);
    }
    assert(h1 == b.subrange(0, l1));
    let mp = base64url::encode(p).len() as int;
    let mq = base64url::encode(q).len() as int;
    if mp < mq {
        assert(b[l1 + 1 + mp] == 46);
    } else if mq < mp {
        assert(b[l1 + 1 + mq] == 46);
    }
    base64url::lemma_decode_encode(p);
    base64url::lemma_decode_encode(q);
}

/// Checking a token that `seal` made gives back its payload. (`seal` returns ASCII text.)
pub proof fn lemma_round_trip(key: Seq<u8>, payload: Seq<u8>)
    requires
        is_ascii_chars(sealed(key, payload)),
    ensures
        open_result(key, sealed(key, payload)) == Ok::<Seq<u8>, AuthError>(payload),
{
    let t = sealed(key, payload);
    lemma_header_segment_no_dot();
    assert(header_accepted(header_segment()));
    assert(opens_to(key, t, payload));
    let q = choose|q: Seq<u8>| opens_to(key, t, q);
    let h = choose|h: Seq<u8>| header_accepted(h) && #[trigger] framed(key, h, q) == t;
    lemma_framed_injective(key, header_segment(), payload, h, q);
}

/// Changing any one character of the signature segment of a token makes it `Invalid`.
pub proof fn lemma_tampered_signature(key: Seq<u8>, payload: Seq<u8>, t: Seq<char>, i: int)
    requires
        t.len() == sealed(key, payload).len(),
        signing_input(payload).len() < i < t.len(),
        t[i] != sealed(key, payload)[i],
        forall|j: int| 0 <= j < t.len() && j != i ==> t[j] == sealed(key, payload)[j],
    ensures
        open_result(key, t) == Err::<Seq<u8>, AuthError>(AuthError::Invalid),
{
    let s = sealed(key, payload);
    if exists|q: Seq<u8>| opens_to(key, t, q) {
        let q = choose|q: Seq<u8>| opens_to(key, t, q);
        let h2 = choose|h: Seq<u8>| header_accepted(h) && #[trigger] framed(key, h, q) == t;
        lemma_header_segment_no_dot();
        lemma_framed_shape(key, header_segment(), payload);
        lemma_framed_shape(key, h2, q);
        let bs = ascii_bytes(s);
        let bt = ascii_bytes(t);
        let l = header_segment().len() as int;
        let l2 = h2.len() as int;
        assert(bt[l] == bs[l]);
        if l2 < l {
            assert(bt[l2] == bs[l2]);
        }
        let mp = base64url::encode(payload).len() as int;
        let mq = base64url::encode(q).len() as int;
        assert(bt[l + 1 + mp] == bs[l + 1 + mp]);
        if mq < mp {
            assert(bt[l + 1 + mq] == bs[l + 1 + mq]);
        } else if mp < mq {
            assert(bt[l + 1 + mp] == 46);
        }
        assert(h2 =~= header_segment()) by {
            assert forall|j: int| 0 <= j < l implies h2[j] == header_segment()[j] by {
                assert(bt[j] == bs[j]);
            }
        }
        assert(base64url::encode(q) =~= base64url::encode(payload)) by {
            assert forall|j: int| 0 <= j < mp implies base64url::encode(q)[j]
                == base64url::encode(payload)[j] by {
                assert(bt[l + 1 + j] == bs[l + 1 + j]);
            }
        }
        base64url::lemma_decode_encode(q);
        base64url::lemma_decode_encode(payload);
        assert(t == s);
    }
}

/// The first dot at or after `from`.
fn find_dot(b: &[u8], from: usize) -> (r: Option<usize>)
    requires
        from <= b@.len(),
    ensures
        r matches Some(d) ==> from <= d < b@.len() && b@[d as int] == 46 && forall|j: int|
            from <= j < d ==> b@[j] != 46,
        r is None ==> forall|j: int| from <= j < b@.len() ==> b@[j] != 46,
{
    let mut i = from;
    while i < b.len()
        invariant
            from <= i <= b@.len(),
            forall|j: int| from <= j < i ==> b@[j] != 46,
        decreases b@.len() - i,
    {
        if b[i] == 46 {
            return Some(i);
        }
        i = i + 1;
    }
    None
}

fn bytes_equal(a: &[u8], b: &[u8]) -> (r: bool)
    ensures
        r == (a@ == b@),
{
    if a.len() != b.len() {
        return false;
    }
    let mut i: usize = 0;
    while i < a.len()
        invariant
            a@.len() == b@.len(),
            i <= a@.len(),
            forall|j: int| 0 <= j < i ==> a@[j] == b@[j],
        decreases a@.len() - i,
    {
        if a[i] != b[i] {
            return false;
        }
        i = i + 1;
    }
    assert(a@ =~= b@);
    true
}

/// Issues and checks tokens under one secret, fixed when the service is made.
pub struct TokenService {
    secret: Vec<u8>,
}

impl TokenService {
    pub closed spec fn key(&self) -> Seq<u8> {
        self.secret@
    }

    pub fn new(secret: Vec<u8>) -> (r: TokenService)
        ensures
            r.key() == secret@,
    {
        TokenService { secret }
    }

    /// The token that carries `payload`.
    pub fn seal(&self, payload: &[u8]) -> (token: String)
        ensures
            token@ == sealed(self.key(), payload@),
            is_ascii_chars(token@),
    {
        let header = header_json_bytes();
        let mut input: Vec<u8> = Vec::new();
        base64url::encode_into(header.as_slice(), &mut input);
        input.push(46);
        base64url::encode_into(payload, &mut input);
        assert(input@ =~= signing_input(payload@));
        let signature = sign_hs256(input.as_slice(), self.secret.as_slice());
        let mut token = String::new();
        let n = input.len();
        let mut i: usize = 0;
        while i < n
            invariant
                n == input@.len(),
                i <= n,
                token@ =~= ascii_text(input@.take(i as int)),
            decreases n - i,
        {
            push_char(&mut token, input[i] as char);
            assert(input@.take(i + 1) =~= input@.take(i as int).push(input@[i as int]));
            i = i + 1;
        }
        assert(input@.take(n as int) =~= input@);
        push_char(&mut token, '.');
        token.append(signature.as_str());
        proof {
            broadcast use vstd::utf8::is_ascii_chars_concat;

            base64url::lemma_encode_alphabet(header_json());
            base64url::lemma_encode_alphabet(payload@);
            let text = ascii_text(input@);
            assert(is_ascii_chars(text));
            assert(is_ascii_chars(text + seq!['.']));
            assert(token@ =~= (text + seq!['.']) + signature@);
        }
        token
    }

    /// The payload of `token`, where `token` has an accepted header, a payload segment in
    /// unpadded base64url, and the signature of those two under this service's secret.
    pub fn open(&self, token: &str) -> (r: Result<Vec<u8>, AuthError>)
        ensures
            r matches Ok(p) ==> open_result(self.key(), token@) == Ok::<Seq<u8>, AuthError>(p@),
            r is Err ==> r == Err::<Vec<u8>, AuthError>(AuthError::Invalid) && open_result(
                self.key(),
                token@,
            ) == Err::<Seq<u8>, AuthError>(AuthError::Invalid),
    {
        if !token.is_ascii() {
            return Err(AuthError::Invalid);
        }
        let bytes = token.as_bytes();
        proof {
            broadcast use vstd::string::is_ascii_spec_bytes;

            assert(bytes@ =~= ascii_bytes(token@));
            lemma_ascii_text_bytes(token@);
        }
        let n = bytes.len();
        let d1 = match find_dot(bytes, 0) {
            Some(d) => d,
            None => {
                proof {
                    assert forall|p: Seq<u8>| !opens_to(self.key(), token@, p) by {
                        if opens_to(self.key(), token@, p) {
                            let h = choose|h: Seq<u8>|
                                header_accepted(h) && #[trigger] framed(self.key(), h, p) == token@;
                            lemma_framed_shape(self.key(), h, p);
                            assert(bytes@[h.len() as int] == 46);
                        }
                    }
                }
                return Err(AuthError::Invalid);
            },
        };
        let d2 = match find_dot(bytes, d1 + 1) {
            Some(d) => d,
            None => {
                proof {
                    assert forall|p: Seq<u8>| !opens_to(self.key(), token@, p) by {
                        if opens_to(self.key(), token@, p) {
                            let h = choose|h: Seq<u8>|
                                header_accepted(h) && #[trigger] framed(self.key(), h, p) == token@;
                            lemma_framed_shape(self.key(), h, p);
                            let l = h.len() as int;
                            let m = base64url::encode(p).len() as int;
                            assert(bytes@[l] == 46);
                            assert(bytes@[l + 1 + m] == 46);
                        }
                    }
                }
                return Err(AuthError::Invalid);
            },
        };
        let header = header_json_bytes();
        let mut expected: Vec<u8> = Vec::new();
        base64url::encode_into(header.as_slice(), &mut expected);
        let head = vstd::slice::slice_subrange(bytes, 0, d1);
        let segment = vstd::slice::slice_subrange(bytes, d1 + 1, d2);
        let message = vstd::slice::slice_subrange(bytes, 0, d2);
        let head_text = token.substring_ascii(0, d1);
        let signature = token.substring_ascii(d2 + 1, n);
        proof {
            assert(head_text@ =~= ascii_text(head@));
            assert(message@ =~= head@ + seq![46u8] + segment@);
        }
        let ghost frame = forall|h: Seq<u8>, p: Seq<u8>|
            no_dot(h) && #[trigger] framed(self.key(), h, p) == token@ ==> {
                &&& h == head@
                &&& segment@ == base64url::encode(p)
                &&& message@ == framed_input(h, p)
                &&& signature@ == hs256_signature(self.key(), framed_input(h, p))
            };
        assert(frame) by {
            assert forall|h: Seq<u8>, p: Seq<u8>|
                no_dot(h) && #[trigger] framed(self.key(), h, p) == token@ implies {
                &&& h == head@
                &&& segment@ == base64url::encode(p)
                &&& message@ == framed_input(h, p)
                &&& signature@ == hs256_signature(self.key(), framed_input(h, p))
            } by {
                lemma_framed_shape(self.key(), h, p);
                let l = h.len() as int;
                let m = base64url::encode(p).len() as int;
                assert(bytes@[l] == 46);
                assert(bytes@[l + 1 + m] == 46);
                assert(l == d1);
                assert(l + 1 + m == d2);
                assert(head@ =~= ascii_bytes(token@).subrange(0, l));
                assert(segment@ =~= ascii_bytes(token@).subrange(l + 1, l + 1 + m));
                assert(message@ =~= ascii_bytes(token@).subrange(0, l + 1 + m));
            }
        }
        let accepted = bytes_equal(head, expected.as_slice()) || header_declares_hs256(head_text);
        if !accepted {
            proof {
                assert forall|p: Seq<u8>| !opens_to(self.key(), token@, p) by {
                    if opens_to(self.key(), token@, p) {
                        let h = choose|h: Seq<u8>|
                            header_accepted(h) && #[trigger] framed(self.key(), h, p) == token@;
                        assert(h == head@);
                    }
                }
            }
            return Err(AuthError::Invalid);
        }
        let payload = match base64url::try_decode(segment) {
            Some(p) => p,
            None => {
                proof {
                    assert forall|p: Seq<u8>| !opens_to(self.key(), token@, p) by {
                        if opens_to(self.key(), token@, p) {
                            let h = choose|h: Seq<u8>|
                                header_accepted(h) && #[trigger] framed(self.key(), h, p) == token@;
                            base64url::lemma_decode_encode(p);
                        }
                    }
                }
                return Err(AuthError::Invalid);
            },
        };
        let mut again: Vec<u8> = Vec::new();
        base64url::encode_into(payload.as_slice(), &mut again);
        if !bytes_equal(again.as_slice(), segment) {
            proof {
                assert forall|p: Seq<u8>| !opens_to(self.key(), token@, p) by {
                    if opens_to(self.key(), token@, p) {
                        let h = choose|h: Seq<u8>|
                            header_accepted(h) && #[trigger] framed(self.key(), h, p) == token@;
                        base64url::lemma_decode_encode(p);
                    }
                }
            }
            return Err(AuthError::Invalid);
        }
        if !verify_hs256(signature, message, self.secret.as_slice()) {
            proof {
                assert forall|p: Seq<u8>| !opens_to(self.key(), token@, p) by {
                    if opens_to(self.key(), token@, p) {
                        let h = choose|h: Seq<u8>|
                            header_accepted(h) && #[trigger] framed(self.key(), h, p) == token@;
                        base64url::lemma_decode_encode(p);
                        base64url::lemma_decode_encode(payload@);
                    }
                }
            }
            return Err(AuthError::Invalid);
        }
        proof {
            assert(no_dot(head@));
            assert(header_accepted(head@));
            assert(message@ =~= framed_input(head@, payload@));
            let t = framed(self.key(), head@, payload@);
            assert forall|i: int| 0 <= i < token@.len() implies token@[i] == t[i] by {
                if i < d2 {
                    assert(token@[i] as u8 == message@[i]);
                    vstd::utf8::char_u32_cast(token@[i], token@[i] as u32);
                } else if i > d2 {
                    assert(token@[i] == signature@[i - d2 - 1]);
                } else {
                    assert(token@[i] as u8 == 46);
                }
            }
            assert(token@ =~= t);
            assert(opens_to(self.key(), token@, payload@));
            let q = choose|q: Seq<u8>| opens_to(self.key(), token@, q);
            let h = choose|h: Seq<u8>|
                header_accepted(h) && #[trigger] framed(self.key(), h, q) == token@;
            lemma_framed_injective(self.key(), head@, payload@, h, q);
        }
        Ok(payload)
    }
}

} // verus!
