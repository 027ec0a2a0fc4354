use devtools_api::claims::Claims;
use devtools_api::token::{AuthError, TokenService};

const HEADER: &str = "eyJ0eXAiOiJKV1QiLCJhbGciOiJIUzI1NiJ9";

fn service() -> TokenService {
    TokenService::new(b"secret".to_vec())
}

fn payload(id: usize, name: &str, exp: usize) -> Vec<u8> {
    format!("{{\"id\":{id},\"name\":\"{name}\",\"exp\":{exp}}}").into_bytes()
}

fn claims_of(bytes: &[u8]) -> Claims {
    let v: serde_json::Value = serde_json::from_slice(bytes).unwrap();
    Claims {
        id: v.get("id").unwrap().as_u64().unwrap() as usize,
        name: v.get("name").unwrap().as_str().unwrap().to_string(),
        exp: v.get("exp").unwrap().as_u64().unwrap() as usize,
    }
}

#[test]
fn sealed_token_has_three_segments() {
    let token = service().seal(b"{}");
    let parts: Vec<&str> = token.split('.').collect();
    assert_eq!(parts.len(), 3);
    assert_eq!(parts[0], HEADER);
    assert_eq!(parts[1], "e30");
    // 32 bytes of HMAC-SHA256 in unpadded base64url
    assert_eq!(parts[2].len(), 43);
}

#[test]
fn open_gives_back_the_payload() {
    let s = service();
    for body in [&b""[..], b"x", b"{\"id\":1}", &payload(1, "alice@example.com", 99)] {
        let token = s.seal(body);
        assert_eq!(s.open(&token), Ok(body.to_vec()));
    }
}

#[test]
fn signature_matches_jsonwebtoken_encode() {
    let mut claims = serde_json::Map::new();
    claims.insert("id".to_string(), serde_json::Value::from(1u64));
    claims.insert("name".to_string(), serde_json::Value::from("alice@example.com"));
    claims.insert("exp".to_string(), serde_json::Value::from(4102444800u64));
    let value = serde_json::Value::Object(claims);
    let key = jsonwebtoken::EncodingKey::from_secret(b"secret");
    let theirs = jsonwebtoken::encode(&jsonwebtoken::Header::default(), &value, &key).unwrap();
    let body = serde_json::to_vec(&value).unwrap();
    let ours = service().seal(&body);
    assert_eq!(ours, theirs);
    assert_eq!(service().open(&theirs), Ok(body));
}

#[test]
fn jsonwebtoken_accepts_a_sealed_token() {
    let body = payload(1, "alice@example.com", 4102444800);
    let token = service().seal(&body);
    let key = jsonwebtoken::DecodingKey::from_secret(b"secret");
    let decoded = jsonwebtoken::decode::<serde_json::Value>(
        &token,
        &key,
        &jsonwebtoken::Validation::default(),
    )
    .unwrap();
    assert_eq!(decoded.claims.get("id").unwrap().as_u64(), Some(1));
}

#[test]
fn any_changed_signature_character_is_invalid() {
    let s = service();
    let token = s.seal(&payload(1, "alice@example.com", 99));
    let start = token.rfind('.').unwrap() + 1;
    for i in start..token.len() {
        let mut bytes = token.clone().into_bytes();
        bytes[i] = if bytes[i] == b'A' { b'B' } else { b'A' };
        let tampered = String::from_utf8(bytes).unwrap();
        assert_eq!(s.open(&tampered), Err(AuthError::Invalid));
        let mut flipped = token.clone().into_bytes();
        flipped[i] ^= 0x01;
        if let Ok(t) = String::from_utf8(flipped) {
            assert_eq!(s.open(&t), Err(AuthError::Invalid));
        }
    }
}

#[test]
fn changed_payload_is_invalid() {
    let s = service();
    let token = s.seal(&payload(1, "alice@example.com", 99));
    let other = s.seal(&payload(2, "alice@example.com", 99));
    let (head, _) = token.rsplit_once('.').unwrap();
    let (_, sig) = other.rsplit_once('.').unwrap();
    assert_eq!(s.open(&format!("{head}.{sig}")), Err(AuthError::Invalid));
}

#[test]
fn another_key_is_invalid() {
    let token = TokenService::new(b"other".to_vec()).seal(b"{}");
    assert_eq!(service().open(&token), Err(AuthError::Invalid));
}

#[test]
fn malformed_tokens_are_invalid() {
    let s = service();
    let token = s.seal(b"{}");
    assert_eq!(s.open(""), Err(AuthError::Invalid));
    assert_eq!(s.open("abc"), Err(AuthError::Invalid));
    assert_eq!(s.open("a.b"), Err(AuthError::Invalid));
    assert_eq!(s.open(&format!("{token}é")), Err(AuthError::Invalid));
    assert_eq!(s.open(&token.replacen(HEADER, "eyJhbGciOiJIUzI1NiIsInR5cCI6IkpXVCJ9", 1)), Err(AuthError::Invalid));
    assert_eq!(s.open(&token.replacen(".e30.", ".e31.", 1)), Err(AuthError::Invalid));
    assert_eq!(s.open(&token.replacen(".e30.", ".e3.", 1)), Err(AuthError::Invalid));
}

#[test]
fn another_algorithm_is_invalid() {
    let key = jsonwebtoken::EncodingKey::from_secret(b"secret");
    let header = jsonwebtoken::Header::new(jsonwebtoken::Algorithm::HS384);
    let token = jsonwebtoken::encode(&header, &serde_json::Value::Object(serde_json::Map::new()), &key).unwrap();
    assert_eq!(service().open(&token), Err(AuthError::Invalid));
}

#[test]
fn issued_claims_round_trip() {
    let s = service();
    let now = 1_700_000_000usize;
    for ttl in [1usize, 60, 1_209_600] {
        let c = Claims::issue(7, "bob".to_string(), ttl, now).unwrap();
        assert_eq!(c.exp, now + ttl);
        let token = s.seal(&payload(c.id, &c.name, c.exp));
        let back = claims_of(&s.open(&token).unwrap()).check_at(now).unwrap();
        assert_eq!((back.id, back.name.as_str(), back.exp), (7, "bob", now + ttl));
    }
}

#[test]
fn zero_lifetime_is_expired() {
    let now = 1_700_000_000usize;
    let c = Claims::issue(1, "a".to_string(), 0, now).unwrap();
    assert_eq!(c.clone().check_at(now).unwrap_err(), AuthError::Expired);
    assert_eq!(c.check_at(now + 5).unwrap_err(), AuthError::Expired);
}

#[test]
fn expiry_is_strict() {
    let c = Claims { id: 1, name: "a".to_string(), exp: 100 };
    assert!(c.clone().check_at(99).is_ok());
    assert_eq!(c.check_at(100).unwrap_err(), AuthError::Expired);
}

#[test]
fn lifetime_that_overflows_is_refused() {
    assert!(Claims::issue(1, "a".to_string(), usize::MAX, 1).is_none());
    assert_eq!(Claims::issue(1, "a".to_string(), usize::MAX - 1, 1).unwrap().exp, usize::MAX);
}

fn b64(bytes: &[u8]) -> String {
    let mut out: Vec<u8> = Vec::new();
    devtools_api::base64url::encode_into(bytes, &mut out);
    String::from_utf8(out).unwrap()
}

fn signed_with_header(header_json: &str, body: &[u8]) -> String {
    let message = format!("{}.{}", b64(header_json.as_bytes()), b64(body));
    let key = jsonwebtoken::EncodingKey::from_secret(b"secret");
    let sig = jsonwebtoken::crypto::sign(message.as_bytes(), &key, jsonwebtoken::Algorithm::HS256).unwrap();
    format!("{message}.{sig}")
}

#[test]
fn header_in_another_key_order_is_accepted() {
    let body = payload(1, "alice@example.com", 99);
    let token = signed_with_header(r#"{"alg":"HS256","typ":"JWT"}"#, &body);
    assert!(!token.starts_with(HEADER));
    assert_eq!(service().open(&token), Ok(body));
}

#[test]
fn header_with_more_fields_is_accepted() {
    let mut header = jsonwebtoken::Header::default();
    header.kid = Some("k1".to_string());
    let mut claims = serde_json::Map::new();
    claims.insert("id".to_string(), serde_json::Value::from(3u64));
    let value = serde_json::Value::Object(claims);
    let key = jsonwebtoken::EncodingKey::from_secret(b"secret");
    let token = jsonwebtoken::encode(&header, &value, &key).unwrap();
    assert_eq!(service().open(&token), Ok(serde_json::to_vec(&value).unwrap()));
}

#[test]
fn header_declaring_another_algorithm_is_invalid() {
    let body = payload(1, "alice@example.com", 99);
    let s = service();
    assert_eq!(s.open(&signed_with_header(r#"{"alg":"HS384","typ":"JWT"}"#, &body)), Err(AuthError::Invalid));
    assert_eq!(s.open(&signed_with_header(r#"{"typ":"JWT"}"#, &body)), Err(AuthError::Invalid));
    assert_eq!(s.open(&signed_with_header("not json", &body)), Err(AuthError::Invalid));
    let token = signed_with_header(r#"{"alg":"HS256"}"#, &body);
    let bad_header = format!("!{}", token);
    assert_eq!(s.open(&bad_header), Err(AuthError::Invalid));
}
