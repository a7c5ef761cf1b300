use base64::engine::general_purpose::STANDARD;
use base64::Engine;
use crypto_box::aead::Aead;
use crypto_box::Nonce;
use crypto_box::PublicKey;
use crypto_box::SalsaBox;
use crypto_box::SecretKey;
use serde_json::Value;
use wynn_browser::keepassxc;
use wynn_browser::keepassxc::ConnectStep;
use wynn_browser::keepassxc::Handshake;
use wynn_browser::keepassxc::Kpxc;
use wynn_browser::keepassxc::KpxcEntry;
use wynn_browser::keepassxc::KpxcSession;
use wynn_browser::keepassxc::ReadEvent;
use wynn_browser::keepassxc::ReadStep;
use wynn_browser::keepassxc::SavedAssociation;
use wynn_browser::settings;
use wynn_browser::settings::Settings;

const CLIENT: [u8; 32] = [11; 32];
const HOST: [u8; 32] = [22; 32];

fn public(secret: [u8; 32]) -> [u8; 32] {
    *SecretKey::from(secret).public_key().as_bytes()
}

fn text(v: &Value, key: &str) -> String {
    v.get(key).unwrap().as_str().unwrap().to_string()
}

fn following(nonce: &[u8; 24]) -> [u8; 24] {
    keepassxc::increment_nonce(nonce)
}

/// What the host reads in a request: the message in the clear, the sealed one,
/// and its nonce.
fn host_reads(bytes: &[u8], client_public: [u8; 32]) -> (Value, Value, [u8; 24]) {
    let outer: Value = serde_json::from_slice(bytes).unwrap();
    let nonce: [u8; 24] = STANDARD.decode(text(&outer, "nonce")).unwrap().try_into().unwrap();
    let salsa = SalsaBox::new(&PublicKey::from(client_public), &SecretKey::from(HOST));
    let data = STANDARD.decode(text(&outer, "message")).unwrap();
    let plain = salsa.decrypt(&Nonce::from(nonce), data.as_slice()).unwrap();
    (outer, serde_json::from_slice(&plain).unwrap(), nonce)
}

/// A message of the host, sealed with a nonce.
fn host_seals(plain: &str, client_public: [u8; 32], nonce: &[u8; 24]) -> String {
    let salsa = SalsaBox::new(&PublicKey::from(client_public), &SecretKey::from(HOST));
    STANDARD.encode(salsa.encrypt(&Nonce::from(*nonce), plain.as_bytes()).unwrap())
}

fn reply_with(message: &str) -> Vec<u8> {
    format!("{{\"action\":\"x\",\"message\":\"{}\"}}", message).into_bytes()
}

fn session() -> KpxcSession {
    KpxcSession {
        client_secret: CLIENT,
        host_public: public(HOST),
        client_id: "id".to_string(),
        association: SavedAssociation {
            id: "db".to_string(),
            public: "pk".to_string(),
            secret: vec![1],
        },
    }
}

fn connected() -> Kpxc {
    let mut k = Kpxc::new();
    k.set_session(session());
    k
}

#[test]
fn the_socket_is_looked_for() {
    let dir = Some("/run/user/1000".to_string());
    let paths = keepassxc::socket_candidates("/run/user/1000");
    assert_eq!(
        paths,
        vec![
            "/run/user/1000/app/org.keepassxc.KeePassXC/org.keepassxc.KeePassXC.BrowserServer",
            "/run/user/1000/org.keepassxc.KeePassXC.BrowserServer",
        ]
    );
    assert_eq!(keepassxc::socket_path(dir.clone(), &paths), Some(paths[0].clone()));
    assert_eq!(keepassxc::socket_path(dir.clone(), &vec![paths[1].clone()]), Some(paths[1].clone()));
    assert_eq!(keepassxc::socket_path(dir.clone(), &vec![]), None);
    assert_eq!(keepassxc::socket_path(None, &paths), None);
    assert!(keepassxc::is_available(dir.clone(), &paths));
    assert!(!keepassxc::is_available(dir, &vec!["/else".to_string()]));
    assert!(!keepassxc::is_available(None, &paths));
}

fn failure(step: ReadStep) -> String {
    match step {
        ReadStep::Failed(e) => e,
        _ => panic!("did not fail"),
    }
}

#[test]
fn messages_are_read_until_they_are_json() {
    let mut buf: Vec<u8> = vec![];
    let data = |s: &str| ReadEvent::Data(s.as_bytes().to_vec());
    assert!(matches!(keepassxc::read_json(&mut buf, data("{\"a\":")), ReadStep::More));
    assert!(matches!(keepassxc::read_json(&mut buf, data("\"b\"}")), ReadStep::Complete));
    assert_eq!(buf, b"{\"a\":\"b\"}");
    assert!(matches!(keepassxc::read_json(&mut buf, data("{}")), ReadStep::More));
}

#[test]
fn reading_fails_with_the_reason() {
    let mut buf: Vec<u8> = vec![];
    assert_eq!(failure(keepassxc::read_json(&mut buf, ReadEvent::Closed)), "Connection closed");
    assert_eq!(failure(keepassxc::read_json(&mut buf, ReadEvent::TimedOut)), "Read timeout");
    let broken = ReadEvent::Failed("broken pipe".to_string());
    assert_eq!(failure(keepassxc::read_json(&mut buf, broken)), "Socket read: broken pipe");
    buf = b"{\"a\"".to_vec();
    let problem = serde_json::from_slice::<Value>(&buf).unwrap_err();
    assert_eq!(
        failure(keepassxc::read_json(&mut buf, ReadEvent::TimedOut)),
        format!("Incomplete response: {}", problem)
    );
    buf = b"{}".to_vec();
    assert!(matches!(keepassxc::read_json(&mut buf, ReadEvent::TimedOut), ReadStep::Complete));
}

#[test]
fn nonces_count_up() {
    let mut n = [0u8; 24];
    n[0] = 7;
    let next = keepassxc::increment_nonce(&n);
    assert_eq!(next[0], 8);
    assert_eq!(next[1..], n[1..]);
    let mut n = [0u8; 24];
    n[0] = 255;
    n[1] = 255;
    n[2] = 4;
    let next = keepassxc::increment_nonce(&n);
    assert_eq!(next[..4], [0, 0, 5, 0]);
    assert_eq!(keepassxc::increment_nonce(&[255; 24]), [0; 24]);
}

#[test]
fn the_host_reads_what_was_sealed() {
    let nonce = [5u8; 24];
    let (message, sent) =
        keepassxc::encrypt_message_with(b"hello", &public(HOST), &CLIENT, &nonce);
    assert_eq!(STANDARD.decode(&sent).unwrap(), nonce);
    let salsa = SalsaBox::new(&PublicKey::from(public(CLIENT)), &SecretKey::from(HOST));
    let data = STANDARD.decode(&message).unwrap();
    assert_eq!(data.len(), 5 + 16);
    assert_eq!(salsa.decrypt(&Nonce::from(nonce), data.as_slice()).unwrap(), b"hello");
    let (_, a, _) = keepassxc::encrypt_message(b"hello", &public(HOST), &CLIENT);
    let (_, b, _) = keepassxc::encrypt_message(b"hello", &public(HOST), &CLIENT);
    assert_ne!(a, b);
}

#[test]
fn replies_use_the_following_nonce() {
    let nonce = [5u8; 24];
    let sealed = host_seals("{\"a\":1}", public(CLIENT), &following(&nonce));
    assert_eq!(
        keepassxc::decrypt_message(&sealed, &nonce, &public(HOST), &CLIENT),
        Ok(b"{\"a\":1}".to_vec())
    );
    let unreadable = Err("Decryption failed \u{2014} wrong key or corrupt message".to_string());
    let same = host_seals("{}", public(CLIENT), &nonce);
    assert_eq!(keepassxc::decrypt_message(&same, &nonce, &public(HOST), &CLIENT), unreadable);
    assert_eq!(
        keepassxc::decrypt_message(&sealed, &nonce, &public([23; 32]), &CLIENT),
        unreadable
    );
    assert_eq!(keepassxc::decrypt_message("AAAA", &nonce, &public(HOST), &CLIENT), unreadable);
}

#[test]
fn unreadable_messages_tell_why() {
    let nonce = [5u8; 24];
    for bad in ["?", "AAA", "AA==x", " AAAA", "AB=="] {
        let problem = STANDARD.decode(bad).unwrap_err();
        assert_eq!(
            keepassxc::decrypt_message(bad, &nonce, &public(HOST), &CLIENT),
            Err(format!("Base64 decode: {}", problem))
        );
    }
    let sealed = host_seals("no json", public(CLIENT), &following(&nonce));
    let problem = serde_json::from_slice::<Value>(b"no json").unwrap_err();
    assert_eq!(
        keepassxc::decrypt_message(&sealed, &nonce, &public(HOST), &CLIENT),
        Err(format!("JSON parse: {}", problem))
    );
}

#[test]
fn an_association_reads_back() {
    let mut s = Settings::new();
    assert!(keepassxc::load_association(&s).is_none());
    keepassxc::save_association(&mut s, "db", "pk", &[1, 2, 3]);
    let a = keepassxc::load_association(&s).unwrap();
    assert_eq!((a.id.as_str(), a.public.as_str(), a.secret), ("db", "pk", vec![1, 2, 3]));
    assert_eq!(settings::get_setting(&s, "kpxc_id_secret_key"), Some("AQID".to_string()));
    settings::set_setting(&mut s, "kpxc_id_secret_key", "AQI");
    assert!(keepassxc::load_association(&s).is_none());
    settings::set_setting(&mut s, "kpxc_id_secret_key", "AQID");
    settings::set_setting(&mut s, "kpxc_association_id", "");
    assert!(keepassxc::load_association(&s).is_none());
}

fn send(step: ConnectStep) -> (Vec<u8>, u64, Handshake) {
    match step {
        ConnectStep::Send { bytes, timeout_secs, next } => (bytes, timeout_secs, next),
        ConnectStep::Failed(e) => panic!("{}", e),
        ConnectStep::Done(_) => panic!("done too soon"),
    }
}

fn failed(step: ConnectStep) -> String {
    match step {
        ConnectStep::Failed(e) => e,
        _ => panic!("did not fail"),
    }
}

fn start() -> Handshake {
    let path = Some("/s".to_string());
    let (_, step) = keepassxc::connect_with(path, CLIENT, &[1; 24], &[2; 24]).ok().unwrap();
    send(step).2
}

fn key_reply() -> Vec<u8> {
    format!("{{\"success\":\"true\",\"publicKey\":\"{}\"}}", STANDARD.encode(public(HOST)))
        .into_bytes()
}

#[test]
fn connecting_begins_with_the_keys() {
    let path = Some("/s".to_string());
    let (socket, step) = keepassxc::connect_with(path, CLIENT, &[1; 24], &[2; 24]).ok().unwrap();
    assert_eq!(socket, "/s");
    let (bytes, timeout, _) = send(step);
    assert_eq!(timeout, 5);
    let v: Value = serde_json::from_slice(&bytes).unwrap();
    assert_eq!(text(&v, "action"), "change-public-keys");
    assert_eq!(text(&v, "publicKey"), STANDARD.encode(public(CLIENT)));
    assert_eq!(text(&v, "nonce"), STANDARD.encode([2; 24]));
    assert_eq!(text(&v, "clientID"), STANDARD.encode([1; 24]));
    assert_eq!(v.as_object().unwrap().len(), 4);
    let e = keepassxc::connect(None).err().unwrap();
    assert!(e.starts_with("KeePassXC socket not found."));
}

#[test]
fn the_key_exchange_can_fail() {
    let mut s = Settings::new();
    for (reply, error) in [
        ("{\"success\":\"false\"}", "Key exchange rejected by KeePassXC"),
        ("{\"success\":true}", "Key exchange rejected by KeePassXC"),
        ("[]", "Key exchange rejected by KeePassXC"),
        ("{\"success\":\"true\"}", "No publicKey in response"),
        ("{\"success\":\"true\",\"publicKey\":\"?\"}", "Invalid host public key"),
        ("{\"success\":\"true\",\"publicKey\":\"AAAA\"}", "Invalid host public key length"),
    ] {
        let step = keepassxc::continue_connect(start(), &mut s, reply.as_bytes());
        assert_eq!(failed(step), error);
    }
}

#[test]
fn a_new_association_is_made_and_kept() {
    let mut s = Settings::new();
    let step = keepassxc::continue_connect_with(start(), &mut s, &key_reply(), [3; 24], [4; 32]);
    let (bytes, timeout, next) = send(step);
    assert_eq!(timeout, 5);
    let (outer, inner, nonce) = host_reads(&bytes, public(CLIENT));
    assert_eq!(nonce, [3; 24]);
    assert_eq!(text(&outer, "action"), "associate");
    assert_eq!(text(&outer, "clientID"), STANDARD.encode([1; 24]));
    assert_eq!(text(&inner, "action"), "associate");
    assert_eq!(text(&inner, "key"), STANDARD.encode(public(CLIENT)));
    assert_eq!(text(&inner, "idKey"), STANDARD.encode(public([4; 32])));

    let sealed = host_seals("{\"success\":\"true\",\"id\":\"My DB\"}", public(CLIENT), &following(&nonce));
    let step = keepassxc::continue_connect(next, &mut s, &reply_with(&sealed));
    let session = match step {
        ConnectStep::Done(session) => session,
        _ => panic!("not connected"),
    };
    assert_eq!(session.association.id, "My DB");
    assert_eq!(session.association.secret, vec![4; 32]);
    assert_eq!(session.host_public, public(HOST));

    // The next connection asks whether it still holds.
    let step = keepassxc::continue_connect_with(start(), &mut s, &key_reply(), [6; 24], [7; 32]);
    let (bytes, timeout, next) = send(step);
    assert_eq!(timeout, 5);
    let (outer, inner, nonce) = host_reads(&bytes, public(CLIENT));
    assert_eq!(text(&outer, "action"), "test-associate");
    assert_eq!(text(&inner, "id"), "My DB");
    assert_eq!(text(&inner, "key"), STANDARD.encode(public([4; 32])));
    let sealed = host_seals("{\"success\":\"true\"}", public(CLIENT), &following(&nonce));
    let step = keepassxc::continue_connect(next, &mut s, &reply_with(&sealed));
    assert!(matches!(step, ConnectStep::Done(a) if a.association.id == "My DB"));
}

#[test]
fn a_nameless_database_gets_a_name() {
    let mut s = Settings::new();
    let (_, _, next) =
        send(keepassxc::continue_connect_with(start(), &mut s, &key_reply(), [3; 24], [4; 32]));
    let sealed = host_seals("{\"success\":\"true\"}", public(CLIENT), &following(&[3; 24]));
    let step = keepassxc::continue_connect(next, &mut s, &reply_with(&sealed));
    assert!(matches!(step, ConnectStep::Done(a) if a.association.id == "wynn-browser"));
}

#[test]
fn an_association_can_be_denied() {
    let mut s = Settings::new();
    let answer = |s: &mut Settings, reply: &[u8]| {
        let (_, _, next) =
            send(keepassxc::continue_connect_with(start(), s, &key_reply(), [3; 24], [4; 32]));
        failed(keepassxc::continue_connect(next, s, reply))
    };
    assert_eq!(
        answer(&mut s, b"{}"),
        "No message in associate response. User may have denied the request."
    );
    let sealed = host_seals("{\"success\":\"false\"}", public(CLIENT), &following(&[3; 24]));
    assert_eq!(answer(&mut s, &reply_with(&sealed)), "KeePassXC: Association denied");
    let sealed = host_seals("{\"error\":\"locked\"}", public(CLIENT), &following(&[3; 24]));
    assert_eq!(answer(&mut s, &reply_with(&sealed)), "KeePassXC: locked");
    let sealed = host_seals("{\"success\":\"true\"}", public(CLIENT), &[3; 24]);
    assert!(answer(&mut s, &reply_with(&sealed)).starts_with("Decryption failed"));
    assert!(keepassxc::load_association(&s).is_none());
}

#[test]
fn a_stale_association_is_made_anew() {
    let mut s = Settings::new();
    keepassxc::save_association(&mut s, "db", "pk", &[1]);
    let test = |s: &mut Settings| {
        send(keepassxc::continue_connect_with(start(), s, &key_reply(), [3; 24], [4; 32])).2
    };
    let no = host_seals("{\"success\":\"false\"}", public(CLIENT), &following(&[3; 24]));
    for reply in [reply_with(&no), reply_with("AAAA"), b"{\"success\":\"false\"}".to_vec()] {
        let next = test(&mut s);
        let (bytes, timeout, _) = send(keepassxc::continue_connect(next, &mut s, &reply));
        assert_eq!(timeout, 5);
        assert_eq!(text(&host_reads(&bytes, public(CLIENT)).0, "action"), "associate");
    }
    let next = test(&mut s);
    let step = keepassxc::continue_connect(next, &mut s, b"{\"success\":\"true\"}");
    assert!(matches!(step, ConnectStep::Done(a) if a.association.id == "db"));
}

#[test]
fn requests_need_a_connection() {
    let mut k = Kpxc::new();
    assert!(!keepassxc::is_connected(&k));
    assert_eq!(keepassxc::ask_logins(&k, "https://a.example").err().unwrap(), "Not connected");
    assert_eq!(keepassxc::ask_save_login(&k, "u", "n", "p").err().unwrap(), "Not connected");
    assert_eq!(keepassxc::get_logins(&k, &[0; 24], b"{}").err().unwrap(), "Not connected");
    assert_eq!(keepassxc::save_login(&k, &[0; 24], b"{}"), Err("Not connected".to_string()));
    assert!(keepassxc::ensure_connected(&k, None).is_err());
    assert_eq!(
        keepassxc::ensure_connected(&k, Some("/s".to_string())),
        Ok(Some("/s".to_string()))
    );
    k.set_session(session());
    assert!(keepassxc::is_connected(&k));
    assert_eq!(keepassxc::ensure_connected(&k, None), Ok(None));
    keepassxc::disconnect(&mut k);
    assert!(!keepassxc::is_connected(&k));
}

#[test]
fn logins_are_asked_for() {
    let k = connected();
    let (bytes, nonce) = keepassxc::ask_logins(&k, "https://a.example/\"x\"").unwrap();
    let (outer, inner, sent) = host_reads(&bytes, public(CLIENT));
    assert_eq!(sent, nonce);
    assert_eq!(text(&outer, "action"), "get-logins");
    assert_eq!(text(&outer, "clientID"), "id");
    assert_eq!(text(&inner, "action"), "get-logins");
    assert_eq!(text(&inner, "url"), "https://a.example/\"x\"");
    let keys = inner.get("keys").unwrap().as_array().unwrap();
    assert_eq!(keys.len(), 1);
    assert_eq!(text(&keys[0], "id"), "db");
    assert_eq!(text(&keys[0], "key"), "pk");
}

#[test]
fn logins_are_read() {
    let k = connected();
    let nonce = [8u8; 24];
    let plain = "{\"success\":\"true\",\"entries\":[\
        {\"name\":\"A\",\"login\":\"a\",\"password\":\"p\",\"uuid\":\"1\"},\
        {\"login\":\"b\",\"password\":7},\"odd\"]}";
    let sealed = host_seals(plain, public(CLIENT), &following(&nonce));
    let found = keepassxc::get_logins(&k, &nonce, &reply_with(&sealed));
    assert!(keepassxc::has_logins_for(&found));
    let found = found.ok().unwrap();
    assert_eq!(found.len(), 3);
    assert_eq!(
        (found[0].name.as_str(), found[0].login.as_str(), found[0].password.as_str(), found[0].uuid.as_str()),
        ("A", "a", "p", "1")
    );
    assert_eq!((found[1].login.as_str(), found[1].password.as_str()), ("b", ""));
    assert_eq!((found[2].name.as_str(), found[2].login.as_str()), ("", ""));
    let sealed = host_seals("{\"success\":\"true\"}", public(CLIENT), &following(&nonce));
    let none = keepassxc::get_logins(&k, &nonce, &reply_with(&sealed));
    assert!(none.as_ref().ok().unwrap().is_empty());
    assert!(!keepassxc::has_logins_for(&none));
}

#[test]
fn many_logins_keep_their_order() {
    let k = connected();
    let nonce = [8u8; 24];
    let entries: Vec<String> = (0..12).map(|i| format!("{{\"login\":\"u{}\"}}", i)).collect();
    let plain = format!("{{\"success\":\"true\",\"entries\":[{}]}}", entries.join(","));
    let sealed = host_seals(&plain, public(CLIENT), &following(&nonce));
    let found = keepassxc::get_logins(&k, &nonce, &reply_with(&sealed)).ok().unwrap();
    let logins: Vec<String> = found.into_iter().map(|e| e.login).collect();
    let expected: Vec<String> = (0..12).map(|i| format!("u{}", i)).collect();
    assert_eq!(logins, expected);
}

#[test]
fn asking_for_logins_can_fail() {
    let k = connected();
    let nonce = [8u8; 24];
    let error = |reply: &[u8]| {
        let found = keepassxc::get_logins(&k, &nonce, reply);
        assert!(!keepassxc::has_logins_for(&found));
        found.err().unwrap()
    };
    assert_eq!(error(b"{\"error\":\"Database not opened\"}"), "KeePassXC: Database not opened");
    assert_eq!(error(b"{\"error\":\"\"}"), "No message in get-logins response");
    let sealed = |plain: &str| reply_with(&host_seals(plain, public(CLIENT), &following(&nonce)));
    assert_eq!(error(&sealed("{}")), "KeePassXC: No logins found");
    assert_eq!(error(&sealed("{\"error\":\"e\"}")), "KeePassXC: e");
    assert!(error(&reply_with("AAAA")).starts_with("Decryption failed"));
}

#[test]
fn a_login_is_saved() {
    let k = connected();
    let (bytes, nonce) = keepassxc::ask_save_login(&k, "https://a.example", "u", "p\\").unwrap();
    let (outer, inner, sent) = host_reads(&bytes, public(CLIENT));
    assert_eq!(sent, nonce);
    assert_eq!(text(&outer, "action"), "set-login");
    for (key, value) in [
        ("action", "set-login"),
        ("url", "https://a.example"),
        ("submitUrl", "https://a.example"),
        ("id", "db"),
        ("login", "u"),
        ("password", "p\\"),
        ("downloadFavicon", "true"),
    ] {
        assert_eq!(text(&inner, key), value);
    }
    let sealed = |plain: &str| reply_with(&host_seals(plain, public(CLIENT), &following(&nonce)));
    assert_eq!(keepassxc::save_login(&k, &nonce, &sealed("{\"success\":\"true\"}")), Ok(()));
    assert_eq!(keepassxc::save_login(&k, &nonce, b"{}"), Ok(()));
    let error = |reply: &[u8]| keepassxc::save_login(&k, &nonce, reply).unwrap_err();
    assert_eq!(error(&sealed("{}")), "KeePassXC: Save failed");
    assert_eq!(error(&sealed("{\"error\":\"full\"}")), "KeePassXC: full");
    assert_eq!(error(b"{\"error\":\"locked\"}"), "KeePassXC: locked");
    assert!(error(&reply_with("AAAA")).starts_with("Decryption failed"));
}

#[test]
fn the_backend_is_chosen() {
    let mut s = Settings::new();
    let mut k = connected();
    assert_eq!(keepassxc::backend_name(&s), "builtin");
    assert!(!keepassxc::is_active_backend(&s));
    keepassxc::set_backend(&mut k, &mut s, "keepassxc");
    assert!(keepassxc::is_active_backend(&s));
    assert!(keepassxc::is_connected(&k));
    keepassxc::set_backend(&mut k, &mut s, "builtin");
    assert_eq!(keepassxc::backend_name(&s), "builtin");
    assert!(!keepassxc::is_active_backend(&s));
    assert!(!keepassxc::is_connected(&k));
}

#[test]
fn entries_are_filled_in() {
    let entry = KpxcEntry {
        name: String::new(),
        login: "o'neil\n".to_string(),
        password: "a\\b\r".to_string(),
        uuid: String::new(),
    };
    let js = keepassxc::autofill_js_for_entry(&entry);
    assert!(js.contains("var USERNAME = 'o\\'neil\\n';"));
    assert!(js.contains("var PASSWORD = 'a\\\\b\\r';"));
    assert!(js.starts_with("(function() {\n    'use strict';"));
    assert!(js.contains("setTimeout(function() { observer.disconnect(); }, 30000);"));
    assert!(js.ends_with("})();"));
}
