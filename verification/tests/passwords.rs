use aes_gcm::aead::Aead;
use aes_gcm::aead::KeyInit;
use aes_gcm::Aes256Gcm;
use aes_gcm::Nonce;
use argon2::Argon2;
use wynn_browser::encoding;
use wynn_browser::passwords;
use wynn_browser::passwords::Passwords;
use wynn_browser::passwords::SavePrompt;
use wynn_browser::passwords::SavedCredential;
use wynn_browser::passwords::StoredCredential;
use wynn_browser::passwords::UnlockAnswer;
use wynn_browser::passwords::UnlockStep;
use wynn_browser::settings;
use wynn_browser::settings::Settings;

const ORIGIN: &str = "https://a.example";

fn unlocked() -> Passwords {
    let mut p = Passwords::new();
    p.set_derived_key([3; 32]);
    p
}

fn copy(r: &StoredCredential) -> StoredCredential {
    StoredCredential {
        id: r.id,
        origin: r.origin.clone(),
        username: r.username.clone(),
        password_enc: r.password_enc.clone(),
        created: r.created.clone(),
        last_used: r.last_used.clone(),
        use_count: r.use_count,
    }
}

fn locked_copy(p: &Passwords) -> Passwords {
    Passwords::with_entries(p.entries().iter().map(copy).collect(), 0)
}

fn names(v: &[SavedCredential]) -> Vec<(&str, &str)> {
    v.iter().map(|c| (c.username.as_str(), c.password.as_str())).collect()
}

#[test]
fn keys_are_derived_with_argon2id() {
    let salt = [9u8; 16];
    let mut expected = [0u8; 32];
    Argon2::default().hash_password_into("s\u{e9}cret".as_bytes(), &salt, &mut expected).unwrap();
    assert_eq!(passwords::derive_key("s\u{e9}cret", &salt), expected);
    assert_ne!(passwords::derive_key("secret", &salt), expected);
    assert_ne!(passwords::derive_key("s\u{e9}cret", &[8u8; 16]), expected);
}

#[test]
fn ciphertexts_are_aes_256_gcm() {
    let key = [5u8; 32];
    let data = passwords::aes_encrypt_with(b"attack at dawn", &key, &[1u8; 12]);
    assert_eq!(data.len(), 12 + 14 + 16);
    assert_eq!(data[..12], [1u8; 12]);
    let cipher = Aes256Gcm::new((&key).into());
    let plain = cipher.decrypt(Nonce::from_slice(&data[..12]), &data[12..]).unwrap();
    assert_eq!(plain, b"attack at dawn");
    assert_eq!(passwords::aes_decrypt(&data, &key), Some(b"attack at dawn".to_vec()));
}

#[test]
fn only_the_right_key_opens_a_ciphertext() {
    let data = passwords::aes_encrypt(b"x", &[5u8; 32]);
    assert_eq!(passwords::aes_decrypt(&data, &[5u8; 32]), Some(b"x".to_vec()));
    assert_eq!(passwords::aes_decrypt(&data, &[6u8; 32]), None);
    for i in 0..data.len() {
        let mut broken = data.clone();
        broken[i] ^= 1;
        assert_eq!(passwords::aes_decrypt(&broken, &[5u8; 32]), None);
    }
    assert_eq!(passwords::aes_decrypt(&data[..27], &[5u8; 32]), None);
    assert_ne!(passwords::aes_encrypt(b"x", &[5u8; 32]), data);
}

#[test]
fn passwords_decrypt_to_themselves() {
    let p = unlocked();
    for word in ["", "pw", "p\u{e4}ss\u{1f600}"] {
        let stored = passwords::encrypt_password(&p, word);
        assert_eq!(passwords::decrypt_password(&p, &stored), word);
        assert_eq!(passwords::decrypt_password(&Passwords::new(), &stored), "");
        assert_eq!(encoding::base64_decode(&stored).unwrap().len(), 28 + word.len());
    }
    assert_eq!(passwords::decrypt_password(&p, "not base64!"), "");
    assert_eq!(passwords::decrypt_password(&p, "AAAA"), "");
    let fixed = passwords::encrypt_password_with("pw", &[3; 32], &[0; 12]);
    assert_eq!(passwords::decrypt_password(&p, &fixed), "pw");
}

#[test]
fn bytes_that_are_no_text_decrypt_to_nothing() {
    let p = unlocked();
    let data = passwords::aes_encrypt(&[0xff, 0xfe], &[3; 32]);
    assert_eq!(passwords::decrypt_password(&p, &encoding::base64_encode(&data)), "");
}

#[test]
fn the_master_password_unlocks_the_store() {
    let mut s = Settings::new();
    let mut p = Passwords::new();
    assert!(!passwords::has_master_password(&s));
    assert!(!passwords::try_unlock(&mut p, &s, "hunter22"));
    assert!(passwords::ensure_unlocked(&p, &s) == UnlockStep::SetUp);
    passwords::setup_master_password(&mut p, &mut s, "hunter22");
    assert!(p.is_unlocked());
    assert!(passwords::has_master_password(&s));
    assert!(passwords::ensure_unlocked(&p, &s) == UnlockStep::Ready);
    let key = p.get_derived_key();

    let mut later = Passwords::new();
    assert!(passwords::ensure_unlocked(&later, &s) == UnlockStep::Enter);
    assert!(!passwords::try_unlock(&mut later, &s, "hunter23"));
    assert!(!later.is_unlocked());
    assert!(passwords::try_unlock(&mut later, &s, "hunter22"));
    assert_eq!(later.get_derived_key(), key);
}

#[test]
fn the_token_and_salt_are_stored_in_base64() {
    let mut s = Settings::new();
    let mut p = Passwords::new();
    passwords::setup_master_password_with(&mut p, &mut s, "hunter22", &[4; 16], &[2; 12]);
    let salt = settings::get_setting(&s, "pw_salt").unwrap();
    assert_eq!(encoding::base64_decode(&salt), Some(vec![4; 16]));
    let token = encoding::base64_decode(&settings::get_setting(&s, "pw_verify").unwrap()).unwrap();
    let key = passwords::derive_key("hunter22", &[4; 16]);
    assert_eq!(passwords::aes_decrypt(&token, &key), Some(b"wynn-pw-ok".to_vec()));
    settings::set_setting(&mut s, "pw_salt", "AAAA");
    assert!(!passwords::try_unlock(&mut Passwords::new(), &s, "hunter22"));
}

#[test]
fn the_unlock_dialog_is_answered() {
    let mut s = Settings::new();
    let mut p = Passwords::new();
    passwords::setup_master_password(&mut p, &mut s, "hunter22");
    let mut p = Passwords::new();
    assert!(passwords::answer_unlock(&mut p, &s, "cancel", "hunter22") == UnlockAnswer::Ignored);
    assert!(passwords::answer_unlock(&mut p, &s, "unlock", "") == UnlockAnswer::Ignored);
    assert!(passwords::answer_unlock(&mut p, &s, "unlock", "wrong") == UnlockAnswer::Wrong);
    assert!(passwords::answer_unlock(&mut p, &s, "unlock", "hunter22") == UnlockAnswer::Unlocked);
    assert!(p.is_unlocked());
}

#[test]
fn a_master_password_has_six_characters() {
    assert!(passwords::check_new_master("12345", "12345").is_some());
    assert!(passwords::check_new_master("\u{e4}\u{e4}\u{e4}\u{e4}\u{e4}", "\u{e4}\u{e4}\u{e4}\u{e4}\u{e4}").is_some());
    assert!(passwords::check_new_master("123456", "123457").is_some());
    assert!(passwords::check_new_master("", "").is_some());
    assert_eq!(passwords::check_new_master("123456", "123456"), None);
}

#[test]
fn an_origin_is_scheme_and_host() {
    for (url, origin) in [
        ("https://a.example/b/c", "https://a.example"),
        ("https://a.example:8443/", "https://a.example:8443"),
        ("https://a.example", "https://a.example"),
        ("https://a.example?q=/x", "https://a.example"),
        ("https://example.com?next=/login", "https://example.com"),
        ("https://a.example#top/x", "https://a.example"),
        ("https://a.example/b?c#d", "https://a.example"),
        ("about:blank", "about:blank"),
        ("", ""),
        ("file:///etc/passwd", "file://"),
    ] {
        assert_eq!(passwords::extract_origin(url), origin);
    }
}

#[test]
fn a_saved_credential_is_found() {
    let mut p = unlocked();
    passwords::save_credential(&mut p, ORIGIN, "u", "p1", "1");
    passwords::save_credential(&mut p, "https://b.example", "u", "p2", "2");
    assert_eq!(names(&passwords::lookup_credentials(&p, ORIGIN)), vec![("u", "p1")]);
    assert!(passwords::lookup_credentials(&p, "https://c.example").is_empty());
    let first = &p.entries()[0];
    assert_eq!((first.id, first.use_count), (1, 0));
    assert_eq!((first.created.as_str(), first.last_used.as_str()), ("1", "1"));
}

#[test]
fn saving_again_updates_the_password() {
    let mut p = unlocked();
    passwords::save_credential(&mut p, ORIGIN, "u", "p1", "1");
    passwords::save_credential(&mut p, ORIGIN, "v", "p2", "2");
    passwords::save_credential(&mut p, ORIGIN, "u", "p3", "3");
    assert_eq!(p.entries().len(), 2);
    let found = passwords::lookup_credentials(&p, ORIGIN);
    assert_eq!(names(&found), vec![("u", "p3"), ("v", "p2")]);
    assert_eq!((found[0].id, found[0].use_count), (1, 1));
    assert_eq!((found[0].created.as_str(), found[0].last_used.as_str()), ("1", "3"));
}

#[test]
fn the_most_used_come_first() {
    let mut p = unlocked();
    passwords::save_credential(&mut p, ORIGIN, "a", "p", "1");
    passwords::save_credential(&mut p, ORIGIN, "b", "p", "2");
    passwords::save_credential(&mut p, ORIGIN, "c", "p", "3");
    passwords::record_use(&mut p, 1, "4");
    passwords::record_use(&mut p, 99, "5");
    let found = passwords::lookup_credentials(&p, ORIGIN);
    assert_eq!(names(&found), vec![("a", "p"), ("c", "p"), ("b", "p")]);
    assert_eq!((found[0].use_count, found[0].last_used.as_str()), (1, "4"));
}

#[test]
fn credentials_are_changed_and_deleted() {
    let mut p = unlocked();
    passwords::save_credential(&mut p, ORIGIN, "a", "p", "1");
    passwords::save_credential(&mut p, ORIGIN, "b", "q", "2");
    assert!(!passwords::is_username_free(&p, 1, "b"));
    assert!(passwords::is_username_free(&p, 1, "a"));
    assert!(passwords::is_username_free(&p, 1, "c"));
    passwords::update_credential(&mut p, 1, "c", "new");
    passwords::delete_credential(&mut p, 2);
    assert_eq!(names(&passwords::all_credentials(&p)), vec![("c", "new")]);
    passwords::save_credential(&mut p, ORIGIN, "d", "r", "3");
    assert_eq!(p.entries()[1].id, 3);
}

#[test]
fn all_credentials_go_by_origin_and_username() {
    let mut p = unlocked();
    for (origin, username) in [("https://b", "x"), ("https://a", "z"), ("https://a", "Y")] {
        passwords::save_credential(&mut p, origin, username, "p", "1");
    }
    let all: Vec<(String, String)> =
        passwords::all_credentials(&p).into_iter().map(|c| (c.origin, c.username)).collect();
    let expected = [("https://a", "Y"), ("https://a", "z"), ("https://b", "x")];
    assert_eq!(all, expected.map(|(o, u)| (o.to_string(), u.to_string())).to_vec());
}

#[test]
fn a_locked_store_tells_and_takes_nothing() {
    let mut p = unlocked();
    passwords::save_credential(&mut p, ORIGIN, "u", "p", "1");
    let mut locked = locked_copy(&p);
    assert!(passwords::lookup_credentials(&locked, ORIGIN).is_empty());
    assert!(passwords::all_credentials(&locked).is_empty());
    assert!(passwords::autofill_js(&locked, ORIGIN).is_none());
    passwords::answer_save_prompt(&mut locked, "save", ORIGIN, "v", "p", "2");
    passwords::answer_save_prompt(&mut locked, "never", ORIGIN, "v", "p", "2");
    passwords::update_credential(&mut locked, 1, "w", "p");
    assert_eq!(locked.entries().len(), 1);
    assert_eq!(locked.entries()[0].username, "u");
    assert!(passwords::has_credentials_for(&locked, ORIGIN));
    locked.set_derived_key([3; 32]);
    assert_eq!(names(&passwords::lookup_credentials(&locked, ORIGIN)), vec![("u", "p")]);
    locked.set_derived_key([4; 32]);
    assert_eq!(names(&passwords::lookup_credentials(&locked, ORIGIN)), vec![("u", "")]);
}

#[test]
fn the_prompt_knows_what_is_saved() {
    let mut p = unlocked();
    let ask = |p: &Passwords, u: &str, w: &str| passwords::do_save_prompt(p, ORIGIN, u, w);
    assert!(ask(&p, "u", "p") == SavePrompt::Ask { update: false });
    passwords::answer_save_prompt(&mut p, "save", ORIGIN, "u", "p", "1");
    assert!(ask(&p, "u", "p") == SavePrompt::AlreadySaved(1));
    assert!(ask(&p, "u", "q") == SavePrompt::Ask { update: true });
    assert!(ask(&p, "v", "p") == SavePrompt::Ask { update: false });
    passwords::answer_save_prompt(&mut p, "not-now", ORIGIN, "v", "p", "2");
    assert_eq!(p.entries().len(), 1);
}

#[test]
fn the_prompt_says_what_it_asks() {
    let t = passwords::prompt_texts(false, ORIGIN, "u");
    assert_eq!(t.heading, "Save password?");
    assert_eq!(
        t.body,
        "Would you like to save your password for https://a.example?\n\nUsername: u"
    );
    assert_eq!(t.accept, "Save");
    let t = passwords::prompt_texts(true, ORIGIN, "");
    assert_eq!(t.heading, "Update password?");
    assert!(t.body.contains("like to update your password"));
    assert!(t.body.ends_with("Username: (none)"));
    assert_eq!(t.accept, "Update");
}

#[test]
fn never_is_remembered() {
    let mut p = unlocked();
    assert!(!passwords::is_never_save(&p, ORIGIN));
    passwords::answer_save_prompt(&mut p, "never", ORIGIN, "u", "p", "1");
    assert!(passwords::is_never_save(&p, ORIGIN));
    assert!(passwords::is_never_save(&locked_copy(&p), ORIGIN));
    assert!(!passwords::is_never_save(&p, "https://b.example"));
    assert!(passwords::autofill_js(&p, ORIGIN).is_none());
    assert!(passwords::find_logins(&p, ORIGIN).is_empty());
    assert!(!passwords::has_credentials_for(&p, ORIGIN));
    assert!(passwords::list_for_dialog(&p).is_empty());
    passwords::save_credential(&mut p, ORIGIN, "u", "p", "2");
    assert_eq!(names(&passwords::list_for_dialog(&p)), vec![("u", "p")]);
    assert_eq!(passwords::lookup_credentials(&p, ORIGIN).len(), 2);
    assert_eq!(names(&passwords::find_logins(&p, ORIGIN)), vec![("u", "p")]);
    assert!(passwords::autofill_js(&p, ORIGIN).unwrap().contains("nativeSet.call(pw, 'p');"));
}

#[test]
fn scripts_fill_in_the_most_used_login() {
    let mut p = unlocked();
    assert_eq!(passwords::autofill_js(&p, ORIGIN), None);
    passwords::save_credential(&mut p, ORIGIN, "o'neil", "a\\b", "1");
    let js = passwords::autofill_js(&p, ORIGIN).unwrap();
    assert!(js.contains(r"nativeSet.call(userField, 'o\'neil');"));
    assert!(js.contains(r"nativeSet.call(pw, 'a\\b');"));
    assert!(js.starts_with("(function() {\n    'use strict';"));
    assert!(js.ends_with("})();"));
}

#[test]
fn line_ends_are_filled_in_too() {
    let mut p = unlocked();
    passwords::save_credential(&mut p, ORIGIN, "u", "a\nb\rc\\", "1");
    let js = passwords::autofill_js(&p, ORIGIN).unwrap();
    assert!(js.contains(r"nativeSet.call(pw, 'a\nb\rc\\');"));
}

#[test]
fn revealed_rows_are_masked() {
    let r = passwords::toggle_reveal(false, "u", "secret");
    assert_eq!(r.subtitle, "u\n\u{2022}\u{2022}\u{2022}\u{2022}\u{2022}\u{2022}");
    assert_eq!((r.icon, r.tooltip), ("view-conceal-symbolic", "Hide password"));
    let r = passwords::toggle_reveal(true, "u", "secret");
    assert_eq!(r.subtitle, "u");
    assert_eq!((r.icon, r.tooltip), ("view-reveal-symbolic", "Show password"));
    let long = "x".repeat(50);
    assert_eq!(passwords::toggle_reveal(false, "", &long).subtitle.chars().count(), 21);
    assert_eq!(passwords::toggle_reveal(false, "", "\u{e4}").subtitle, "\n\u{2022}\u{2022}");
    let accents = "\u{e4}".repeat(15);
    assert_eq!(passwords::toggle_reveal(false, "", &accents).subtitle.chars().count(), 21);
}

#[test]
fn rows_are_searched() {
    assert!(passwords::row_visible("", "https://a.example", "u"));
    assert!(passwords::row_visible("A.EX", "https://a.example", "u"));
    assert!(passwords::row_visible("me", "https://a.example", "It is ME"));
    assert!(!passwords::row_visible("b", "https://a.example", "u"));
}
