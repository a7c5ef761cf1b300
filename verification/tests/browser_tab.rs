use wynn_browser::browser_tab;
use wynn_browser::browser_tab::AuthAnswer;
use wynn_browser::browser_tab::AutofillPlan;
use wynn_browser::browser_tab::CaptureGuard;
use wynn_browser::browser_tab::PermissionKind;
use wynn_browser::browser_tab::PermissionPlan;
use wynn_browser::browser_tab::ScriptDialogKind;
use wynn_browser::passwords;
use wynn_browser::passwords::Passwords;
use wynn_browser::webview::InjectionKind;

fn unlocked() -> Passwords {
    let mut p = Passwords::new();
    p.set_derived_key([7; 32]);
    p
}

#[test]
fn fields_are_read_from_messages() {
    let json = r#"{"username": "me@x", "password" :  "a\"b\\c"}"#;
    assert_eq!(browser_tab::extract_json_field(json, "username"), "me@x");
    assert_eq!(browser_tab::extract_json_field(json, "password"), "a\"b\\c");
    assert_eq!(browser_tab::extract_json_field(json, "other"), "");
    assert_eq!(browser_tab::extract_json_field(r#"{"n": 1}"#, "n"), "");
    assert_eq!(browser_tab::extract_json_field(r#"{"n""#, "n"), "");
    assert_eq!(browser_tab::extract_json_field(r#"{"n":"open"#, "n"), "open");
    assert_eq!(browser_tab::extract_json_field(r#"{"n":"end\"#, "n"), "end");
}

#[test]
fn captured_credentials_read_back() {
    for (user, pw) in [
        ("me", "pw"),
        ("password", "username"),
        ("x\"password", "a:b\"c\\"),
        ("\u{1}\u{1f}\t", "line\nbreak \u{1f600}"),
        ("", "{\"password\":\"x\"}"),
    ] {
        let message = format!(
            "{{\"username\":{},\"password\":{}}}",
            serde_json::to_string(user).unwrap(),
            serde_json::to_string(pw).unwrap()
        );
        assert_eq!(browser_tab::extract_json_field(&message, "username"), user);
        assert_eq!(browser_tab::extract_json_field(&message, "password"), pw);
    }
}

#[test]
fn escapes_are_read_in_messages() {
    let read = |value: &str| {
        browser_tab::extract_json_field(&format!("{{\"password\":\"{}\"}}", value), "password")
    };
    assert_eq!(read(r"a\nb"), "a\nb");
    assert_eq!(read(r"\t\r\b\f\/"), "\t\r\u{8}\u{c}/");
    assert_eq!(read(r"caf\u00e9 \u00E9 \u0000"), "caf\u{e9} \u{e9} \0");
    assert_eq!(read(r"\ud83d\ude00!"), "\u{1f600}!");
    assert_eq!(read(r"\ud83dx \ude00 \ud83d\u0041"), "\u{fffd}x \u{fffd} \u{fffd}A");
    assert_eq!(read(r"\u12 \uzzzz \q"), "u12 uzzzz q");
    assert_eq!(read(r"\\n"), "\\n");
}

#[test]
fn captures_are_offered_once_a_minute() {
    let p = unlocked();
    let json = r#"{"username":"u","password":"p"}"#;
    let other = r#"{"username":"u","password":"q"}"#;
    let origin = "https://a.example";
    let second = 1_000_000_000u64;
    let mut guard = CaptureGuard::new(1000 * second);
    let c = guard.capture(&p, json, origin, 1000 * second).unwrap();
    assert_eq!((c.username.as_str(), c.password.as_str()), ("u", "p"));
    assert!(guard.capture(&p, json, origin, 1060 * second - 1).is_none());
    assert!(guard.capture(&p, json, origin, 1060 * second).is_some());
    assert!(guard.capture(&p, other, origin, 1061 * second).is_some());
    assert!(guard.capture(&p, json, origin, 1062 * second).is_some());
    assert!(guard.capture(&p, json, "https://b.example", 1063 * second).is_some());
}

#[test]
fn captures_need_a_password_and_an_origin() {
    let mut p = unlocked();
    let mut guard = CaptureGuard::new(0);
    let origin = "https://a.example";
    assert!(guard.capture(&p, r#"{"username":"u","password":""}"#, origin, 5).is_none());
    assert!(guard.capture(&p, r#"{"password":"p"}"#, "", 5).is_none());
    assert!(guard.capture(&p, r#"{"password":"p"}"#, origin, 5).is_some());
    passwords::answer_save_prompt(&mut p, "never", origin, "u", "p", "now");
    assert!(guard.capture(&p, r#"{"password":"x"}"#, origin, 500).is_none());
}

#[test]
fn the_capture_script_runs_at_the_end_of_a_page() {
    let script = browser_tab::password_capture_script();
    assert!(script.kind == InjectionKind::ScriptAtEnd);
    assert!(script.source.contains("messageHandlers.wynnPasswordCapture"));
    assert!(!script.block.is_empty());
}

#[test]
fn saved_logins_are_filled_in() {
    let mut p = unlocked();
    assert!(matches!(
        browser_tab::autofill_on_load(&p, "https://a.example/login"),
        AutofillPlan::Nothing
    ));
    passwords::save_credential(&mut p, "https://a.example", "it's me", "p", "1");
    match browser_tab::autofill_on_load(&p, "https://a.example/login") {
        AutofillPlan::Run(js) => assert!(js.contains(r"'it\'s me'")),
        _ => panic!("no script"),
    }
    assert!(browser_tab::autofill_on_change(&p, "https://a.example/next").is_some());
    assert!(browser_tab::autofill_on_change(&p, "https://b.example/").is_none());
    assert!(matches!(
        browser_tab::autofill_on_load(&p, "file://a.example/"),
        AutofillPlan::Nothing
    ));
}

#[test]
fn a_locked_store_is_unlocked_first() {
    let mut p = unlocked();
    passwords::save_credential(&mut p, "https://a.example", "u", "p", "1");
    passwords::answer_save_prompt(&mut p, "never", "https://n.example", "u", "p", "1");
    let rows: Vec<passwords::StoredCredential> = p
        .entries()
        .iter()
        .map(|r| passwords::StoredCredential {
            id: r.id,
            origin: r.origin.clone(),
            username: r.username.clone(),
            password_enc: r.password_enc.clone(),
            created: r.created.clone(),
            last_used: r.last_used.clone(),
            use_count: r.use_count,
        })
        .collect();
    let locked = Passwords::with_entries(rows, 0);
    match browser_tab::autofill_on_load(&locked, "https://a.example/x") {
        AutofillPlan::UnlockFirst(origin) => assert_eq!(origin, "https://a.example"),
        _ => panic!("not asked to unlock"),
    }
    assert!(browser_tab::autofill_on_change(&locked, "https://a.example/x").is_none());
    assert!(matches!(
        browser_tab::autofill_on_load(&locked, "https://n.example/x"),
        AutofillPlan::Nothing
    ));
}

#[test]
fn tabs_are_titled_after_their_page() {
    assert_eq!(browser_tab::tab_title(Some("T")), "T");
    assert_eq!(browser_tab::tab_title(Some("")), "Untitled");
    assert_eq!(browser_tab::tab_title(None), "Untitled");
}

#[test]
fn the_lock_shows_the_scheme() {
    let icon = browser_tab::update_security_icon("https://x");
    assert_eq!((icon.icon, icon.class), ("channel-secure-symbolic", Some("security-secure")));
    let icon = browser_tab::update_security_icon("http://x");
    assert_eq!((icon.icon, icon.class), ("channel-insecure-symbolic", Some("security-insecure")));
    let icon = browser_tab::update_security_icon("about:blank");
    assert_eq!((icon.icon, icon.class), ("system-search-symbolic", None));
}

#[test]
fn some_permissions_are_decided_at_once() {
    let plan = |k: PermissionKind| browser_tab::plan_permission(&k);
    assert!(matches!(plan(PermissionKind::DeviceInfo), PermissionPlan::Allow));
    assert!(matches!(plan(PermissionKind::MediaKeys), PermissionPlan::Allow));
    let data = |d: &str| plan(PermissionKind::WebsiteData(d.to_string()));
    assert!(matches!(data("challenges.cloudflare.com"), PermissionPlan::Allow));
    assert!(matches!(data("cloudflareinsights.com"), PermissionPlan::Allow));
    assert!(matches!(data("tracker.example"), PermissionPlan::Deny));
    assert!(matches!(data("cloudflare.com"), PermissionPlan::Allow));
    assert!(matches!(data("notcloudflare.com"), PermissionPlan::Allow));
    assert!(matches!(data("cloudflare.com.evil.example"), PermissionPlan::Deny));
    assert!(matches!(data(""), PermissionPlan::Deny));
}

#[test]
fn the_user_is_asked_about_the_others() {
    let name = |k: PermissionKind| match browser_tab::plan_permission(&k) {
        PermissionPlan::Ask { name, icon, description } => {
            assert!(icon.ends_with("-symbolic"));
            assert!(description.starts_with("This site "));
            name
        }
        _ => panic!("not asked"),
    };
    assert_eq!(name(PermissionKind::Media { audio: true, video: true }), "Camera & Microphone");
    assert_eq!(name(PermissionKind::Media { audio: false, video: true }), "Camera");
    assert_eq!(name(PermissionKind::Media { audio: true, video: false }), "Microphone");
    assert_eq!(name(PermissionKind::Media { audio: false, video: false }), "Media Device");
    assert_eq!(name(PermissionKind::Location), "Location");
    assert_eq!(name(PermissionKind::Notifications), "Notifications");
    assert_eq!(name(PermissionKind::Clipboard), "Clipboard");
    assert_eq!(name(PermissionKind::PointerLock), "Pointer Lock");
    assert_eq!(name(PermissionKind::Other), "Permission");
    let origin = browser_tab::display_origin(Some("https://a.example/x"), "Unknown site");
    let texts = browser_tab::permission_texts("Camera", "This site wants it.", &origin);
    assert_eq!(texts.heading, "Camera Access");
    assert_eq!(texts.body, "This site wants it.\n\nOrigin: https://a.example");
    assert_eq!(browser_tab::display_origin(None, "Unknown site"), "Unknown site");
}

#[test]
fn notifications_are_tagged() {
    assert_eq!(browser_tab::notification_id(Some("t"), 3), "t");
    assert_eq!(browser_tab::notification_id(None, 3), "web-notif-3");
    assert_eq!(browser_tab::notification_toast("T", ""), "T");
    assert_eq!(browser_tab::notification_toast("T", "B"), "T: B");
}

#[test]
fn script_dialogs_are_planned() {
    let plan = browser_tab::plan_script_dialog(ScriptDialogKind::Alert).unwrap();
    assert_eq!(plan.accept, ("ok", "OK"));
    assert_eq!((plan.decline, plan.close, plan.default, plan.heading), (None, "ok", "ok", None));
    let plan = browser_tab::plan_script_dialog(ScriptDialogKind::Confirm).unwrap();
    assert_eq!(plan.decline, Some(("cancel", "Cancel")));
    assert_eq!((plan.close, plan.default), ("cancel", "ok"));
    let plan = browser_tab::plan_script_dialog(ScriptDialogKind::BeforeUnload).unwrap();
    assert_eq!(plan.heading, Some("Leave this page?"));
    assert_eq!(plan.accept, ("leave", "Leave"));
    assert_eq!((plan.decline, plan.close, plan.default), (Some(("stay", "Stay")), "stay", "stay"));
    assert!(browser_tab::plan_script_dialog(ScriptDialogKind::Prompt).is_some());
    assert!(browser_tab::plan_script_dialog(ScriptDialogKind::Other).is_none());
}

#[test]
fn scripts_are_told_the_answer() {
    let a = browser_tab::answer_script_dialog(ScriptDialogKind::Alert, "ok");
    assert_eq!((a.confirmed, a.with_text), (None, false));
    let a = browser_tab::answer_script_dialog(ScriptDialogKind::Confirm, "ok");
    assert_eq!((a.confirmed, a.with_text), (Some(true), false));
    let a = browser_tab::answer_script_dialog(ScriptDialogKind::Prompt, "ok");
    assert_eq!((a.confirmed, a.with_text), (Some(true), true));
    let a = browser_tab::answer_script_dialog(ScriptDialogKind::Prompt, "cancel");
    assert_eq!((a.confirmed, a.with_text), (Some(false), false));
    let a = browser_tab::answer_script_dialog(ScriptDialogKind::BeforeUnload, "ok");
    assert_eq!(a.confirmed, Some(false));
    let a = browser_tab::answer_script_dialog(ScriptDialogKind::BeforeUnload, "leave");
    assert_eq!(a.confirmed, Some(true));
    assert_eq!(browser_tab::unshown_script_dialog(ScriptDialogKind::Confirm).confirmed, Some(false));
    assert_eq!(browser_tab::unshown_script_dialog(ScriptDialogKind::Prompt).confirmed, None);
}

#[test]
fn servers_ask_to_sign_in() {
    let mut p = unlocked();
    let plan = browser_tab::plan_authentication(&p, None, Some("h.example"), None, false);
    assert_eq!(plan.origin, "https://h.example");
    assert_eq!(plan.heading, "Sign in to h.example");
    assert_eq!(plan.body, "This server requires authentication.");
    assert!(plan.saved.is_none());
    assert!(
        browser_tab::answer_authentication(&mut p, "sign-in", &plan.origin, "u", "pw", "1")
            == AuthAnswer::SignIn
    );
    let plan = browser_tab::plan_authentication(
        &p,
        Some("https://h.example/secret"),
        Some("h.example"),
        Some("Staff"),
        true,
    );
    assert_eq!(plan.heading, "Authentication Failed \u{2014} h.example");
    assert_eq!(plan.body, "Realm: Staff");
    let saved = plan.saved.unwrap();
    assert_eq!((saved.username.as_str(), saved.password.as_str()), ("u", "pw"));
    let plan = browser_tab::plan_authentication(&p, None, None, Some(""), false);
    assert_eq!(plan.heading, "Sign in to Unknown host");
}

#[test]
fn only_whole_sign_ins_are_saved() {
    let mut p = unlocked();
    let o = "https://h.example";
    assert!(browser_tab::answer_authentication(&mut p, "cancel", o, "u", "p", "1") == AuthAnswer::Cancel);
    browser_tab::answer_authentication(&mut p, "sign-in", o, "", "p", "1");
    browser_tab::answer_authentication(&mut p, "sign-in", o, "u", "", "1");
    assert!(p.entries().is_empty());
    passwords::answer_save_prompt(&mut p, "never", o, "u", "p", "1");
    browser_tab::answer_authentication(&mut p, "sign-in", o, "u", "p", "1");
    assert_eq!(p.entries().len(), 1);
    let saved = browser_tab::plan_authentication(&p, Some(o), None, None, false).saved.unwrap();
    assert_eq!((saved.username.as_str(), saved.password.as_str()), (passwords::NEVER_MARKER, ""));
    assert!(matches!(browser_tab::autofill_on_load(&p, o), AutofillPlan::Nothing));
    let mut locked = Passwords::new();
    assert!(
        browser_tab::answer_authentication(&mut locked, "sign-in", o, "u", "p", "1")
            == AuthAnswer::SignIn
    );
    assert!(locked.entries().is_empty());
}
