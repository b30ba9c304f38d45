use panelmc::cloud::{
    account_label, apply_tokens, chunk_taken, cloud_folder, cloud_target,
    copy_backup_to_cloud_folder, device_deadline, device_form, device_login, device_message,
    device_step, dropbox_folders, folder_body, folder_created, folder_known, folder_search_url,
    folder_searched, google_client, google_file_name, google_form, google_login,
    google_login_with, google_logout, google_place, google_refresh_form, google_token,
    google_upload_body, google_upload_url, google_userinfo, http_answer, login_for, login_page,
    lost_login, may_poll, may_upload, oauth_code, oauth_code_in, onedrive_client, onedrive_logout,
    onedrive_path, onedrive_place, onedrive_refresh_form, onedrive_session_url,
    onedrive_upload_body, onedrive_upload_url, onedrive_userinfo, persist_google,
    persist_onedrive, poll_answer, poll_form, renewal_of, renewed, target_after_logout,
    upload_opened, upload_target, CloudTokens, DeviceAction, DeviceEvent, DeviceLogin,
    FolderStep, OAuthToken, Poll, Renewal, Target, Upload,
};
use panelmc::digest::{pkce_from, Pkce};
use panelmc::json::{parse_json, Json};

fn json(text: &str) -> Json {
    parse_json(text.as_bytes()).expect("json")
}

fn token(access: &str, refresh: &str, expires_at: u64) -> OAuthToken {
    OAuthToken {
        access_token: access.into(),
        refresh_token: refresh.into(),
        expires_at,
        email: "a@b".into(),
        folder_id: "f".into(),
    }
}

#[test]
fn logging_out_touches_one_login() {
    let all = persist_onedrive(persist_google(CloudTokens::default(), token("g", "", 1)), token("o", "", 2));
    let left = google_logout(all.clone());
    assert!(left.google.is_none());
    assert_eq!(left.onedrive.expect("token").access_token, "o");
    let left = onedrive_logout(all);
    assert!(left.onedrive.is_none());
    assert_eq!(left.google.expect("token").access_token, "g");
}

#[test]
fn tokens_are_taken_from_an_answer() {
    let mut t = OAuthToken::default();
    assert_eq!((t.access_token.as_str(), t.expires_at), ("", 0));
    apply_tokens(&mut t, &json(r#"{"access_token":"a","refresh_token":"r","expires_in":100}"#), "x", 1000);
    assert_eq!((t.access_token.as_str(), t.refresh_token.as_str(), t.expires_at), ("a", "r", 1040));
    apply_tokens(&mut t, &json(r#"{"refresh_token":"","expires_in":5}"#), "x", 1000);
    assert_eq!((t.access_token.as_str(), t.refresh_token.as_str(), t.expires_at), ("a", "r", 1000));
    apply_tokens(&mut t, &json("{}"), "x", 1000);
    assert_eq!((t.refresh_token.as_str(), t.expires_at), ("r", 4540));
    let mut t = OAuthToken::default();
    apply_tokens(&mut t, &json("{}"), "x", u64::MAX);
    assert_eq!((t.refresh_token.as_str(), t.expires_at), ("x", u64::MAX));
}

#[test]
fn accounts() {
    assert_eq!(google_userinfo(&Some(json(r#"{"email":"a@b"}"#))), "a@b");
    assert_eq!(google_userinfo(&None), "");
    assert_eq!(onedrive_userinfo(&Some(json(r#"{"userPrincipalName":"u","mail":"m"}"#))), "u");
    assert_eq!(onedrive_userinfo(&Some(json(r#"{"mail":"m"}"#))), "m");
    assert_eq!(onedrive_userinfo(&Some(json(r#"{"userPrincipalName":null,"mail":"m"}"#))), "");
    assert_eq!(onedrive_userinfo(&None), "");
    assert_eq!(account_label("", "Google Drive"), "Google Drive");
    assert_eq!(account_label("a@b", "Google Drive"), "a@b");
}

#[test]
fn a_login_at_google_begins() {
    let pkce = Pkce { verifier: "V".into(), challenge: "C".into() };
    let l = google_login_with("id 1", 8080, pkce);
    assert_eq!((l.redirect.as_str(), l.verifier.as_str()), ("http://127.0.0.1:8080", "V"));
    assert_eq!(
        l.url,
        "https://accounts.google.com/o/oauth2/v2/auth?client_id=id%201&redirect_uri=http%3A%2F%2F127.0.0.1%3A8080&response_type=code&scope=https%3A%2F%2Fwww.googleapis.com%2Fauth%2Fdrive.file&access_type=offline&prompt=consent&code_challenge=C&code_challenge_method=S256"
    );
    let form = google_form(&l, "code", " s ");
    let flat: Vec<(&str, &str)> = form.iter().map(|(a, b)| (a.as_str(), b.as_str())).collect();
    assert_eq!(
        flat,
        vec![
            ("code", "code"),
            ("client_id", "id 1"),
            ("redirect_uri", "http://127.0.0.1:8080"),
            ("grant_type", "authorization_code"),
            ("code_verifier", "V"),
            ("client_secret", "s"),
        ]
    );
    assert_eq!(google_form(&l, "code", "  ").len(), 5);
    let missing = "Google Client ID girin. Uygulama > Google Drive (console.cloud.google.com, Desktop OAuth).";
    assert_eq!(google_client("  "), Err(missing.to_string()));
    assert_eq!(google_client(" x "), Ok("x".to_string()));
    assert_eq!(google_login(" ", 1).err().as_deref(), Some(missing));
    let l = google_login(" x ", 1).ok().expect("login");
    assert_eq!(l.client_id, "x");
    assert_eq!(l.verifier.len(), 43);
    assert!(l.url.contains("client_id=x&"));
    assert!(!l.url.contains(&l.verifier));
    assert_eq!(pkce_from(b"").challenge.len(), 43);
}

#[test]
fn the_browser_comes_back() {
    let req = b"GET /?state=1&code=4%2FabC HTTP/1.1\r\nHost: x\r\n\r\n";
    assert_eq!(oauth_code(req), Ok("4/abC".to_string()));
    assert_eq!(
        oauth_code(b"GET /?error=access+denied&code=1 HTTP/1.1"),
        Err("Giriş reddedildi: access denied".to_string())
    );
    let none = Err("Tarayıcıdan kod gelmedi.".to_string());
    assert_eq!(oauth_code(b"GET / HTTP/1.1"), none);
    assert_eq!(oauth_code(b""), none);
    assert_eq!(oauth_code(b"\xff\xff ?code=1"), Ok("1".to_string()));
    assert_eq!(oauth_code_in("x /y?code="), Ok(String::new()));
    let page = login_page();
    assert!(page.contains("PanelMC bağlandı"));
    let answer = http_answer("çx");
    assert_eq!(
        answer,
        "HTTP/1.1 200 OK\r\nContent-Type: text/html; charset=utf-8\r\nContent-Length: 3\r\nConnection: close\r\n\r\nçx"
    );
}

#[test]
fn the_token_of_google() {
    let t = google_token(&json(r#"{"access_token":"a","expires_in":3600}"#), 10).expect("token");
    assert_eq!((t.access_token.as_str(), t.refresh_token.as_str(), t.expires_at), ("a", "", 3550));
    assert_eq!(
        google_token(&json(r#"{"error":"invalid_grant","error_description":"old"}"#), 10).unwrap_err(),
        "Google: invalid_grant old"
    );
    assert_eq!(google_token(&json(r#"{"error":"x"}"#), 10).unwrap_err(), "Google: x ");
}

#[test]
fn a_login_at_onedrive() {
    assert_eq!(onedrive_client(" id "), Ok("id".to_string()));
    assert!(onedrive_client("").is_err());
    assert_eq!(device_form("id")[1].1, "offline_access User.Read Files.ReadWrite.AppFolder");
    let d = device_login(&json(r#"{"device_code":"d","user_code":"U","verification_uri":"https://v","interval":1}"#))
        .ok()
        .expect("login");
    assert_eq!((d.device_code.as_str(), d.user_code.as_str(), d.uri.as_str()), ("d", "U", "https://v"));
    assert_eq!((d.interval, d.expires), (3, 900));
    assert_eq!(device_message(&d), "Tarayıcıda oturum aç. Kod: U  —  https://v");
    assert_eq!(device_deadline(100, &d), 1000);
    assert_eq!(poll_form("id", &d)[2], ("device_code".to_string(), "d".to_string()));
    let d = device_login(&json(r#"{"verification_uri_complete":"https://c","verification_uri":"https://v","expires_in":5}"#))
        .ok()
        .expect("login");
    assert_eq!((d.uri.as_str(), d.interval, d.expires), ("https://c", 5, 5));
    let d: DeviceLogin = device_login(&json("{}")).ok().expect("login");
    assert_eq!(d.uri, "https://microsoft.com/devicelogin");
    assert_eq!(
        device_login(&json(r#"{"error":"e","error_description":"d"}"#)).err().as_deref(),
        Some("OneDrive: e d")
    );
    assert_eq!(may_poll(9, 10), Ok(()));
    assert_eq!(may_poll(10, 10), Err("OneDrive girişi zaman aşımına uğradı.".to_string()));
    assert!(matches!(poll_answer(&json(r#"{"error":"authorization_pending"}"#), 0), Poll::Pending));
    assert!(matches!(poll_answer(&json(r#"{"error":"slow_down"}"#), 0), Poll::SlowDown));
    match poll_answer(&json(r#"{"error":"expired_token"}"#), 0) {
        Poll::Failed(e) => assert_eq!(e, "OneDrive: expired_token "),
        _ => panic!("no failure"),
    }
    match poll_answer(&json(r#"{"access_token":"a"}"#), 60) {
        Poll::Done(t) => assert_eq!((t.access_token.as_str(), t.expires_at), ("a", 3600)),
        _ => panic!("no token"),
    }
}

fn login_every(interval: u64) -> DeviceLogin {
    DeviceLogin {
        device_code: "d".to_string(),
        user_code: "U".to_string(),
        uri: "https://v".to_string(),
        interval,
        expires: 900,
    }
}

#[test]
fn questions_while_the_user_logs_in() {
    let d = login_every(5);
    assert!(matches!(device_step(&d, 100, DeviceEvent::Ready(99)), DeviceAction::Ask(5)));
    match device_step(&d, 100, DeviceEvent::Ready(100)) {
        DeviceAction::Stop(e) => assert_eq!(e, "OneDrive girişi zaman aşımına uğradı."),
        _ => panic!("one more question"),
    }
    assert!(matches!(device_step(&d, 100, DeviceEvent::Answered(Poll::Pending)), DeviceAction::Rest(0)));
    match device_step(&d, 100, DeviceEvent::Answered(Poll::Failed("no".to_string()))) {
        DeviceAction::Stop(e) => assert_eq!(e, "no"),
        _ => panic!("one more question"),
    }
    let tok = OAuthToken { access_token: "a".to_string(), ..OAuthToken::default() };
    match device_step(&d, 0, DeviceEvent::Answered(Poll::Done(tok))) {
        DeviceAction::Finish(t) => assert_eq!(t.access_token, "a"),
        _ => panic!("no token"),
    }
}

#[test]
fn a_question_too_soon_doubles_the_wait() {
    let d = login_every(7);
    let mut waited = 0;
    match device_step(&d, 100, DeviceEvent::Answered(Poll::SlowDown)) {
        DeviceAction::Rest(wait) => waited += wait,
        _ => panic!("no rest"),
    }
    match device_step(&d, 100, DeviceEvent::Ready(50)) {
        DeviceAction::Ask(wait) => waited += wait,
        _ => panic!("no question"),
    }
    assert_eq!(waited, 14);
}

#[test]
fn staying_logged_in() {
    assert_eq!(renewal_of(&token("a", "r", 100), 99), Renewal::Fresh);
    assert_eq!(renewal_of(&token("a", "r", 100), 100), Renewal::Due);
    assert_eq!(renewal_of(&token("", "r", 100), 0), Renewal::Due);
    assert_eq!(renewal_of(&token("a", "", 100), 100), Renewal::Lost);
    assert_eq!(lost_login("Google"), "Google oturumu düştü. Uygulama sekmesinden tekrar giriş yapın.");
    let mut t = token("a", "r", 0);
    assert_eq!(
        renewed(&mut t, "OneDrive", &json(r#"{"error":7}"#), 5),
        Err("OneDrive oturumu yenilenemedi. Tekrar giriş yapın.".to_string())
    );
    assert_eq!(t.access_token, "a");
    assert_eq!(renewed(&mut t, "OneDrive", &json(r#"{"access_token":"b"}"#), 5), Ok(()));
    assert_eq!((t.access_token.as_str(), t.refresh_token.as_str(), t.expires_at), ("b", "r", 3545));
    assert_eq!((t.email.as_str(), t.folder_id.as_str()), ("a@b", "f"));
    assert_eq!(google_refresh_form("id", "s", &t).len(), 4);
    assert_eq!(google_refresh_form("id", "", &t).len(), 3);
    assert_eq!(onedrive_refresh_form("id", &t)[1].1, "r");
}

#[test]
fn the_folder_at_google() {
    assert_eq!(
        folder_search_url(),
        "https://www.googleapis.com/drive/v3/files?q=name%20%3D%20%27PanelMC%27%20and%20mimeType%20%3D%20%27application%2Fvnd.google-apps.folder%27%20and%20trashed%20%3D%20false&fields=files(id,name)&pageSize=1&spaces=drive"
    );
    let mut t = token("a", "r", 0);
    assert!(matches!(folder_known(&t), FolderStep::Known(id) if id == "f"));
    t.folder_id.clear();
    assert!(matches!(folder_known(&t), FolderStep::Search));
    assert!(matches!(folder_searched(&mut t, &json(r#"{"files":[]}"#)), FolderStep::Create));
    assert!(matches!(folder_searched(&mut t, &json("{}")), FolderStep::Create));
    assert!(matches!(folder_searched(&mut t, &json(r#"{"files":[{}]}"#)), FolderStep::Create));
    assert_eq!(folder_created(&mut t, &json("{}")), Err("Google Drive klasörü oluşturulamadı.".to_string()));
    assert_eq!(t.folder_id, "");
    assert!(matches!(folder_searched(&mut t, &json(r#"{"files":[{"id":"x"}]}"#)), FolderStep::Known(id) if id == "x"));
    assert_eq!(t.folder_id, "x");
    assert_eq!(folder_created(&mut t, &json(r#"{"id":"y"}"#)), Ok("y".to_string()));
    assert_eq!(t.folder_id, "y");
    assert_eq!(folder_body().text("name"), Some("PanelMC".to_string()));
}

#[test]
fn uploads() {
    assert_eq!(google_file_name("s", "z.zip"), "s-z.zip");
    assert_eq!(google_place("s-z.zip"), "Google Drive / PanelMC / s-z.zip");
    assert_eq!(onedrive_path("s", "z.zip"), "s/z.zip");
    assert_eq!(onedrive_place("s/z.zip"), "OneDrive / Apps / PanelMC / s/z.zip");
    assert_eq!(
        onedrive_session_url("a b/ç.zip"),
        "https://graph.microsoft.com/v1.0/me/drive/special/approot:/a%20b/%C3%A7.zip:/createUploadSession"
    );
    assert_eq!(onedrive_upload_url(&json(r#"{"uploadUrl":"u"}"#)), Ok("u".to_string()));
    assert_eq!(onedrive_upload_url(&json("{}")), Err("OneDrive yükleme adresi yok.".to_string()));
    let mut u = Upload::new(10);
    assert_eq!(u.chunk(4), "bytes 0-3/10");
    assert_eq!(u.chunk(6), "bytes 4-9/10");
    assert_eq!(u.offset, 10);
    assert_eq!(u.finish(), Ok(()));
    assert_eq!(Upload::new(0).finish(), Err("Yedek dosyası boş.".to_string()));
    for ok in [200, 201, 202, 308] {
        assert_eq!(chunk_taken(ok), Ok(()));
    }
    assert_eq!(chunk_taken(500), Err("Yükleme kesildi: HTTP 500".to_string()));
}

#[test]
fn where_backups_go() {
    assert_eq!(cloud_target("x", true, true), "x");
    assert_eq!(cloud_target("", true, true), "google");
    assert_eq!(cloud_target("", false, true), "onedrive");
    assert_eq!(cloud_target("", false, false), "folder");
    assert_eq!(cloud_folder("", "", "g", "d"), "g");
    assert_eq!(cloud_folder("s", "o", "g", "d"), "s");
    assert_eq!(cloud_folder("", "o", "g", "d"), "o");
    assert_eq!(cloud_folder("", "", "", "d"), "d");
    assert_eq!(target_after_logout("google", "google"), "folder");
    assert_eq!(target_after_logout("onedrive", "google"), "onedrive");
    assert_eq!(upload_target("google"), Target::Google);
    assert_eq!(upload_target("onedrive"), Target::OneDrive);
    assert_eq!(upload_target("x"), Target::Folder);
    assert_eq!(copy_backup_to_cloud_folder("a.zip", " /x ", true, true), Ok("/x".to_string()));
    let err = |n: &str, f: &str, d: bool, b: bool| copy_backup_to_cloud_folder(n, f, d, b).unwrap_err();
    assert_eq!(err("a", "/x", true, true), "Geçersiz yedek.");
    assert_eq!(err("a.zip", " ", true, true), "Uygulama ayarlarından OneDrive veya Google Drive klasörünü seçin.");
    assert_eq!(err("a.zip", "/x", false, true), "Seçilen klasör yok. OneDrive/Drive masaüstü uygulaması kurulu mu?");
    assert_eq!(err("a.zip", "/x", true, false), "Yedek bulunamadı.");
    assert_eq!(may_upload("folder", "/x", "", ""), Ok(()));
    assert_eq!(may_upload("google", "", "a@b", ""), Ok(()));
    assert_eq!(may_upload("other", "", "", ""), Ok(()));
    assert!(may_upload("folder", " ", "", "").is_err());
    assert_eq!(may_upload("google", "", "", "x").unwrap_err(), "Önce Uygulama sekmesinden Google ile giriş yapın.");
    assert_eq!(may_upload("onedrive", "", "x", "").unwrap_err(), "Önce Uygulama sekmesinden OneDrive ile giriş yapın.");
    assert_eq!(
        dropbox_folders(&json(r#"{"personal":{"path":"/p"},"business":{"path":"/b"}}"#)),
        vec!["/b", "/p"]
    );
    assert!(dropbox_folders(&json("{}")).is_empty());
}

#[test]
fn uploads_are_opened() {
    assert_eq!(login_for(Some(token("a", "", 1)), "Google").unwrap().access_token, "a");
    assert_eq!(login_for(None, "OneDrive").unwrap_err(), "OneDrive ile giriş yapılmamış.");
    assert_eq!(upload_opened("OneDrive", 200), Ok(()));
    assert_eq!(upload_opened("OneDrive", 299), Ok(()));
    assert_eq!(upload_opened("Google Drive", 300), Err("Google Drive oturumu açılamadı: HTTP 300".to_string()));
    assert_eq!(google_upload_url(Some("u".to_string())), Ok("u".to_string()));
    assert_eq!(google_upload_url(None), Err("Google yükleme adresi yok.".to_string()));
    let body = google_upload_body("s-z.zip", "f");
    assert_eq!(body.text("name"), Some("s-z.zip".to_string()));
    let parents = body.items("parents").expect("parents");
    assert_eq!(parents.len(), 1);
    assert_eq!(parents[0].as_str().map(|s| s.as_str()), Some("f"));
    let body = onedrive_upload_body("z.zip");
    let item = body.get("item").expect("item");
    assert_eq!(item.text("@microsoft.graph.conflictBehavior"), Some("replace".to_string()));
    assert_eq!(item.text("name"), Some("z.zip".to_string()));
}
