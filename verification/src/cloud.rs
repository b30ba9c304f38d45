//! Backups in the cloud: logging in, staying logged in, uploading.
use vstd::prelude::*;
use vstd::utf8::encode_utf8;

use crate::backups::is_backup;
use crate::digest::{pkce_pair, Pkce};
use crate::json::{json_views, lemma_json_views, Json, JsonV};
use crate::numbers::{decimal, decimal_of};
use crate::percent::{percent_encoded, query_param, query_value, url_encode};
use crate::text::{
    cat2, cat3, cat4, chars_of, divided, finishes_with, is_empty, join, join_texts, lines, lines_of,
    pieces, same, split, split_on, split_once, string_of, texts, trim, trim_text, words, words_of,
};
use crate::unicode::{from_utf8_lossy, utf8_lossy};
use crate::worlds::is_safe_leaf_name;

verus! {

// ---------------------------------------------------------------------------------------------
// Tokens
// ---------------------------------------------------------------------------------------------
/// What a login gave: the token for requests, the one for renewing it, when it ends, whose it is,
/// and the folder for backups.
#[derive(Clone, Debug)]
pub struct OAuthToken {
    pub access_token: String,
    pub refresh_token: String,
    pub expires_at: u64,
    pub email: String,
    pub folder_id: String,
}

/// The logins.
#[derive(Clone, Debug)]
pub struct CloudTokens {
    pub google: Option<OAuthToken>,
    pub onedrive: Option<OAuthToken>,
}

/// What a token holds.
pub struct TokenV {
    pub access_token: Seq<char>,
    pub refresh_token: Seq<char>,
    pub expires_at: u64,
    pub email: Seq<char>,
    pub folder_id: Seq<char>,
}

impl View for OAuthToken {
    type V = TokenV;

    open spec fn view(&self) -> TokenV {
        TokenV {
            access_token: self.access_token@,
            refresh_token: self.refresh_token@,
            expires_at: self.expires_at,
            email: self.email@,
            folder_id: self.folder_id@,
        }
    }
}

/// A token that holds nothing.
pub open spec fn no_token() -> TokenV {
    TokenV {
        access_token: Seq::empty(),
        refresh_token: Seq::empty(),
        expires_at: 0,
        email: Seq::empty(),
        folder_id: Seq::empty(),
    }
}

impl Default for OAuthToken {
    fn default() -> (r: OAuthToken)
        ensures
            r@ == no_token(),
    {
        OAuthToken {
            access_token: String::new(),
            refresh_token: String::new(),
            expires_at: 0,
            email: String::new(),
            folder_id: String::new(),
        }
    }
}

impl Default for CloudTokens {
    fn default() -> (r: CloudTokens)
        ensures
            r.google is None,
            r.onedrive is None,
    {
        CloudTokens { google: None, onedrive: None }
    }
}

/// The logins without the one at Google.
pub fn google_logout(all: CloudTokens) -> (r: CloudTokens)
    ensures
        r.google is None,
        r.onedrive == all.onedrive,
{
    CloudTokens { google: None, onedrive: all.onedrive }
}

/// The logins without the one at OneDrive.
pub fn onedrive_logout(all: CloudTokens) -> (r: CloudTokens)
    ensures
        r.onedrive is None,
        r.google == all.google,
{
    CloudTokens { google: all.google, onedrive: None }
}

/// The logins with `tok` as the one at Google.
pub fn persist_google(all: CloudTokens, tok: OAuthToken) -> (r: CloudTokens)
    ensures
        r.google == Some(tok),
        r.onedrive == all.onedrive,
{
    CloudTokens { google: Some(tok), onedrive: all.onedrive }
}

/// The logins with `tok` as the one at OneDrive.
pub fn persist_onedrive(all: CloudTokens, tok: OAuthToken) -> (r: CloudTokens)
    ensures
        r.onedrive == Some(tok),
        r.google == all.google,
{
    CloudTokens { google: all.google, onedrive: Some(tok) }
}

/// When a token that comes at `now` ends: a minute before the service says, and an hour where it
/// does not say.
pub open spec fn end_of_token(json: JsonV, now: u64) -> u64 {
    let secs = match json.number("expires_in"@) {
        Some(n) => n,
        None => 3600,
    };
    let left = if secs > 60 {
        secs - 60
    } else {
        0
    };
    if now + left > u64::MAX {
        u64::MAX
    } else {
        (now + left) as u64
    }
}

/// The token `t` once the service has answered `json` at `now`. The token for renewing stays
/// where the answer holds none; where there was none, it is `fallback`.
pub open spec fn token_after(t: TokenV, json: JsonV, fallback: Seq<char>, now: u64) -> TokenV {
    TokenV {
        access_token: match json.text("access_token"@) {
            Some(s) => s,
            None => t.access_token,
        },
        refresh_token: match json.text("refresh_token"@) {
            Some(s) => if s.len() > 0 {
                s
            } else {
                t.refresh_token
            },
            None => if t.refresh_token.len() == 0 {
                fallback
            } else {
                t.refresh_token
            },
        },
        expires_at: end_of_token(json, now),
        email: t.email,
        folder_id: t.folder_id,
    }
}

/// Takes the answer of a service at `now` into a token.
pub fn apply_tokens(existing: &mut OAuthToken, json: &Json, fallback_refresh: &str, now: u64)
    ensures
        final(existing)@ == token_after(old(existing)@, json@, fallback_refresh@, now),
{
    if let Some(at) = json.text("access_token") {
        existing.access_token = at;
    }
    match json.text("refresh_token") {
        Some(rt) => {
            if !is_empty(rt.as_str()) {
                existing.refresh_token = rt;
            }
        },
        None => {
            if is_empty(existing.refresh_token.as_str()) {
                existing.refresh_token = fallback_refresh.to_owned();
            }
        },
    }
    let secs: u64 = match json.number("expires_in") {
        Some(n) => n,
        None => 3600,
    };
    let left: u64 = if secs > 60 {
        secs - 60
    } else {
        0
    };
    existing.expires_at = if now > u64::MAX - left {
        u64::MAX
    } else {
        now + left
    };
}

/// Renewing keeps a login: the token for renewing is never lost, and neither are the account
/// and the folder.
pub proof fn law_renewing_keeps_the_login(t: TokenV, json: JsonV, now: u64)
    requires
        t.refresh_token.len() > 0,
    ensures
        token_after(t, json, t.refresh_token, now).refresh_token.len() > 0,
        token_after(t, json, t.refresh_token, now).email == t.email,
        token_after(t, json, t.refresh_token, now).folder_id == t.folder_id,
{
}

/// The account that Google's answer names; `json` is the answer, where there was one.
pub fn google_userinfo(json: &Option<Json>) -> (r: String)
    ensures
        r@ == match *json {
            Some(j) => j@.text_or_empty("email"@),
            None => Seq::empty(),
        },
{
    match json {
        Some(j) => j.text_or_empty("email"),
        None => String::new(),
    }
}

/// The account that OneDrive's answer names.
pub open spec fn onedrive_account(json: JsonV) -> Seq<char> {
    let v = match json.get("userPrincipalName"@) {
        Some(v) => Some(v),
        None => json.get("mail"@),
    };
    match v {
        Some(v) => match v.as_str() {
            Some(s) => s,
            None => Seq::empty(),
        },
        None => Seq::empty(),
    }
}

/// The account that OneDrive's answer names; `json` is the answer, where there was one.
pub fn onedrive_userinfo(json: &Option<Json>) -> (r: String)
    ensures
        r@ == match *json {
            Some(j) => onedrive_account(j@),
            None => Seq::empty(),
        },
{
    match json {
        Some(j) => {
            let v = match j.get("userPrincipalName") {
                Some(v) => v,
                None => match j.get("mail") {
                    Some(v) => v,
                    None => {
                        return String::new();
                    },
                },
            };
            match v.as_str() {
                Some(s) => s.clone(),
                None => String::new(),
            }
        },
        None => String::new(),
    }
}

/// What the panel calls an account.
pub fn account_label(email: &str, service: &str) -> (r: String)
    ensures
        r@ == (if email@.len() == 0 {
            service@
        } else {
            email@
        }),
{
    if is_empty(email) {
        service.to_owned()
    } else {
        email.to_owned()
    }
}

// ---------------------------------------------------------------------------------------------
// Logging in at Google
// ---------------------------------------------------------------------------------------------
/// Fields of a form.
pub open spec fn form_fields(form: Seq<(String, String)>) -> Seq<(Seq<char>, Seq<char>)> {
    Seq::new(form.len(), |i: int| (form[i].0@, form[i].1@))
}

fn add_field(form: &mut Vec<(String, String)>, key: &str, value: &str)
    ensures
        form_fields(final(form)@) == form_fields(old(form)@).push((key@, value@)),
{
    let ghost f0 = form_fields(form@);
    form.push((key.to_owned(), value.to_owned()));
    assert(form_fields(form@) == f0.push((key@, value@)));
}

/// A login at Google that has begun.
pub struct GoogleLogin {
    pub client_id: String,
    pub redirect: String,
    pub verifier: String,
    pub url: String,
}

/// Where Google sends the browser back to.
pub open spec fn redirect_of(port: u16) -> Seq<char> {
    "http://127.0.0.1:"@ + decimal(port as nat)
}

/// The address at which the user logs in at Google.
pub open spec fn google_auth_url(client_id: Seq<char>, port: u16, challenge: Seq<char>) -> Seq<
    char,
> {
    "https://accounts.google.com/o/oauth2/v2/auth?client_id="@ + percent_encoded(client_id)
        + "&redirect_uri="@ + percent_encoded(redirect_of(port)) + "&response_type=code&scope="@
        + percent_encoded("https://www.googleapis.com/auth/drive.file"@)
        + "&access_type=offline&prompt=consent&code_challenge="@ + challenge
        + "&code_challenge_method=S256"@
}

/// The identifier of the application, where one was given.
pub fn google_client(client_id: &str) -> (r: Result<String, String>)
    ensures
        match r {
            Ok(id) => id@ == trim(client_id@) && id@.len() > 0,
            Err(e) => trim(client_id@).len() == 0 && e@
                == "Google Client ID girin. Uygulama > Google Drive (console.cloud.google.com, Desktop OAuth)."@,
        },
{
    let id = trim_text(client_id);
    if is_empty(id.as_str()) {
        Err(
            "Google Client ID girin. Uygulama > Google Drive (console.cloud.google.com, Desktop OAuth).".to_owned(),
        )
    } else {
        Ok(id)
    }
}

/// Begins a login at Google with the secret `pkce`; the browser comes back to `port`.
pub fn google_login_with(client_id: &str, port: u16, pkce: Pkce) -> (r: GoogleLogin)
    ensures
        r.client_id@ == client_id@,
        r.redirect@ == redirect_of(port),
        r.verifier@ == pkce.verifier@,
        r.url@ == google_auth_url(client_id@, port, pkce.challenge@),
{
    let redirect = cat2("http://127.0.0.1:", decimal_of(port as u64).as_str());
    let mut url = "https://accounts.google.com/o/oauth2/v2/auth?client_id=".to_owned();
    url.append(url_encode(client_id).as_str());
    url.append("&redirect_uri=");
    url.append(url_encode(redirect.as_str()).as_str());
    url.append("&response_type=code&scope=");
    url.append(url_encode("https://www.googleapis.com/auth/drive.file").as_str());
    url.append("&access_type=offline&prompt=consent&code_challenge=");
    url.append(pkce.challenge.as_str());
    url.append("&code_challenge_method=S256");
    GoogleLogin { client_id: client_id.to_owned(), redirect, verifier: pkce.verifier, url }
}

/// Begins a login at Google with a new secret; the browser comes back to `port`.
pub fn google_login(client_id: &str, port: u16) -> (r: Result<GoogleLogin, String>)
    ensures
        match r {
            Ok(l) => trim(client_id@).len() > 0 && l.client_id@ == trim(client_id@) && l.redirect@
                == redirect_of(port) && exists|p: Pkce|
                #![trigger crate::digest::is_made(p)]
                crate::digest::is_made(p) && l.verifier@ == p.verifier@ && l.url@
                    == google_auth_url(trim(client_id@), port, p.challenge@),
            Err(e) => trim(client_id@).len() == 0 ==> e@
                == "Google Client ID girin. Uygulama > Google Drive (console.cloud.google.com, Desktop OAuth)."@,
        },
{
    let id = match google_client(client_id) {
        Ok(id) => id,
        Err(e) => {
            return Err(e);
        },
    };
    let pkce = match pkce_pair() {
        Ok(p) => p,
        Err(e) => {
            return Err(e);
        },
    };
    let ghost p = pkce;
    let l = google_login_with(id.as_str(), port, pkce);
    assert(crate::digest::is_made(p));
    Ok(l)
}

/// The form that turns the code of a login into a token.
pub open spec fn google_fields(
    code: Seq<char>,
    client_id: Seq<char>,
    redirect: Seq<char>,
    verifier: Seq<char>,
    secret: Seq<char>,
) -> Seq<(Seq<char>, Seq<char>)> {
    let form = seq![
        ("code"@, code),
        ("client_id"@, client_id),
        ("redirect_uri"@, redirect),
        ("grant_type"@, "authorization_code"@),
        ("code_verifier"@, verifier),
    ];
    if trim(secret).len() > 0 {
        form.push(("client_secret"@, trim(secret)))
    } else {
        form
    }
}

/// The form that turns the code of a login into a token.
pub fn google_form(login: &GoogleLogin, code: &str, secret: &str) -> (r: Vec<(String, String)>)
    ensures
        form_fields(r@) == google_fields(
            code@,
            login.client_id@,
            login.redirect@,
            login.verifier@,
            secret@,
        ),
{
    let mut form: Vec<(String, String)> = Vec::new();
    assert(form_fields(form@) == Seq::<(Seq<char>, Seq<char>)>::empty());
    add_field(&mut form, "code", code);
    add_field(&mut form, "client_id", login.client_id.as_str());
    add_field(&mut form, "redirect_uri", login.redirect.as_str());
    add_field(&mut form, "grant_type", "authorization_code");
    add_field(&mut form, "code_verifier", login.verifier.as_str());
    let secret = trim_text(secret);
    if !is_empty(secret.as_str()) {
        add_field(&mut form, "client_secret", secret.as_str());
    }
    form
}

/// The refusal in the answer of a service.
pub open spec fn refusal(service: Seq<char>, json: JsonV) -> Option<Seq<char>> {
    match json.text("error"@) {
        Some(err) => Some(
            service + ": "@ + err + " "@ + json.text_or_empty("error_description"@),
        ),
        None => None,
    }
}

fn refusal_of(service: &str, json: &Json) -> (r: Option<String>)
    ensures
        match r {
            Some(s) => refusal(service@, json@) == Some(s@),
            None => refusal(service@, json@) is None,
        },
{
    match json.text("error") {
        Some(err) => {
            let desc = json.text_or_empty("error_description");
            let mut s = cat4(service, ": ", err.as_str(), " ");
            s.append(desc.as_str());
            Some(s)
        },
        None => None,
    }
}

/// The token in the answer of Google, or its refusal.
pub fn google_token(json: &Json, now: u64) -> (r: Result<OAuthToken, String>)
    ensures
        match r {
            Ok(t) => refusal("Google"@, json@) is None && t@ == token_after(
                no_token(),
                json@,
                ""@,
                now,
            ),
            Err(e) => refusal("Google"@, json@) == Some(e@),
        },
{
    match refusal_of("Google", json) {
        Some(e) => Err(e),
        None => {
            let mut tok = OAuthToken::default();
            apply_tokens(&mut tok, json, "", now);
            Ok(tok)
        },
    }
}

/// The query in the request with which the browser comes back: what stands after the `?` in the
/// second word of the first line.
pub open spec fn query_in(request: Seq<char>) -> Seq<char> {
    let all = lines(request);
    let first = if all.len() > 0 {
        all[0]
    } else {
        Seq::empty()
    };
    let path = if words(first).len() > 1 {
        words(first)[1]
    } else {
        "/"@
    };
    match split_once(path, '?') {
        Some((_, q)) => q,
        None => Seq::empty(),
    }
}

/// The query in the request with which the browser comes back.
fn query_of(request: &str) -> (r: String)
    ensures
        r@ == query_in(request@),
{
    let cs = chars_of(request);
    let all = lines_of(&cs);
    let none: Vec<char> = Vec::new();
    let ghost ls = pieces(all@);
    assert(ls.len() == all@.len());
    let first = if all.len() > 0 {
        assert(ls[0] == all@[0]@);
        &all[0]
    } else {
        assert(none@ == Seq::<char>::empty());
        &none
    };
    let cols = words_of(first);
    let ghost ws = pieces(cols@);
    assert(ws.len() == cols@.len());
    let slash = chars_of("/");
    let path = if cols.len() > 1 {
        assert(ws[1] == cols@[1]@);
        &cols[1]
    } else {
        &slash
    };
    match divided(path, '?') {
        Some((_, q)) => string_of(q),
        None => String::new(),
    }
}

/// What the request with which the browser comes back says.
pub open spec fn code_in(request: Seq<char>) -> Result<Seq<char>, Seq<char>> {
    let query = query_in(request);
    match query_value(query, "error"@) {
        Some(err) => Err("Giriş reddedildi: "@ + err),
        None => match query_value(query, "code"@) {
            Some(code) => Ok(code),
            None => Err("Tarayıcıdan kod gelmedi."@),
        },
    }
}

/// The code in the text of the request with which the browser comes back.
pub fn oauth_code_in(request: &str) -> (r: Result<String, String>)
    ensures
        match r {
            Ok(code) => code_in(request@) == Ok::<Seq<char>, Seq<char>>(code@),
            Err(e) => code_in(request@) == Err::<Seq<char>, Seq<char>>(e@),
        },
{
    let query = query_of(request);
    if let Some(err) = query_param(query.as_str(), "error") {
        return Err(cat2("Giriş reddedildi: ", err.as_str()));
    }
    match query_param(query.as_str(), "code") {
        Some(code) => Ok(code),
        None => Err("Tarayıcıdan kod gelmedi.".to_owned()),
    }
}

/// The code in the bytes of the request with which the browser comes back.
pub fn oauth_code(request: &[u8]) -> (r: Result<String, String>)
    ensures
        match r {
            Ok(code) => code_in(utf8_lossy(request@)) == Ok::<Seq<char>, Seq<char>>(code@),
            Err(e) => code_in(utf8_lossy(request@)) == Err::<Seq<char>, Seq<char>>(e@),
        },
{
    oauth_code_in(from_utf8_lossy(request).as_str())
}

/// The page that the browser shows once it has come back.
pub fn login_page() -> (r: String)
    ensures
        r@
            == "<html><body style='font-family:sans-serif;background:#161c21;color:#f0f0f0;padding:40px'><h2>PanelMC bağlandı</h2><p>Bu pencereyi kapatıp panele dönebilirsiniz.</p></body></html>"@,
{
    "<html><body style='font-family:sans-serif;background:#161c21;color:#f0f0f0;padding:40px'><h2>PanelMC bağlandı</h2><p>Bu pencereyi kapatıp panele dönebilirsiniz.</p></body></html>".to_owned()
}

/// The answer to the browser, with `page` as its page.
pub fn http_answer(page: &str) -> (r: String)
    ensures
        r@
            == "HTTP/1.1 200 OK\r\nContent-Type: text/html; charset=utf-8\r\nContent-Length: "@
            + decimal(encode_utf8(page@).len()) + "\r\nConnection: close\r\n\r\n"@ + page@,
{
    let n: usize = page.as_bytes().len();
    cat4(
        "HTTP/1.1 200 OK\r\nContent-Type: text/html; charset=utf-8\r\nContent-Length: ",
        decimal_of(n as u64).as_str(),
        "\r\nConnection: close\r\n\r\n",
        page,
    )
}

// ---------------------------------------------------------------------------------------------
// Logging in at OneDrive
// ---------------------------------------------------------------------------------------------
/// The identifier of the application, where one was given.
pub fn onedrive_client(client_id: &str) -> (r: Result<String, String>)
    ensures
        match r {
            Ok(id) => id@ == trim(client_id@) && id@.len() > 0,
            Err(e) => trim(client_id@).len() == 0 && e@
                == "OneDrive Client ID girin. Azure > App registrations, public client (device code) açık olsun."@,
        },
{
    let id = trim_text(client_id);
    if is_empty(id.as_str()) {
        Err(
            "OneDrive Client ID girin. Azure > App registrations, public client (device code) açık olsun.".to_owned(),
        )
    } else {
        Ok(id)
    }
}

/// The form that begins a login at OneDrive.
pub fn device_form(client_id: &str) -> (r: Vec<(String, String)>)
    ensures
        form_fields(r@) == seq![
            ("client_id"@, client_id@),
            ("scope"@, "offline_access User.Read Files.ReadWrite.AppFolder"@),
        ],
{
    let mut form: Vec<(String, String)> = Vec::new();
    assert(form_fields(form@) == Seq::<(Seq<char>, Seq<char>)>::empty());
    add_field(&mut form, "client_id", client_id);
    add_field(&mut form, "scope", "offline_access User.Read Files.ReadWrite.AppFolder");
    form
}

/// A login at OneDrive that has begun: the code that is asked about, the code that the user types
/// in, where it is typed in, how often is asked and for how long, in seconds.
pub struct DeviceLogin {
    pub device_code: String,
    pub user_code: String,
    pub uri: String,
    pub interval: u64,
    pub expires: u64,
}

/// Where the user types in the code.
pub open spec fn device_uri(json: JsonV) -> Seq<char> {
    match json.text("verification_uri_complete"@) {
        Some(u) => u,
        None => match json.text("verification_uri"@) {
            Some(u) => u,
            None => "https://microsoft.com/devicelogin"@,
        },
    }
}

/// How often is asked: as the service says, five seconds where it does not say, and never more
/// often than every three.
pub open spec fn device_interval(json: JsonV) -> u64 {
    let n = match json.number("interval"@) {
        Some(n) => n,
        None => 5,
    };
    if n < 3 {
        3
    } else {
        n
    }
}

/// How long is asked.
pub open spec fn device_expires(json: JsonV) -> u64 {
    match json.number("expires_in"@) {
        Some(n) => n,
        None => 900,
    }
}

/// The login that OneDrive's answer begins, or its refusal.
pub fn device_login(json: &Json) -> (r: Result<DeviceLogin, String>)
    ensures
        match r {
            Ok(d) => refusal("OneDrive"@, json@) is None && d.device_code@ == json@.text_or_empty(
                "device_code"@,
            ) && d.user_code@ == json@.text_or_empty("user_code"@) && d.uri@ == device_uri(json@)
                && d.interval == device_interval(json@) && d.expires == device_expires(json@),
            Err(e) => refusal("OneDrive"@, json@) == Some(e@),
        },
{
    if let Some(e) = refusal_of("OneDrive", json) {
        return Err(e);
    }
    let uri = match json.text("verification_uri_complete") {
        Some(u) => u,
        None => match json.text("verification_uri") {
            Some(u) => u,
            None => "https://microsoft.com/devicelogin".to_owned(),
        },
    };
    let n: u64 = match json.number("interval") {
        Some(n) => n,
        None => 5,
    };
    let interval: u64 = if n < 3 {
        3
    } else {
        n
    };
    let expires: u64 = match json.number("expires_in") {
        Some(n) => n,
        None => 900,
    };
    Ok(
        DeviceLogin {
            device_code: json.text_or_empty("device_code"),
            user_code: json.text_or_empty("user_code"),
            uri,
            interval,
            expires,
        },
    )
}

/// What the user is told to do.
pub fn device_message(login: &DeviceLogin) -> (r: String)
    ensures
        r@ == "Tarayıcıda oturum aç. Kod: "@ + login.user_code@ + "  —  "@ + login.uri@,
{
    cat4("Tarayıcıda oturum aç. Kod: ", login.user_code.as_str(), "  —  ", login.uri.as_str())
}

/// The form that asks whether the user has logged in.
pub fn poll_form(client_id: &str, login: &DeviceLogin) -> (r: Vec<(String, String)>)
    ensures
        form_fields(r@) == seq![
            ("grant_type"@, "urn:ietf:params:oauth:grant-type:device_code"@),
            ("client_id"@, client_id@),
            ("device_code"@, login.device_code@),
        ],
{
    let mut form: Vec<(String, String)> = Vec::new();
    assert(form_fields(form@) == Seq::<(Seq<char>, Seq<char>)>::empty());
    add_field(&mut form, "grant_type", "urn:ietf:params:oauth:grant-type:device_code");
    add_field(&mut form, "client_id", client_id);
    add_field(&mut form, "device_code", login.device_code.as_str());
    form
}

/// Until when is asked, where the login has begun at `now`.
pub fn device_deadline(now: u64, login: &DeviceLogin) -> (r: u64)
    requires
        now + login.expires <= u64::MAX,
    ensures
        r == now + login.expires,
{
    now + login.expires
}

/// Whether is asked once more.
pub fn may_poll(now: u64, deadline: u64) -> (r: Result<(), String>)
    ensures
        match r {
            Ok(_) => now < deadline,
            Err(e) => now >= deadline && e@ == "OneDrive girişi zaman aşımına uğradı."@,
        },
{
    if now >= deadline {
        Err("OneDrive girişi zaman aşımına uğradı.".to_owned())
    } else {
        Ok(())
    }
}

/// What OneDrive's answer to the question says.
pub enum Poll {
    /// The user has not logged in yet.
    Pending,
    /// Nor yet, and the question came too soon: one more interval is waited.
    SlowDown,
    /// The user has logged in.
    Done(OAuthToken),
    /// There will be no login.
    Failed(String),
}

/// What OneDrive's answer to the question says.
pub fn poll_answer(json: &Json, now: u64) -> (r: Poll)
    ensures
        match r {
            Poll::Pending => json@.text("error"@) == Some("authorization_pending"@),
            Poll::SlowDown => json@.text("error"@) == Some("slow_down"@),
            Poll::Done(t) => json@.text("error"@) is None && t@ == token_after(
                no_token(),
                json@,
                ""@,
                now,
            ),
            Poll::Failed(e) => json@.text("error"@) != Some("authorization_pending"@)
                && json@.text("error"@) != Some("slow_down"@) && refusal("OneDrive"@, json@)
                == Some(e@),
        },
{
    match json.text("error") {
        Some(err) => {
            if same(err.as_str(), "authorization_pending") {
                return Poll::Pending;
            }
            if same(err.as_str(), "slow_down") {
                proof {
                    reveal_strlit("slow_down");
                    reveal_strlit("authorization_pending");
                    assert("slow_down"@.len() != "authorization_pending"@.len());
                }
                return Poll::SlowDown;
            }
            match refusal_of("OneDrive", json) {
                Some(e) => Poll::Failed(e),
                None => Poll::Pending,
            }
        },
        None => {
            let mut tok = OAuthToken::default();
            apply_tokens(&mut tok, json, "", now);
            Poll::Done(tok)
        },
    }
}

/// What happens while the user logs in at OneDrive.
pub enum DeviceEvent {
    /// It is that late, and the next question is due.
    Ready(u64),
    /// A question was answered.
    Answered(Poll),
}

/// What is done next while the user logs in at OneDrive.
pub enum DeviceAction {
    /// So many seconds are waited, and then it is asked whether the user has logged in.
    Ask(u64),
    /// So many seconds are waited, and then the next question is due.
    Rest(u64),
    /// The user has logged in.
    Finish(OAuthToken),
    /// There will be no login.
    Stop(String),
}

/// What is done next while the user logs in. Before each question the interval of the login is
/// waited, and after an answer that it came too soon once more; after the deadline nothing is asked.
pub fn device_step(login: &DeviceLogin, deadline: u64, event: DeviceEvent) -> (r: DeviceAction)
    ensures
        match (event, r) {
            (DeviceEvent::Ready(now), DeviceAction::Ask(wait)) => now < deadline && wait
                == login.interval,
            (DeviceEvent::Ready(now), DeviceAction::Stop(e)) => now >= deadline && e@
                == "OneDrive girişi zaman aşımına uğradı."@,
            (DeviceEvent::Answered(Poll::Pending), DeviceAction::Rest(wait)) => wait == 0,
            (DeviceEvent::Answered(Poll::SlowDown), DeviceAction::Rest(wait)) => wait
                == login.interval,
            (DeviceEvent::Answered(Poll::Done(tok)), DeviceAction::Finish(t)) => t == tok,
            (DeviceEvent::Answered(Poll::Failed(why)), DeviceAction::Stop(e)) => e == why,
            _ => false,
        },
{
    match event {
        DeviceEvent::Ready(now) => match may_poll(now, deadline) {
            Ok(_) => DeviceAction::Ask(login.interval),
            Err(e) => DeviceAction::Stop(e),
        },
        DeviceEvent::Answered(Poll::Pending) => DeviceAction::Rest(0),
        DeviceEvent::Answered(Poll::SlowDown) => DeviceAction::Rest(login.interval),
        DeviceEvent::Answered(Poll::Done(tok)) => DeviceAction::Finish(tok),
        DeviceEvent::Answered(Poll::Failed(why)) => DeviceAction::Stop(why),
    }
}

// ---------------------------------------------------------------------------------------------
// Staying logged in
// ---------------------------------------------------------------------------------------------
/// What has to be done before a token is used.
#[derive(Clone, Copy, Debug, PartialEq, Eq, Structural)]
pub enum Renewal {
    /// Nothing.
    Fresh,
    /// It has to be renewed.
    Due,
    /// It cannot be renewed: the user has to log in again.
    Lost,
}

/// What has to be done before a token is used at `now`.
pub open spec fn renewal(t: TokenV, now: u64) -> Renewal {
    if now < t.expires_at && t.access_token.len() > 0 {
        Renewal::Fresh
    } else if t.refresh_token.len() == 0 {
        Renewal::Lost
    } else {
        Renewal::Due
    }
}

/// What has to be done before a token is used at `now`.
pub fn renewal_of(tok: &OAuthToken, now: u64) -> (r: Renewal)
    ensures
        r == renewal(tok@, now),
{
    if now < tok.expires_at && !is_empty(tok.access_token.as_str()) {
        Renewal::Fresh
    } else if is_empty(tok.refresh_token.as_str()) {
        Renewal::Lost
    } else {
        Renewal::Due
    }
}

/// What is said once a login is lost.
pub fn lost_login(service: &str) -> (r: String)
    ensures
        r@ == service@ + " oturumu düştü. Uygulama sekmesinden tekrar giriş yapın."@,
{
    cat2(service, " oturumu düştü. Uygulama sekmesinden tekrar giriş yapın.")
}

/// The form that renews a token at Google.
pub fn google_refresh_form(client_id: &str, secret: &str, tok: &OAuthToken) -> (r: Vec<
    (String, String),
>)
    ensures
        form_fields(r@) == ({
            let form = seq![
                ("client_id"@, client_id@),
                ("refresh_token"@, tok.refresh_token@),
                ("grant_type"@, "refresh_token"@),
            ];
            if trim(secret@).len() > 0 {
                form.push(("client_secret"@, trim(secret@)))
            } else {
                form
            }
        }),
{
    let mut form = onedrive_refresh_form(client_id, tok);
    let secret = trim_text(secret);
    if !is_empty(secret.as_str()) {
        add_field(&mut form, "client_secret", secret.as_str());
    }
    form
}

/// The form that renews a token at OneDrive.
pub fn onedrive_refresh_form(client_id: &str, tok: &OAuthToken) -> (r: Vec<(String, String)>)
    ensures
        form_fields(r@) == seq![
            ("client_id"@, client_id@),
            ("refresh_token"@, tok.refresh_token@),
            ("grant_type"@, "refresh_token"@),
        ],
{
    let mut form: Vec<(String, String)> = Vec::new();
    assert(form_fields(form@) == Seq::<(Seq<char>, Seq<char>)>::empty());
    add_field(&mut form, "client_id", client_id);
    add_field(&mut form, "refresh_token", tok.refresh_token.as_str());
    add_field(&mut form, "grant_type", "refresh_token");
    form
}

/// Takes the answer of `service` to a renewal at `now` into a token; one that holds an error
/// leaves the token as it is.
pub fn renewed(tok: &mut OAuthToken, service: &str, json: &Json, now: u64) -> (r: Result<(), String>)
    ensures
        match r {
            Ok(_) => json@.get("error"@) is None && final(tok)@ == token_after(
                old(tok)@,
                json@,
                old(tok)@.refresh_token,
                now,
            ),
            Err(e) => json@.get("error"@) is Some && final(tok)@ == old(tok)@ && e@ == service@
                + " oturumu yenilenemedi. Tekrar giriş yapın."@,
        },
{
    if json.get("error").is_some() {
        return Err(cat2(service, " oturumu yenilenemedi. Tekrar giriş yapın."));
    }
    let refresh = tok.refresh_token.clone();
    apply_tokens(tok, json, refresh.as_str(), now);
    Ok(())
}

// ---------------------------------------------------------------------------------------------
// Uploading
// ---------------------------------------------------------------------------------------------
/// The address that looks for the folder for backups at Google.
pub fn folder_search_url() -> (r: String)
    ensures
        r@ == "https://www.googleapis.com/drive/v3/files?q="@ + percent_encoded(
            "name = 'PanelMC' and mimeType = 'application/vnd.google-apps.folder' and trashed = false"@,
        ) + "&fields=files(id,name)&pageSize=1&spaces=drive"@,
{
    let q = url_encode(
        "name = 'PanelMC' and mimeType = 'application/vnd.google-apps.folder' and trashed = false",
    );
    cat3(
        "https://www.googleapis.com/drive/v3/files?q=",
        q.as_str(),
        "&fields=files(id,name)&pageSize=1&spaces=drive",
    )
}

/// The first item of a list.
pub open spec fn first_item(items: Option<Seq<JsonV>>) -> Option<JsonV> {
    match items {
        Some(list) => if list.len() > 0 {
            Some(list[0])
        } else {
            None
        },
        None => None,
    }
}

/// The folder that was found at Google.
pub open spec fn folder_found(json: JsonV) -> Option<Seq<char>> {
    match first_item(json.items("files"@)) {
        Some(f) => f.text("id"@),
        None => None,
    }
}

/// What has to be done for the folder for backups at Google.
pub enum FolderStep {
    /// The folder is known.
    Known(String),
    /// It has to be looked for.
    Search,
    /// It has to be made.
    Create,
}

/// What has to be done first for the folder for backups at Google.
pub fn folder_known(tok: &OAuthToken) -> (r: FolderStep)
    ensures
        match r {
            FolderStep::Known(id) => tok.folder_id@.len() > 0 && id@ == tok.folder_id@,
            FolderStep::Search => tok.folder_id@.len() == 0,
            FolderStep::Create => false,
        },
{
    if is_empty(tok.folder_id.as_str()) {
        FolderStep::Search
    } else {
        FolderStep::Known(tok.folder_id.clone())
    }
}

/// What has to be done once the folder was looked for; one that was found is noted.
pub fn folder_searched(tok: &mut OAuthToken, json: &Json) -> (r: FolderStep)
    ensures
        match r {
            FolderStep::Known(id) => folder_found(json@) == Some(id@) && final(tok)@ == (TokenV {
                folder_id: id@,
                ..old(tok)@
            }),
            FolderStep::Search => false,
            FolderStep::Create => folder_found(json@) is None && final(tok)@ == old(tok)@,
        },
{
    match json.items("files") {
        Some(files) => {
            if files.len() > 0 {
                proof {
                    lemma_json_views(files@);
                    assert(json_views(files@)[0] == files@[0]@);
                }
                if let Some(id) = files[0].text("id") {
                    tok.folder_id = id.clone();
                    return FolderStep::Known(id);
                }
            } else {
                proof {
                    lemma_json_views(files@);
                }
            }
            FolderStep::Create
        },
        None => FolderStep::Create,
    }
}

/// The folder that was made, which is noted.
pub fn folder_created(tok: &mut OAuthToken, json: &Json) -> (r: Result<String, String>)
    ensures
        match r {
            Ok(id) => json@.text("id"@) == Some(id@) && final(tok)@ == (TokenV {
                folder_id: id@,
                ..old(tok)@
            }),
            Err(e) => json@.text("id"@) is None && final(tok)@ == old(tok)@ && e@
                == "Google Drive klasörü oluşturulamadı."@,
        },
{
    match json.text("id") {
        Some(id) => {
            tok.folder_id = id.clone();
            Ok(id)
        },
        None => Err("Google Drive klasörü oluşturulamadı.".to_owned()),
    }
}

/// The description of the folder for backups.
pub fn folder_body() -> (r: Json)
    ensures
        r@ == JsonV::Null.with("name"@, JsonV::Str("PanelMC"@)).with(
            "mimeType"@,
            JsonV::Str("application/vnd.google-apps.folder"@),
        ),
{
    Json::Null.with("name", Json::Str("PanelMC".to_owned())).with(
        "mimeType",
        Json::Str("application/vnd.google-apps.folder".to_owned()),
    )
}

/// The login that an upload needs, where there is one.
pub fn login_for(tok: Option<OAuthToken>, service: &str) -> (r: Result<OAuthToken, String>)
    ensures
        match r {
            Ok(t) => tok == Some(t),
            Err(e) => tok is None && e@ == service@ + " ile giriş yapılmamış."@,
        },
{
    match tok {
        Some(t) => Ok(t),
        None => Err(cat2(service, " ile giriş yapılmamış.")),
    }
}

/// Whether a service has opened an upload: its answer's status says success.
pub fn upload_opened(service: &str, status: u16) -> (r: Result<(), String>)
    ensures
        match r {
            Ok(_) => 200 <= status < 300,
            Err(e) => !(200 <= status < 300) && e@ == service@ + " oturumu açılamadı: HTTP "@
                + decimal(status as nat),
        },
{
    if 200 <= status && status < 300 {
        Ok(())
    } else {
        Err(cat3(service, " oturumu açılamadı: HTTP ", decimal_of(status as u64).as_str()))
    }
}

/// The address of an upload to Google: the one that the answer's header names.
pub fn google_upload_url(location: Option<String>) -> (r: Result<String, String>)
    ensures
        match r {
            Ok(u) => location == Some(u),
            Err(e) => location is None && e@ == "Google yükleme adresi yok."@,
        },
{
    match location {
        Some(u) => Ok(u),
        None => Err("Google yükleme adresi yok.".to_owned()),
    }
}

/// The description of a backup for Google: its name, and the folder that it goes into.
pub fn google_upload_body(filename: &str, folder: &str) -> (r: Json)
    ensures
        r@ == JsonV::Null.with("name"@, JsonV::Str(filename@)).with(
            "parents"@,
            JsonV::Arr(seq![JsonV::Str(folder@)]),
        ),
{
    let parents: Vec<Json> = vec![Json::Str(folder.to_owned())];
    proof {
        lemma_json_views(parents@);
        assert(json_views(parents@) == seq![JsonV::Str(folder@)]);
    }
    Json::Null.with("name", Json::Str(filename.to_owned())).with("parents", Json::Arr(parents))
}

/// The description of a backup for OneDrive: its name, and that it replaces one of that name.
pub fn onedrive_upload_body(zip_name: &str) -> (r: Json)
    ensures
        r@ == JsonV::Null.with(
            "item"@,
            JsonV::Null.with("@microsoft.graph.conflictBehavior"@, JsonV::Str("replace"@)).with(
                "name"@,
                JsonV::Str(zip_name@),
            ),
        ),
{
    let item = Json::Null.with(
        "@microsoft.graph.conflictBehavior",
        Json::Str("replace".to_owned()),
    ).with("name", Json::Str(zip_name.to_owned()));
    Json::Null.with("item", item)
}

/// What a backup is called at Google.
pub fn google_file_name(server_id: &str, zip_name: &str) -> (r: String)
    ensures
        r@ == server_id@ + "-"@ + zip_name@,
{
    cat3(server_id, "-", zip_name)
}

/// Where the panel says that a backup is at Google.
pub fn google_place(filename: &str) -> (r: String)
    ensures
        r@ == "Google Drive / PanelMC / "@ + filename@,
{
    cat2("Google Drive / PanelMC / ", filename)
}

/// What a backup is called at OneDrive.
pub fn onedrive_path(server_id: &str, zip_name: &str) -> (r: String)
    ensures
        r@ == server_id@ + "/"@ + zip_name@,
{
    cat3(server_id, "/", zip_name)
}

/// Where the panel says that a backup is at OneDrive.
pub fn onedrive_place(remote: &str) -> (r: String)
    ensures
        r@ == "OneDrive / Apps / PanelMC / "@ + remote@,
{
    cat2("OneDrive / Apps / PanelMC / ", remote)
}

/// Each of `parts`, percent-encoded.
pub open spec fn each_encoded(parts: Seq<Seq<char>>) -> Seq<Seq<char>> {
    Seq::new(parts.len(), |i: int| percent_encoded(parts[i]))
}

/// The path `remote` with each of its parts percent-encoded.
pub open spec fn encoded_path(remote: Seq<char>) -> Seq<char> {
    join(each_encoded(split(remote, seq!['/'])), "/"@)
}

/// The address that opens an upload to OneDrive.
pub fn onedrive_session_url(remote: &str) -> (r: String)
    ensures
        r@ == "https://graph.microsoft.com/v1.0/me/drive/special/approot:/"@ + encoded_path(
            remote@,
        ) + ":/createUploadSession"@,
{
    let cs = chars_of(remote);
    let slash: Vec<char> = vec!['/'];
    assert(slash@ == seq!['/']);
    let parts = split_on(&cs, &slash);
    let n: usize = parts.len();
    let ghost want = each_encoded(pieces(parts@));
    let mut out: Vec<String> = Vec::new();
    assert(texts(out@) == want.take(0));
    for i in 0..n
        invariant
            n == parts@.len(),
            want == each_encoded(pieces(parts@)),
            texts(out@) == want.take(i as int),
    {
        let ghost o0 = texts(out@);
        let e = url_encode(string_of(&parts[i]).as_str());
        let ghost v = e@;
        out.push(e);
        assert(texts(out@) == o0.push(v));
        assert(want.take(i + 1) == want.take(i as int).push(want[i as int]));
    }
    assert(want.take(n as int) == want);
    let path = join_texts(&out, "/");
    cat3(
        "https://graph.microsoft.com/v1.0/me/drive/special/approot:/",
        path.as_str(),
        ":/createUploadSession",
    )
}

/// The address that an upload to OneDrive goes to.
pub fn onedrive_upload_url(json: &Json) -> (r: Result<String, String>)
    ensures
        match r {
            Ok(u) => json@.text("uploadUrl"@) == Some(u@),
            Err(e) => json@.text("uploadUrl"@) is None && e@ == "OneDrive yükleme adresi yok."@,
        },
{
    match json.text("uploadUrl") {
        Some(u) => Ok(u),
        None => Err("OneDrive yükleme adresi yok.".to_owned()),
    }
}

/// An upload in chunks: how many bytes were sent, and how many there are.
#[derive(Clone, Copy, Debug, PartialEq, Eq, Structural)]
pub struct Upload {
    pub offset: u64,
    pub total: u64,
}

/// What is said of a chunk of `n` bytes that begins at `start`.
pub open spec fn range(start: u64, n: u64, total: u64) -> Seq<char> {
    "bytes "@ + decimal(start as nat) + "-"@ + decimal((start + n - 1) as nat) + "/"@ + decimal(
        total as nat,
    )
}

impl Upload {
    /// An upload of `total` bytes.
    pub fn new(total: u64) -> (r: Upload)
        ensures
            r.offset == 0,
            r.total == total,
    {
        Upload { offset: 0, total }
    }

    /// Sends a chunk of `n` bytes: what is said of it. The next one begins where it ends.
    pub fn chunk(&mut self, n: u64) -> (r: String)
        requires
            n > 0,
            old(self).offset + n <= u64::MAX,
        ensures
            r@ == range(old(self).offset, n, old(self).total),
            final(self).offset == old(self).offset + n,
            final(self).total == old(self).total,
    {
        let start: u64 = self.offset;
        let end: u64 = start + (n - 1);
        self.offset = start + n;
        let mut s = span_text(start, end);
        s.append("/");
        s.append(decimal_of(self.total).as_str());
        s
    }

    /// Whether the upload is done once all chunks were sent: a backup without bytes is none.
    pub fn finish(self) -> (r: Result<(), String>)
        ensures
            match r {
                Ok(_) => self.total != 0,
                Err(e) => self.total == 0 && e@ == "Yedek dosyası boş."@,
            },
    {
        if self.total == 0 {
            Err("Yedek dosyası boş.".to_owned())
        } else {
            Ok(())
        }
    }
}

/// How many bytes were sent once chunks of the sizes `ns` were.
pub open spec fn sent_after(ns: Seq<u64>) -> int
    decreases ns.len(),
{
    if ns.len() == 0 {
        0
    } else {
        sent_after(ns.drop_last()) + ns.last()
    }
}

/// Whether the byte at `p` lies in the chunk `i` of an upload in chunks of the sizes `ns`.
pub open spec fn in_chunk(ns: Seq<u64>, i: int, p: int) -> bool {
    0 <= i < ns.len() && sent_after(ns.take(i)) <= p < sent_after(ns.take(i + 1))
}

/// The more chunks, the more bytes.
proof fn lemma_sent_grows(ns: Seq<u64>, i: int, j: int)
    requires
        0 <= i <= j <= ns.len(),
    ensures
        sent_after(ns.take(i)) <= sent_after(ns.take(j)),
    decreases j - i,
{
    if i < j {
        lemma_sent_grows(ns, i, j - 1);
        assert(ns.take(j).drop_last() == ns.take(j - 1));
    }
}

/// Each byte of an upload is sent once: of those that were sent, each lies in exactly one chunk.
pub proof fn law_each_byte_is_sent_once(ns: Seq<u64>, p: int)
    requires
        0 <= p < sent_after(ns),
    ensures
        exists|i: int| in_chunk(ns, i, p),
        forall|i: int, j: int| in_chunk(ns, i, p) && in_chunk(ns, j, p) ==> i == j,
    decreases ns.len(),
{
    let init = ns.drop_last();
    let last = ns.len() - 1;
    assert(ns.take(last) == init);
    assert(ns.take(last + 1) == ns);
    if p >= sent_after(init) {
        assert(in_chunk(ns, last, p));
    } else {
        law_each_byte_is_sent_once(init, p);
        let i = choose|i: int| in_chunk(init, i, p);
        assert(init.take(i) == ns.take(i));
        assert(init.take(i + 1) == ns.take(i + 1));
        assert(in_chunk(ns, i, p));
    }
    assert forall|i: int, j: int| in_chunk(ns, i, p) && in_chunk(ns, j, p) implies i == j by {
        if i < j {
            lemma_sent_grows(ns, i + 1, j);
        } else if j < i {
            lemma_sent_grows(ns, j + 1, i);
        }
    }
}

fn span_text(start: u64, end: u64) -> (r: String)
    ensures
        r@ == "bytes "@ + decimal(start as nat) + "-"@ + decimal(end as nat),
{
    cat4("bytes ", decimal_of(start).as_str(), "-", decimal_of(end).as_str())
}

/// Whether the service took a chunk.
pub fn chunk_taken(status: u16) -> (r: Result<(), String>)
    ensures
        match r {
            Ok(_) => status == 200 || status == 201 || status == 202 || status == 308,
            Err(e) => !(status == 200 || status == 201 || status == 202 || status == 308) && e@
                == "Yükleme kesildi: HTTP "@ + decimal(status as nat),
        },
{
    if status == 200 || status == 201 || status == 202 || status == 308 {
        Ok(())
    } else {
        Err(cat2("Yükleme kesildi: HTTP ", decimal_of(status as u64).as_str()))
    }
}

// ---------------------------------------------------------------------------------------------
// Where backups go
// ---------------------------------------------------------------------------------------------
/// Where backups go: as the settings say, or to the service that the user is logged in at, or to
/// a folder.
pub fn cloud_target(saved: &str, google: bool, onedrive: bool) -> (r: String)
    ensures
        r@ == (if saved@.len() > 0 {
            saved@
        } else if google {
            "google"@
        } else if onedrive {
            "onedrive"@
        } else {
            "folder"@
        }),
{
    if !is_empty(saved) {
        saved.to_owned()
    } else if google {
        "google".to_owned()
    } else if onedrive {
        "onedrive".to_owned()
    } else {
        "folder".to_owned()
    }
}

/// The folder that backups go to: as the settings say, or the first that was found.
pub fn cloud_folder(saved: &str, onedrive: &str, gdrive: &str, dropbox: &str) -> (r: String)
    ensures
        r@ == (if saved@.len() > 0 {
            saved@
        } else if onedrive@.len() > 0 {
            onedrive@
        } else if gdrive@.len() > 0 {
            gdrive@
        } else {
            dropbox@
        }),
{
    if !is_empty(saved) {
        saved.to_owned()
    } else if !is_empty(onedrive) {
        onedrive.to_owned()
    } else if !is_empty(gdrive) {
        gdrive.to_owned()
    } else {
        dropbox.to_owned()
    }
}

/// The kinds of places that backups go to.
#[derive(Clone, Copy, Debug, PartialEq, Eq, Structural)]
pub enum Target {
    Google,
    OneDrive,
    Folder,
}

/// Which kind of place `target` is.
pub fn upload_target(target: &str) -> (r: Target)
    ensures
        r == (if target@ == "google"@ {
            Target::Google
        } else if target@ == "onedrive"@ {
            Target::OneDrive
        } else {
            Target::Folder
        }),
{
    if same(target, "google") {
        Target::Google
    } else if same(target, "onedrive") {
        Target::OneDrive
    } else {
        Target::Folder
    }
}

/// Where backups go once the user has logged out of `service`.
pub fn target_after_logout(target: &str, service: &str) -> (r: String)
    ensures
        r@ == (if target@ == service@ {
            "folder"@
        } else {
            target@
        }),
{
    if same(target, service) {
        "folder".to_owned()
    } else {
        target.to_owned()
    }
}

/// Whether a backup can be copied to `folder`; `is_dir` says whether the folder is there,
/// `is_file` whether the backup is.
pub fn copy_backup_to_cloud_folder(name: &str, folder: &str, is_dir: bool, is_file: bool) -> (r:
    Result<String, String>)
    ensures
        match r {
            Ok(f) => is_backup(name@) && f@ == trim(folder@) && f@.len() > 0 && is_dir && is_file,
            Err(e) => if !is_backup(name@) {
                e@ == "Geçersiz yedek."@
            } else if trim(folder@).len() == 0 {
                e@ == "Uygulama ayarlarından OneDrive veya Google Drive klasörünü seçin."@
            } else if !is_dir {
                e@ == "Seçilen klasör yok. OneDrive/Drive masaüstü uygulaması kurulu mu?"@
            } else {
                !is_file && e@ == "Yedek bulunamadı."@
            },
        },
{
    if !is_safe_leaf_name(name) || !finishes_with(name, ".zip") {
        return Err("Geçersiz yedek.".to_owned());
    }
    let folder = trim_text(folder);
    if is_empty(folder.as_str()) {
        return Err("Uygulama ayarlarından OneDrive veya Google Drive klasörünü seçin.".to_owned());
    }
    if !is_dir {
        return Err(
            "Seçilen klasör yok. OneDrive/Drive masaüstü uygulaması kurulu mu?".to_owned(),
        );
    }
    if !is_file {
        return Err("Yedek bulunamadı.".to_owned());
    }
    Ok(folder)
}

/// Whether a backup can be taken and sent to `target`.
pub fn may_upload(target: &str, folder: &str, google_email: &str, onedrive_email: &str) -> (r:
    Result<(), String>)
    ensures
        match r {
            Ok(_) => !(target@ == "folder"@ && trim(folder@).len() == 0) && !(target@ == "google"@
                && google_email@.len() == 0) && !(target@ == "onedrive"@ && onedrive_email@.len()
                == 0),
            Err(e) => if target@ == "folder"@ {
                trim(folder@).len() == 0 && e@
                    == "Google/OneDrive girişi yapın veya senkron klasörü seçin."@
            } else if target@ == "google"@ {
                google_email@.len() == 0 && e@
                    == "Önce Uygulama sekmesinden Google ile giriş yapın."@
            } else {
                target@ == "onedrive"@ && onedrive_email@.len() == 0 && e@
                    == "Önce Uygulama sekmesinden OneDrive ile giriş yapın."@
            },
        },
{
    proof {
        reveal_strlit("folder");
        reveal_strlit("google");
        reveal_strlit("onedrive");
        assert("folder"@[0] != "google"@[0]);
        assert("folder"@.len() != "onedrive"@.len());
        assert("google"@.len() != "onedrive"@.len());
    }
    if same(target, "folder") && is_empty(trim_text(folder).as_str()) {
        return Err("Google/OneDrive girişi yapın veya senkron klasörü seçin.".to_owned());
    }
    if same(target, "google") && is_empty(google_email) {
        return Err("Önce Uygulama sekmesinden Google ile giriş yapın.".to_owned());
    }
    if same(target, "onedrive") && is_empty(onedrive_email) {
        return Err("Önce Uygulama sekmesinden OneDrive ile giriş yapın.".to_owned());
    }
    Ok(())
}

/// The folders of Dropbox that its file `info.json` names, last named first.
pub open spec fn dropbox_paths(info: JsonV) -> Seq<Seq<char>> {
    let personal = match info.get("personal"@) {
        Some(p) => p.text("path"@),
        None => None,
    };
    let business = match info.get("business"@) {
        Some(p) => p.text("path"@),
        None => None,
    };
    let first = match business {
        Some(p) => seq![p],
        None => Seq::empty(),
    };
    match personal {
        Some(p) => first.push(p),
        None => first,
    }
}

/// The folders of Dropbox that its file `info.json` names.
pub fn dropbox_folders(info: &Json) -> (r: Vec<String>)
    ensures
        texts(r@) == dropbox_paths(info@),
{
    let mut out: Vec<String> = Vec::new();
    assert(texts(out@) == Seq::<Seq<char>>::empty());
    if let Some(b) = info.get("business") {
        if let Some(p) = b.text("path") {
            let ghost v = p@;
            out.push(p);
            assert(texts(out@) == seq![v]);
        }
    }
    let ghost o0 = texts(out@);
    if let Some(b) = info.get("personal") {
        if let Some(p) = b.text("path") {
            let ghost v = p@;
            out.push(p);
            assert(texts(out@) == o0.push(v));
        }
    }
    out
}

// ---------------------------------------------------------------------------------------------
// Laws
// ---------------------------------------------------------------------------------------------
/// A token for renewing that the service sends takes the place of the one that was there, whatever
/// that was. Where it sends none, or an empty one, the old one stays; only where there is neither
/// does the other one that is given count.
pub proof fn law_token_for_renewing(t: TokenV, json: JsonV, fallback: Seq<char>, now: u64)
    ensures
        json.text("refresh_token"@) is Some && json.text("refresh_token"@)->0.len() > 0 ==> token_after(
            t,
            json,
            fallback,
            now,
        ).refresh_token == json.text("refresh_token"@)->0,
        json.text("refresh_token"@) == Some(Seq::<char>::empty()) ==> token_after(
            t,
            json,
            fallback,
            now,
        ).refresh_token == t.refresh_token,
        json.text("refresh_token"@) is None && t.refresh_token.len() > 0 ==> token_after(
            t,
            json,
            fallback,
            now,
        ).refresh_token == t.refresh_token,
        json.text("refresh_token"@) is None && t.refresh_token.len() == 0 ==> token_after(
            t,
            json,
            fallback,
            now,
        ).refresh_token == fallback,
{
}

/// A token for requests that the service sends takes the place of the one that was there; it ends a
/// minute before the service says, or 59 minutes from now where it does not say. The account and the
/// folder stay.
pub proof fn law_token_for_requests(t: TokenV, json: JsonV, fallback: Seq<char>, now: u64)
    ensures
        ({
            let r = token_after(t, json, fallback, now);
            &&& json.text("access_token"@) is Some ==> r.access_token == json.text("access_token"@)->0
            &&& json.text("access_token"@) is None ==> r.access_token == t.access_token
            &&& json.number("expires_in"@) is Some && 60 <= json.number("expires_in"@)->0 && now
                + json.number("expires_in"@)->0 - 60 <= u64::MAX ==> r.expires_at == now + json.number(
                "expires_in"@,
            )->0 - 60
            &&& json.number("expires_in"@) is Some && json.number("expires_in"@)->0 <= 60
                ==> r.expires_at == now
            &&& json.number("expires_in"@) is None && now + 3540 <= u64::MAX ==> r.expires_at == now
                + 3540
            &&& r.expires_at >= now
            &&& r.email == t.email
            &&& r.folder_id == t.folder_id
            &&& no_token().access_token.len() == 0 && no_token().refresh_token.len() == 0
                && no_token().expires_at == 0 && no_token().email.len() == 0
                && no_token().folder_id.len() == 0
        }),
{
}

/// A token is used until it ends. After that it is renewed, where there is a token for renewing, and
/// else lost.
pub proof fn law_when_a_token_is_renewed(t: TokenV, now: u64)
    ensures
        renewal(t, now) == Renewal::Fresh <==> now < t.expires_at && t.access_token.len() > 0,
        renewal(t, now) == Renewal::Due <==> !(now < t.expires_at && t.access_token.len() > 0)
            && t.refresh_token.len() > 0,
        renewal(t, now) == Renewal::Lost <==> !(now < t.expires_at && t.access_token.len() > 0)
            && t.refresh_token.len() == 0,
{
}

/// A service refuses exactly where its answer holds an error; what it says of it follows its name.
pub proof fn law_refusals(service: Seq<char>, json: JsonV)
    ensures
        refusal(service, json) is Some <==> json.text("error"@) is Some,
        json.text("error"@) is Some ==> refusal(service, json) == Some(
            service + seq![':', ' '] + json.text("error"@)->0 + seq![' '] + json.text_or_empty(
                "error_description"@,
            ),
        ),
{
    reveal_strlit(": ");
    reveal_strlit(" ");
    assert(": "@ =~= seq![':', ' ']);
    assert(" "@ =~= seq![' ']);
}

/// OneDrive's account is the principal name, or the mail address where there is none.
pub proof fn law_account_at_onedrive(json: JsonV)
    ensures
        json.text("userPrincipalName"@) is Some ==> onedrive_account(json) == json.text(
            "userPrincipalName"@,
        )->0,
        json.get("userPrincipalName"@) is None && json.text("mail"@) is Some ==> onedrive_account(json)
            == json.text("mail"@)->0,
        json.get("userPrincipalName"@) is None && json.text("mail"@) is None ==> onedrive_account(json)
            == Seq::<char>::empty(),
{
}

/// The first line of a text is what stands before its first line feed, without a carriage return.
proof fn lemma_first_line(line: Seq<char>, rest: Seq<char>)
    requires
        !line.contains('\n'),
    ensures
        lines(line + seq!['\r', '\n'] + rest).len() > 0,
        lines(line + seq!['\r', '\n'] + rest)[0] == line,
{
    let seps = seq!['\n'];
    assert(seps[0] == '\n');
    let ended = line.push('\r');
    assert forall|i: int| 0 <= i < ended.len() implies !seps.contains(#[trigger] ended[i]) by {
        if i < line.len() {
            assert(line.contains(line[i]));
        }
    }
    crate::text::lemma_split_whole(ended, seps);
    crate::text::lemma_split_append(ended, '\n', rest, seps);
    crate::text::lemma_split_nonempty(rest, seps);
    let whole = line + seq!['\r', '\n'] + rest;
    assert(whole == ended.push('\n') + rest);
    let parts = split(whole, seps);
    assert(parts[0] == ended);
    assert(crate::text::chomp(ended) == line) by {
        assert(ended.drop_last() == line);
    }
}

/// The query that the browser comes back with is read out of the request that it sends.
proof fn lemma_query_in(query: Seq<char>, rest: Seq<char>)
    requires
        forall|i: int| 0 <= i < query.len() ==> !crate::text::is_white(#[trigger] query[i]),
    ensures
        query_in(
            seq!['G', 'E', 'T', ' ', '/', '?'] + query + seq![
                ' ',
                'H',
                'T',
                'T',
                'P',
                '/',
                '1',
                '.',
                '1',
                '\r',
                '\n',
            ] + rest,
        ) == query,
{
    let get = seq!['G', 'E', 'T'];
    let path = seq!['/', '?'] + query;
    let http = seq!['H', 'T', 'T', 'P', '/', '1', '.', '1'];
    let tail = path + seq![' '] + http;
    let line = get + seq![' '] + tail;
    assert forall|i: int| 0 <= i < line.len() implies line[i] != '\n' by {
        if 6 <= i < 6 + query.len() {
            assert(line[i] == query[i - 6]);
            assert(!crate::text::is_white(query[i - 6]));
        }
    }
    lemma_first_line(line, rest);
    assert(seq!['G', 'E', 'T', ' ', '/', '?'] + query + seq![
        ' ',
        'H',
        'T',
        'T',
        'P',
        '/',
        '1',
        '.',
        '1',
        '\r',
        '\n',
    ] + rest =~= line + seq!['\r', '\n'] + rest);
    assert forall|i: int| 0 <= i < path.len() implies !crate::text::is_white(#[trigger] path[i]) by {
        if i >= 2 {
            assert(path[i] == query[i - 2]);
        }
    }
    crate::text::law_words(get, ' ', tail);
    crate::text::law_words(path, ' ', http);
    crate::text::law_words(http, ' ', http);
    assert(words(get) == seq![get]);
    assert(words(path) == seq![path]);
    assert(words(line) == seq![get] + (seq![path] + words(http)));
    assert(words(line)[1] == path);
    crate::text::law_divided(seq!['/'], '?', query);
    assert(!seq!['/'].contains('?')) by {
        assert(seq!['/'][0] == '/');
    }
    assert(seq!['/'] + seq!['?'] + query =~= path);
}

/// The code with which the browser comes back is the one that is in the address, decoded, and an
/// error in the address is said instead.
pub proof fn law_code_of_a_login(value: Seq<char>, rest: Seq<char>)
    ensures
        code_in(
            "GET /?code="@ + percent_encoded(value) + " HTTP/1.1\r\n"@ + rest,
        ) == Ok::<Seq<char>, Seq<char>>(crate::percent::percent_decoded(percent_encoded(value))),
        code_in(
            "GET /?error="@ + percent_encoded(value) + " HTTP/1.1\r\n"@ + rest,
        ) == Err::<Seq<char>, Seq<char>>(
            "Giriş reddedildi: "@ + crate::percent::percent_decoded(percent_encoded(value)),
        ),
{
    reveal_strlit("GET /?code=");
    reveal_strlit("GET /?error=");
    reveal_strlit(" HTTP/1.1\r\n");
    reveal_strlit("code");
    reveal_strlit("error");
    let enc = percent_encoded(value);
    let code = seq!['c', 'o', 'd', 'e'];
    let error = seq!['e', 'r', 'r', 'o', 'r'];
    assert("code"@ =~= code);
    assert("error"@ =~= error);
    let end = seq![' ', 'H', 'T', 'T', 'P', '/', '1', '.', '1', '\r', '\n'];
    let start = seq!['G', 'E', 'T', ' ', '/', '?'];
    assert(" HTTP/1.1\r\n"@ =~= end);
    let q = code + seq!['='] + enc;
    let e = error + seq!['='] + enc;
    assert("GET /?code="@ + enc + " HTTP/1.1\r\n"@ + rest =~= start + q + end + rest);
    assert("GET /?error="@ + enc + " HTTP/1.1\r\n"@ + rest =~= start + e + end + rest);
    assert forall|i: int| 0 <= i < enc.len() implies !crate::text::is_white(#[trigger] enc[i]) && enc[i]
        != '&' by {
        crate::percent::law_encoded_text(value, i);
    }
    assert forall|i: int| 0 <= i < q.len() implies !crate::text::is_white(#[trigger] q[i]) by {
        if i >= 5 {
            assert(q[i] == enc[i - 5]);
        }
    }
    assert forall|i: int| 0 <= i < e.len() implies !crate::text::is_white(#[trigger] e[i]) by {
        if i >= 6 {
            assert(e[i] == enc[i - 6]);
        }
    }
    lemma_query_in(q, rest);
    lemma_query_in(e, rest);
    let none = Seq::<char>::empty();
    crate::percent::law_query_of_many(code, enc, none, code);
    crate::percent::law_query_of_many(code, enc, none, error);
    crate::percent::law_query_of_many(error, enc, none, error);
    assert(code.len() != error.len());
}

/// The address at which the user logs in at Google hands on, in its query, the application, where the
/// browser comes back to, what it asks for, and what is shown of the secret.
pub proof fn law_login_at_google(client_id: Seq<char>, port: u16, challenge: Seq<char>)
    requires
        !challenge.contains('&'),
    ensures
        ({
            let url = google_auth_url(client_id, port, challenge);
            let host = "https://accounts.google.com/o/oauth2/v2/auth?"@;
            let query = url.skip(host.len() as int);
            &&& crate::text::starts_with(url, host)
            &&& query_value(query, "client_id"@) == Some(
                crate::percent::percent_decoded(percent_encoded(client_id)),
            )
            &&& query_value(query, "redirect_uri"@) == Some(
                crate::percent::percent_decoded(
                    percent_encoded("http://127.0.0.1:"@ + decimal(port as nat)),
                ),
            )
            &&& query_value(query, "response_type"@) == Some(crate::percent::percent_decoded("code"@))
            &&& query_value(query, "scope"@) == Some(
                crate::percent::percent_decoded(
                    percent_encoded("https://www.googleapis.com/auth/drive.file"@),
                ),
            )
            &&& query_value(query, "access_type"@) == Some(crate::percent::percent_decoded("offline"@))
            &&& query_value(query, "code_challenge"@) == Some(
                crate::percent::percent_decoded(challenge),
            )
            &&& query_value(query, "code_challenge_method"@) == Some(
                crate::percent::percent_decoded("S256"@),
            )
        }),
{
    let e1 = percent_encoded(client_id);
    let e2 = percent_encoded(redirect_of(port));
    let e3 = percent_encoded("https://www.googleapis.com/auth/drive.file"@);
    lemma_no_ampersand(client_id);
    lemma_no_ampersand(redirect_of(port));
    lemma_no_ampersand("https://www.googleapis.com/auth/drive.file"@);
    reveal_strlit("https://accounts.google.com/o/oauth2/v2/auth?client_id=");
    reveal_strlit("https://accounts.google.com/o/oauth2/v2/auth?");
    reveal_strlit("&redirect_uri=");
    reveal_strlit("&response_type=code&scope=");
    reveal_strlit("&access_type=offline&prompt=consent&code_challenge=");
    reveal_strlit("&code_challenge_method=S256");
    reveal_strlit("client_id");
    reveal_strlit("redirect_uri");
    reveal_strlit("response_type");
    reveal_strlit("scope");
    reveal_strlit("access_type");
    reveal_strlit("prompt");
    reveal_strlit("code_challenge");
    reveal_strlit("code_challenge_method");
    reveal_strlit("code");
    reveal_strlit("offline");
    reveal_strlit("consent");
    reveal_strlit("S256");
    let eq = seq!['='];
    let amp = seq!['&'];
    let r8 = "code_challenge_method"@ + eq + "S256"@;
    let r7 = "code_challenge"@ + eq + challenge + amp + r8;
    let r6 = "prompt"@ + eq + "consent"@ + amp + r7;
    let r5 = "access_type"@ + eq + "offline"@ + amp + r6;
    let r4 = "scope"@ + eq + e3 + amp + r5;
    let r3 = "response_type"@ + eq + "code"@ + amp + r4;
    let r2 = "redirect_uri"@ + eq + e2 + amp + r3;
    let r1 = "client_id"@ + eq + e1 + amp + r2;
    let host = "https://accounts.google.com/o/oauth2/v2/auth?"@;
    assert(host + "client_id"@ + eq =~= "https://accounts.google.com/o/oauth2/v2/auth?client_id="@);
    assert(amp + "redirect_uri"@ + eq =~= "&redirect_uri="@);
    assert(amp + "response_type"@ + eq + "code"@ + amp + "scope"@ + eq
        =~= "&response_type=code&scope="@);
    assert(amp + "access_type"@ + eq + "offline"@ + amp + "prompt"@ + eq + "consent"@ + amp
        + "code_challenge"@ + eq =~= "&access_type=offline&prompt=consent&code_challenge="@);
    assert(amp + r8 =~= "&code_challenge_method=S256"@);
    let url = google_auth_url(client_id, port, challenge);
    assert(url =~= host + r1);
    assert(url.skip(host.len() as int) =~= r1);
    assert(url.take(host.len() as int) =~= host);
    lemma_login_parts(e1, e2, e3, challenge, "client_id"@);
    lemma_login_parts(e1, e2, e3, challenge, "redirect_uri"@);
    lemma_login_parts(e1, e2, e3, challenge, "response_type"@);
    lemma_login_parts(e1, e2, e3, challenge, "scope"@);
    lemma_login_parts(e1, e2, e3, challenge, "access_type"@);
    lemma_login_parts(e1, e2, e3, challenge, "code_challenge"@);
    lemma_login_parts(e1, e2, e3, challenge, "code_challenge_method"@);
    assert("client_id"@.len() == 9 && "redirect_uri"@.len() == 12 && "response_type"@.len() == 13
        && "scope"@.len() == 5 && "access_type"@.len() == 11 && "prompt"@.len() == 6
        && "code_challenge"@.len() == 14 && "code_challenge_method"@.len() == 21);
}

proof fn lemma_no_ampersand(s: Seq<char>)
    ensures
        !percent_encoded(s).contains('&'),
{
    let e = percent_encoded(s);
    assert forall|i: int| 0 <= i < e.len() implies e[i] != '&' by {
        crate::percent::law_encoded_text(s, i);
    }
}

/// What the query of a login at Google gives for a parameter.
proof fn lemma_login_parts(
    e1: Seq<char>,
    e2: Seq<char>,
    e3: Seq<char>,
    challenge: Seq<char>,
    key: Seq<char>,
)
    requires
        !e1.contains('&'),
        !e2.contains('&'),
        !e3.contains('&'),
        !challenge.contains('&'),
    ensures
        ({
            let eq = seq!['='];
            let amp = seq!['&'];
            let r8 = "code_challenge_method"@ + eq + "S256"@;
            let r7 = "code_challenge"@ + eq + challenge + amp + r8;
            let r6 = "prompt"@ + eq + "consent"@ + amp + r7;
            let r5 = "access_type"@ + eq + "offline"@ + amp + r6;
            let r4 = "scope"@ + eq + e3 + amp + r5;
            let r3 = "response_type"@ + eq + "code"@ + amp + r4;
            let r2 = "redirect_uri"@ + eq + e2 + amp + r3;
            let r1 = "client_id"@ + eq + e1 + amp + r2;
            query_value(r1, key) == (if key == "client_id"@ {
                Some(crate::percent::percent_decoded(e1))
            } else if key == "redirect_uri"@ {
                Some(crate::percent::percent_decoded(e2))
            } else if key == "response_type"@ {
                Some(crate::percent::percent_decoded("code"@))
            } else if key == "scope"@ {
                Some(crate::percent::percent_decoded(e3))
            } else if key == "access_type"@ {
                Some(crate::percent::percent_decoded("offline"@))
            } else if key == "prompt"@ {
                Some(crate::percent::percent_decoded("consent"@))
            } else if key == "code_challenge"@ {
                Some(crate::percent::percent_decoded(challenge))
            } else if key == "code_challenge_method"@ {
                Some(crate::percent::percent_decoded("S256"@))
            } else {
                None
            })
        }),
{
    reveal_strlit("client_id");
    reveal_strlit("redirect_uri");
    reveal_strlit("response_type");
    reveal_strlit("scope");
    reveal_strlit("access_type");
    reveal_strlit("prompt");
    reveal_strlit("code_challenge");
    reveal_strlit("code_challenge_method");
    reveal_strlit("code");
    reveal_strlit("offline");
    reveal_strlit("consent");
    reveal_strlit("S256");
    let eq = seq!['='];
    let amp = seq!['&'];
    let none = Seq::<char>::empty();
    let r8 = "code_challenge_method"@ + eq + "S256"@;
    let r7 = "code_challenge"@ + eq + challenge + amp + r8;
    let r6 = "prompt"@ + eq + "consent"@ + amp + r7;
    let r5 = "access_type"@ + eq + "offline"@ + amp + r6;
    let r4 = "scope"@ + eq + e3 + amp + r5;
    let r3 = "response_type"@ + eq + "code"@ + amp + r4;
    let r2 = "redirect_uri"@ + eq + e2 + amp + r3;
    crate::percent::law_query_of_many("code_challenge_method"@, "S256"@, none, key);
    crate::percent::law_query_of_many("code_challenge"@, challenge, r8, key);
    crate::percent::law_query_of_many("prompt"@, "consent"@, r7, key);
    crate::percent::law_query_of_many("access_type"@, "offline"@, r6, key);
    crate::percent::law_query_of_many("scope"@, e3, r5, key);
    crate::percent::law_query_of_many("response_type"@, "code"@, r4, key);
    crate::percent::law_query_of_many("redirect_uri"@, e2, r3, key);
    crate::percent::law_query_of_many("client_id"@, e1, r2, key);
}

/// The form that turns a code into a token holds the code, the application, where the browser came
/// back to, the kind of request and the secret of the login; the secret of the application is added
/// where there is one.
pub proof fn law_form_of_a_login(
    code: Seq<char>,
    client_id: Seq<char>,
    redirect: Seq<char>,
    verifier: Seq<char>,
    secret: Seq<char>,
)
    ensures
        ({
            let form = google_fields(code, client_id, redirect, verifier, secret);
            &&& form.contains(("code"@, code))
            &&& form.contains(("client_id"@, client_id))
            &&& form.contains(("redirect_uri"@, redirect))
            &&& form.contains(("grant_type"@, "authorization_code"@))
            &&& form.contains(("code_verifier"@, verifier))
            &&& trim(secret).len() > 0 ==> form.len() == 6 && form.contains(
                ("client_secret"@, trim(secret)),
            )
            &&& trim(secret).len() == 0 ==> form.len() == 5
        }),
{
    let form = google_fields(code, client_id, redirect, verifier, secret);
    assert(form[0] == ("code"@, code));
    assert(form[1] == ("client_id"@, client_id));
    assert(form[2] == ("redirect_uri"@, redirect));
    assert(form[3] == ("grant_type"@, "authorization_code"@));
    assert(form[4] == ("code_verifier"@, verifier));
    if trim(secret).len() > 0 {
        assert(form[5] == ("client_secret"@, trim(secret)));
    }
}

/// OneDrive is asked as often as it says, but not more often than every three seconds, and for as
/// long as it says; it is asked every five seconds, and for fifteen minutes, where it does not say.
/// The user is sent to the address that holds the code, or to the one that does not, or to the usual
/// one.
pub proof fn law_how_onedrive_is_asked(json: JsonV)
    ensures
        device_interval(json) >= 3,
        json.number("interval"@) is Some && json.number("interval"@)->0 >= 3 ==> device_interval(json)
            == json.number("interval"@)->0,
        json.number("interval"@) is Some && json.number("interval"@)->0 < 3 ==> device_interval(json)
            == 3,
        json.number("interval"@) is None ==> device_interval(json) == 5,
        json.number("expires_in"@) is Some ==> device_expires(json) == json.number("expires_in"@)->0,
        json.number("expires_in"@) is None ==> device_expires(json) == 15 * 60,
        json.text("verification_uri_complete"@) is Some ==> device_uri(json) == json.text(
            "verification_uri_complete"@,
        )->0,
        json.text("verification_uri_complete"@) is None && json.text("verification_uri"@) is Some
            ==> device_uri(json) == json.text("verification_uri"@)->0,
        json.text("verification_uri_complete"@) is None && json.text("verification_uri"@) is None
            ==> device_uri(json) == "https://microsoft.com/devicelogin"@,
{
}

/// The folder that is found is the first of those that are listed; none where none is.
pub proof fn law_first_of_a_list(items: Seq<JsonV>, json: JsonV)
    ensures
        items.len() > 0 ==> first_item(Some(items)) == Some(items[0]),
        items.len() == 0 ==> first_item(Some(items)) is None,
        first_item(None) is None,
        json.items("files"@) is Some && json.items("files"@)->0.len() > 0 ==> folder_found(json)
            == json.items("files"@)->0[0].text("id"@),
        json.items("files"@) is None || json.items("files"@)->0.len() == 0 ==> folder_found(json) is None,
{
}

/// What a backup is called at OneDrive is encoded part by part: the slash between the server and the
/// backup stays, and everything else that is not a letter, a digit or one of a few signs is encoded.
pub proof fn law_path_at_onedrive(server: Seq<char>, zip: Seq<char>)
    requires
        !server.contains('/'),
        !zip.contains('/'),
    ensures
        encoded_path(server + seq!['/'] + zip) == percent_encoded(server) + seq!['/']
            + percent_encoded(zip),
{
    reveal_strlit("/");
    assert("/"@ =~= seq!['/']);
    let seps = seq!['/'];
    assert(seps[0] == '/');
    assert forall|i: int| 0 <= i < server.len() implies !seps.contains(#[trigger] server[i]) by {
        assert(server.contains(server[i]));
    }
    assert forall|i: int| 0 <= i < zip.len() implies !seps.contains(#[trigger] zip[i]) by {
        assert(zip.contains(zip[i]));
    }
    crate::text::lemma_split_whole(server, seps);
    crate::text::lemma_split_whole(zip, seps);
    crate::text::lemma_split_append(server, '/', zip, seps);
    assert(server + seq!['/'] + zip == server.push('/') + zip);
    assert(seq![server] + seq![zip] =~= seq![server, zip]);
    let parts = each_encoded(seq![server, zip]);
    assert(parts =~= seq![percent_encoded(server), percent_encoded(zip)]);
    assert(parts.drop_last() =~= seq![percent_encoded(server)]);
    assert(join(parts.drop_last(), "/"@) == percent_encoded(server));
}

/// A chunk says which bytes it holds, from the first to the last, and how many there are in all; the
/// next chunk begins with the byte after its last.
pub proof fn law_range_of_a_chunk(start: u64, n: u64, total: u64, ns: Seq<u64>, more: u64)
    requires
        n > 0,
        start + n <= u64::MAX,
    ensures
        range(start, n, total) == "bytes "@ + decimal(start as nat) + seq!['-'] + decimal(
            (start + n - 1) as nat,
        ) + seq!['/'] + decimal(total as nat),
        sent_after(Seq::empty()) == 0,
        sent_after(ns.push(more)) == sent_after(ns) + more,
{
    reveal_strlit("-");
    reveal_strlit("/");
    assert("-"@ =~= seq!['-']);
    assert("/"@ =~= seq!['/']);
    assert(ns.push(more).drop_last() == ns);
}

/// The folders of Dropbox are that of the business, then the user's own, as far as they are named.
pub proof fn law_folders_of_dropbox(info: JsonV)
    ensures
        ({
            let own = if info.get("personal"@) is Some {
                info.get("personal"@)->0.text("path"@)
            } else {
                None
            };
            let firm = if info.get("business"@) is Some {
                info.get("business"@)->0.text("path"@)
            } else {
                None
            };
            &&& firm is Some && own is Some ==> dropbox_paths(info) == seq![firm->0, own->0]
            &&& firm is Some && own is None ==> dropbox_paths(info) == seq![firm->0]
            &&& firm is None && own is Some ==> dropbox_paths(info) == seq![own->0]
            &&& firm is None && own is None ==> dropbox_paths(info) == Seq::<Seq<char>>::empty()
        }),
{
    let own = if info.get("personal"@) is Some {
        info.get("personal"@)->0.text("path"@)
    } else {
        None
    };
    let firm = if info.get("business"@) is Some {
        info.get("business"@)->0.text("path"@)
    } else {
        None
    };
    if firm is Some && own is Some {
        assert(dropbox_paths(info) =~= seq![firm->0, own->0]);
    } else if own is Some {
        assert(dropbox_paths(info) =~= seq![own->0]);
    }
}

/// The fields of a form are seen one by one, and a token with all that it holds.
pub proof fn law_forms_and_tokens(form: Seq<(String, String)>, tok: OAuthToken, port: u16)
    ensures
        form_fields(form).len() == form.len(),
        forall|i: int|
            0 <= i < form.len() ==> #[trigger] form_fields(form)[i] == (form[i].0@, form[i].1@),
        tok@.access_token == tok.access_token@ && tok@.refresh_token == tok.refresh_token@,
        tok@.expires_at == tok.expires_at && tok@.email == tok.email@ && tok@.folder_id
            == tok.folder_id@,
        redirect_of(port) == "http://127.0.0.1:"@ + decimal(port as nat),
{
}

} // verus!
