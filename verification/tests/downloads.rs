use std::io::Cursor;

use panelmc::digest::{hex_encode, pkce_from, pkce_of, pkce_pair, sha1_hex, sha256_hex};
use panelmc::icons::{
    bytes_to_icon_pixels, cache_file, icon_from_bytes, icon_of, icon_size_ok, normalize_icon_url,
    safe_cache_name,
};
use panelmc::json::{parse_json, Json};
use panelmc::playit::{
    binary_ready, capture_address, capture_claim, check_address, check_download, check_sum,
    download_progress, may_open_claim, phase_text, pick_asset, shows_running, tunnel_hint,
    wanted_asset_name, Command, Event, Phase, ReleaseAsset, Supervisor,
};
use panelmc::releases::{
    fabric_server_url, first_stable_versions, format_version_rows, is_release, newer_release,
    paper_build_url, paper_server_url, paper_versions, parse_version, purpur_url, purpur_versions,
    source_of, unknown_software, vanilla_entry, vanilla_server_url, versions_note, Offered, Source,
};

fn json(text: &str) -> Json {
    parse_json(text.as_bytes()).expect("json")
}

#[test]
fn checksums() {
    assert_eq!(sha1_hex(b"abc"), "a9993e364706816aba3e25717850c26c9cd0d89d");
    assert_eq!(sha1_hex(b""), "da39a3ee5e6b4b0d3255bfef95601890afd80709");
    assert_eq!(
        sha256_hex(b"abc"),
        "ba7816bf8f01cfea414140de5dae2223b00361a396177a9cb410ff61f20015ad"
    );
    assert_eq!(hex_encode(&[0, 15, 16, 255]), "000f10ff");
}

#[test]
fn the_secret_of_a_login() {
    let p = pkce_from(&[0, 0, 62, 255, 255, 255]);
    assert_eq!(p.verifier, "AAA-____");
    assert_eq!(pkce_from(&[251]).verifier, "-w");
    assert_eq!(pkce_from(&[251, 240]).verifier, "-_A");
    assert_eq!(pkce_from(b"any carnal pleas").verifier, "YW55IGNhcm5hbCBwbGVhcw");
    let p = pkce_from(b"");
    assert_eq!(p.verifier, "");
    assert_eq!(p.challenge, "47DEQpj8HBSa-_TImW-5JCeuQeRkm5NMpJWZG3hSuFU");
    let p = pkce_of(Ok(vec![251, 240])).ok().expect("pair");
    assert_eq!(p.verifier, "-_A");
    assert_eq!(p.challenge, pkce_from(&[251, 240]).challenge);
    assert_eq!(pkce_of(Err("no bytes".to_string())).err().as_deref(), Some("no bytes"));
    let a = pkce_pair().ok().expect("random");
    let b = pkce_pair().ok().expect("random");
    assert_eq!(a.verifier.len(), 43);
    assert_eq!(a.challenge.len(), 43);
    assert_ne!(a.verifier, b.verifier);
    assert!(a.verifier.chars().all(|c| c.is_ascii_alphanumeric() || c == '-' || c == '_'));
}

#[test]
fn icons() {
    assert_eq!(normalize_icon_url(" //cdn/x.png "), Some("https://cdn/x.png".to_string()));
    assert_eq!(normalize_icon_url("http://x"), Some("http://x".to_string()));
    assert_eq!(normalize_icon_url("https://x"), Some("https://x".to_string()));
    assert_eq!(normalize_icon_url("data:x"), None);
    assert_eq!(normalize_icon_url("  "), None);
    assert_eq!(safe_cache_name("spiget:12/ç"), "spiget_12__");
    assert_eq!(safe_cache_name(""), "icon");
    assert_eq!(cache_file("a-b_c"), "a-b_c.bin");
    assert!(!icon_size_ok(23));
    assert!(icon_size_ok(24));
    assert!(icon_size_ok(1_500_000));
    assert!(!icon_size_ok(1_500_001));
    assert!(icon_of(0, 5, vec![]).is_none());
    assert!(icon_of(5, 0, vec![]).is_none());
    assert_eq!(icon_of(1, 1, vec![1, 2, 3, 4]).expect("icon").rgba, vec![1, 2, 3, 4]);
}

fn png(width: u32, height: u32) -> Vec<u8> {
    let img = image::RgbaImage::from_pixel(width, height, image::Rgba([10, 20, 30, 255]));
    let mut out = Cursor::new(Vec::new());
    img.write_to(&mut out, image::ImageFormat::Png).unwrap();
    out.into_inner()
}

#[test]
fn icons_are_scaled_down() {
    let p = bytes_to_icon_pixels(&png(200, 100)).expect("icon");
    assert_eq!((p.width, p.height), (64, 32));
    assert_eq!(p.rgba.len(), 64 * 32 * 4);
    assert_eq!(&p.rgba[..4], &[10, 20, 30, 255]);
    let p = bytes_to_icon_pixels(&png(1000, 1)).expect("icon");
    assert_eq!((p.width, p.height), (64, 1));
    let p = bytes_to_icon_pixels(&png(10, 20)).expect("icon");
    assert_eq!((p.width, p.height), (32, 64));
    assert!(bytes_to_icon_pixels(b"no image at all, this is just text").is_none());
    assert!(icon_from_bytes(&png(64, 64)).is_some());
    assert!(icon_from_bytes(&vec![0; 10]).is_none());
    assert!(icon_from_bytes(&vec![0; 1_500_001]).is_none());
}

fn grey(width: u32, height: u32) -> Vec<u8> {
    let img = image::GrayImage::from_pixel(width, height, image::Luma([200]));
    let mut out = Cursor::new(Vec::new());
    img.write_to(&mut out, image::ImageFormat::Png).unwrap();
    out.into_inner()
}

fn deep_grey(width: u32, height: u32) -> Vec<u8> {
    let img = image::ImageBuffer::<image::Luma<u16>, Vec<u16>>::from_pixel(width, height, image::Luma([0xffff]));
    let mut out = Cursor::new(Vec::new());
    img.write_to(&mut out, image::ImageFormat::Png).unwrap();
    out.into_inner()
}

#[test]
fn icons_of_large_pictures() {
    let p = bytes_to_icon_pixels(&grey(100_000, 50)).expect("icon");
    assert_eq!((p.width, p.height), (64, 1));
    assert_eq!(&p.rgba[..4], &[200, 200, 200, 255]);
    let p = bytes_to_icon_pixels(&deep_grey(1000, 50)).expect("icon");
    assert_eq!((p.width, p.height), (64, 3));
    assert_eq!(&p.rgba[..4], &[255, 255, 255, 255]);
    let p = bytes_to_icon_pixels(&deep_grey(1_000_000, 4)).expect("icon");
    assert_eq!((p.width, p.height), (64, 1));
    assert!(p.rgba.iter().all(|b| *b == 255));
    assert!(bytes_to_icon_pixels(&deep_grey(100_000, 50)).is_none());
    assert!(icon_from_bytes(&deep_grey(100_000, 50)).is_none());
}

#[test]
fn addresses_in_the_output_of_the_agent() {
    assert_eq!(
        capture_claim("Visit \"https://playit.gg/claim/abc123\" now"),
        Some("https://playit.gg/claim/abc123".to_string())
    );
    assert_eq!(
        capture_claim("(https://playit.gg/claim/x)] "),
        Some("https://playit.gg/claim/x".to_string())
    );
    assert_eq!(capture_claim("https://playit.gg/claim/ x"), None);
    assert_eq!(capture_claim("https://playit.gg/"), None);
    assert_eq!(
        capture_address("tunnel Cool-Name.ply.gg:25565 => 127.0.0.1"),
        Some("cool-name.ply.gg:25565".to_string())
    );
    assert_eq!(capture_address("<..A.joinmc.playit.gg.>"), Some("a.joinmc.playit.gg".to_string()));
    assert_eq!(capture_address("a.ply.gg:1 b"), Some("a.ply.gg".to_string()));
    assert_eq!(capture_address("a.ply.gg:123456"), Some("a.ply.gg".to_string()));
    assert_eq!(capture_address("çx.ply.gg:80"), Some("x.ply.gg:80".to_string()));
    assert_eq!(capture_address("playit.gg"), None);
    assert!(may_open_claim("https://playit.gg/claim/x"));
    assert!(!may_open_claim("https://evil.example/https://playit.gg/"));
}

#[test]
fn the_file_of_the_agent() {
    assert_eq!(wanted_asset_name(true, false), "playit-windows-x86_64-signed.exe");
    assert_eq!(wanted_asset_name(false, true), "playit-linux-aarch64");
    assert_eq!(wanted_asset_name(false, false), "playit-linux-amd64");
    let release = json(
        r#"{"assets":[{"name":"other"},{"name":"playit-linux-amd64","browser_download_url":"https://x","digest":"sha256:aa"}]}"#,
    );
    let a = pick_asset(&release, "playit-linux-amd64").ok().expect("asset");
    assert_eq!((a.name.as_str(), a.url.as_str(), a.digest.as_deref()), ("playit-linux-amd64", "https://x", Some("sha256:aa")));
    assert_eq!(check_address(&a), Ok(()));
    let o = pick_asset(&release, "other").ok().expect("asset");
    assert_eq!((o.url.as_str(), o.digest), ("", None));
    let o = pick_asset(&release, "other").ok().expect("asset");
    assert_eq!(check_address(&o), Err("indirme adresi boş".to_string()));
    assert_eq!(pick_asset(&release, "none").err().as_deref(), Some("none bulunamadı"));
    assert_eq!(pick_asset(&json("{}"), "none").err().as_deref(), Some("playit release boş"));
    assert!(binary_ready(true, 1_000_000));
    assert!(!binary_ready(true, 999_999));
    assert!(!binary_ready(false, 5_000_000));
    assert_eq!(download_progress(50, 200).as_deref(), Some("25%"));
    assert_eq!(download_progress(500, 200).as_deref(), Some("100%"));
    assert_eq!(download_progress(5, 0), None);
    assert_eq!(download_progress(u64::MAX, u64::MAX).as_deref(), Some("1%"));
}

fn asset(digest: Option<&str>) -> ReleaseAsset {
    ReleaseAsset { name: "a".into(), url: "u".into(), digest: digest.map(|s| s.to_string()) }
}

#[test]
fn downloads_are_checked() {
    let bytes = vec![7u8; 1_000_000];
    let sum = sha256_hex(&bytes);
    let bad = Err("playit sağlama toplamı uyuşmadı".to_string());
    assert_eq!(check_download(&bytes, &asset(None)), Ok(()));
    assert_eq!(check_download(&bytes, &asset(Some("md5:zz"))), Ok(()));
    assert_eq!(check_download(&bytes, &asset(Some(&format!("sha256:{}", sum.to_uppercase())))), Ok(()));
    assert_eq!(check_download(&bytes, &asset(Some("sha256:00"))), bad);
    assert_eq!(
        check_download(&bytes[..999_999], &asset(Some("sha256:00"))),
        Err("playit dosyası eksik indi".to_string())
    );
    assert_eq!(check_sum(1_000_000, "Ab", &asset(Some("sha256:aB"))), Ok(()));
    assert_eq!(check_sum(1_000_000, "Ab", &asset(Some("sha256:ac"))), bad);
}

#[test]
fn an_agent_that_keeps_ending_is_given_up() {
    let mut s = Supervisor::new();
    let r = s.step(&Event::Start(4000));
    assert_eq!(r.command, Command::Launch { port: 4000, wait_secs: 0, replace: true });
    assert!(s.wanted);
    for (n, wait_secs) in [(1, 1), (2, 2), (3, 4)] {
        let r = s.step(&Event::Launched);
        assert_eq!(r.phase, Some(Phase::Running));
        let r = s.step(&Event::Exited(1));
        assert_eq!(r.command, Command::Launch { port: 4000, wait_secs, replace: false });
        assert_eq!(r.phase, Some(Phase::Error));
        assert_eq!(r.detail, format!("yeniden deneniyor {n}/3"));
    }
    s.step(&Event::Launched);
    let r = s.step(&Event::Exited(-1));
    assert_eq!(r.command, Command::Rest);
    assert_eq!(r.detail, "playit kapandı (-1)");
    assert!(!s.wanted && !s.running);
    assert!(s.step(&Event::Exited(0)).phase.is_none());
}

#[test]
fn an_agent_is_stopped() {
    let mut s = Supervisor::new();
    s.step(&Event::Start(1));
    let r = s.step(&Event::Failed("yok".into()));
    assert_eq!((r.phase, r.detail.as_str()), (Some(Phase::Error), "yok"));
    assert!(!s.wanted);
    s.step(&Event::Start(2));
    s.step(&Event::Launched);
    s.step(&Event::Exited(0));
    let r = s.step(&Event::Failed("yok".into()));
    assert_eq!((r.command, r.phase), (Command::Rest, None));
    assert!(s.wanted && !s.running);
    let r = s.step(&Event::Stop);
    assert_eq!((r.command, r.phase), (Command::Halt { quit: false }, Some(Phase::Stopped)));
    assert_eq!(s.restarts, 0);
    let r = s.step(&Event::Disconnected);
    assert_eq!(r.command, Command::Halt { quit: true });
}

#[test]
fn what_is_shown_of_the_agent() {
    assert_eq!(phase_text(Phase::Idle, "", true), "Hazır");
    assert_eq!(phase_text(Phase::Downloading, "5%", true), "İndiriliyor: 5%");
    assert_eq!(phase_text(Phase::Running, "", false), "Running");
    assert_eq!(phase_text(Phase::Stopped, "", false), "Stopped");
    assert_eq!(phase_text(Phase::Error, "x", false), "Error: x");
    assert!(shows_running(Phase::Downloading));
    assert!(shows_running(Phase::Running));
    assert!(!shows_running(Phase::Error));
    assert_eq!(
        tunnel_hint(25565, false),
        "Tunnel target is 127.0.0.1:25565. Set the TCP tunnel to that port on playit.gg."
    );
    assert_eq!(
        tunnel_hint(1, true),
        "Tünel hedefi 127.0.0.1:1. Playit sitesinde TCP tünelini bu porta ayarla."
    );
}

#[test]
fn versions_of_the_panel() {
    assert_eq!(parse_version("v1.2.3"), Some((1, 2, 3)));
    assert_eq!(parse_version(" vv1.2 "), Some((1, 2, 0)));
    assert_eq!(parse_version("1-2-3rc1"), Some((1, 2, 3)));
    assert_eq!(parse_version("1.2.rc"), Some((1, 2, 0)));
    assert_eq!(parse_version("1"), None);
    assert_eq!(parse_version("a.b"), None);
    assert_eq!(parse_version("1.2.99999999999999999999"), None);
    assert!(newer_release("0.9.9", "v0.10.0"));
    assert!(!newer_release("1.0.0", "v1.0.0"));
    assert!(!newer_release("1.0.1", "v1.0.0"));
    assert!(newer_release("1.0.0", "1.0.1-beta"));
    assert!(!newer_release("x", "v1.0.0"));
}

fn offered(version: &str, stable: bool) -> Offered {
    Offered { version: version.into(), stable, url: format!("https://{version}") }
}

#[test]
fn versions_of_servers() {
    let list: Vec<String> = (0..50).map(|i| i.to_string()).collect();
    let got = purpur_versions(&list);
    assert_eq!((got.len(), got[0].as_str(), got[39].as_str()), (40, "49", "10"));
    assert_eq!(purpur_versions(&vec!["a".into(), "b".into()]), vec!["b", "a"]);
    let list: Vec<Offered> = (0..100).map(|i| offered(&i.to_string(), i % 2 == 0)).collect();
    let got = first_stable_versions(&list);
    assert_eq!((got.len(), got[0].as_str(), got[39].as_str()), (40, "0", "78"));
    let got = paper_versions(&json(r#"{"1.21":["1.21.1","1.21",7],"1.20":"x","1.19":["1.19"]}"#));
    assert_eq!(got.len(), 3);
    assert!(got.contains(&"1.21.1".to_string()) && got.contains(&"1.19".to_string()));
    let many: Vec<String> = (0..60).map(|i| format!("\"{i}\"")).collect();
    assert_eq!(paper_versions(&json(&format!("{{\"a\":[{}]}}", many.join(",")))).len(), 48);
    assert!(paper_versions(&json("[]")).is_empty());
    assert!(is_release("release"));
    assert!(!is_release("snapshot"));
    assert_eq!(versions_note("Paper", true), "Hazır");
    assert_eq!(versions_note("Paper", false), "Sürüm listesi alınamadı.");
    assert_eq!(versions_note("Forge", false), "Forge ve NeoForge bu sürümde kurulmuyor. Fabric kullan.");
}

#[test]
fn where_servers_come_from() {
    assert_eq!(source_of("Purpur"), Source::Purpur);
    assert_eq!(source_of("Paper"), Source::Paper);
    assert_eq!(source_of("Fabric"), Source::Fabric);
    assert_eq!(source_of("Vanilla"), Source::Vanilla);
    assert_eq!(source_of("Forge"), Source::Unknown);
    assert_eq!(
        unknown_software("Forge"),
        "Forge jar indirmesi bu sürümde yok. Vanilla, Paper, Purpur veya Fabric seç."
    );
    assert_eq!(purpur_url("1.21"), "https://api.purpurmc.org/v2/purpur/1.21/latest/download");
    assert_eq!(
        paper_build_url("1.21"),
        "https://fill.papermc.io/v3/projects/paper/versions/1.21/builds/latest"
    );
    assert_eq!(paper_server_url("1", &Some("u".into())), Ok("u".to_string()));
    assert_eq!(paper_server_url("1", &None), Err("Paper 1 için jar yok.".to_string()));
    let list = vec![offered("a", false), offered("b", true)];
    assert_eq!(vanilla_entry(&list, "b"), Ok("https://b".to_string()));
    assert_eq!(vanilla_entry(&list, "c"), Err("Vanilla c Mojang listesinde yok.".to_string()));
    assert_eq!(vanilla_server_url("c", &None), Err("Vanilla c için sunucu jar yok.".to_string()));
    assert_eq!(vanilla_server_url("c", &Some("u".into())), Ok("u".to_string()));
    let none: Vec<Offered> = Vec::new();
    let unstable = vec![offered("x", false), offered("y", false)];
    assert_eq!(
        fabric_server_url("1.21", &list, &unstable),
        Ok("https://meta.fabricmc.net/v2/versions/loader/1.21/b/x/server/jar".to_string())
    );
    assert_eq!(fabric_server_url("1", &none, &none), Err("Fabric loader bulunamadı.".to_string()));
    assert_eq!(fabric_server_url("1", &list, &none), Err("Fabric installer bulunamadı.".to_string()));
}

#[test]
fn the_table_of_versions() {
    let list: Vec<String> = (1..=6).map(|i| i.to_string()).collect();
    let rows = format_version_rows(&list);
    assert_eq!(rows.len(), 2);
    assert_eq!((rows[0].v1.as_str(), rows[0].v4.as_str(), rows[0].has4), ("1", "4", true));
    assert_eq!((rows[1].v1.as_str(), rows[1].v2.as_str(), rows[1].has2), ("5", "6", true));
    assert_eq!((rows[1].v3.as_str(), rows[1].has3, rows[1].has4), ("", false, false));
    assert!(format_version_rows(&vec![]).is_empty());
}
