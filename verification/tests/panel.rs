use panelmc::backups::DueBackup;
use panelmc::messages::{
    auto_backup_done, backup_busy, backup_every_set, check_start, due_message, pack_copied,
    plugin_installed, running_word, starting_line, update_label,
};
use panelmc::monitor::{after_stop, Monitor, StopAction, Turn};
use panelmc::system::{
    adoptium_os_arch, check_java_archive, check_server_jar, chosen_java, detect_system_dark_theme,
    detect_system_language, first_file, java_candidates, java_folder, java_label, java_url,
    language_for, picked_path, plugin_folder, plugin_source, registry_dark_theme,
    registry_language, search_query, spiget_icon_url, spigot_description, spigot_search_url,
    spigot_slug, PluginFile, PluginSource,
};

#[test]
fn the_watch() {
    let mut m = Monitor::new();
    assert_eq!(m.begin(""), Turn::Idle);
    assert_eq!(m.begin("a"), Turn::Reload);
    m.set_port("25565");
    let q = m.questions(true);
    assert!(!q.players && !q.disk);
    let r = m.report(false, true, 5_000);
    assert!(r.running && r.read_log && !r.list_worlds);
    assert_eq!(r.uptime, "0s");
    assert_eq!(m.begin("a"), Turn::Known);
    assert!(m.questions(true).players);
    assert!(!m.questions(false).players);
    let r = m.report(true, true, 66_999);
    assert!(!r.read_log);
    assert_eq!(r.uptime, "1m 01s");
    assert_eq!(m.begin("b"), Turn::Reload);
    assert_eq!(m.report(true, false, 70_000).uptime, "0s");
    let r = m.report(false, false, 80_000);
    assert!(!r.running);
    assert_eq!(r.uptime, "");
    assert_eq!(m.port, "25565");
    for expected in [Turn::Known, Turn::Known, Turn::Known, Turn::Reload] {
        assert_eq!(m.begin("b"), expected);
    }
    for _ in 0..8 {
        m.begin("b");
    }
    assert_eq!(m.tick, 16);
    assert!(m.questions(false).disk);
    m.tick = u32::MAX;
    assert_eq!(m.begin("b"), Turn::Reload);
    assert_eq!(m.tick, 0);
}

#[test]
fn worlds_are_listed_every_fifth_time() {
    let mut m = Monitor::new();
    for _ in 0..4 {
        m.begin("a");
        assert!(!m.report(true, true, 0).list_worlds);
    }
    m.begin("a");
    assert!(m.report(true, true, 0).list_worlds);
    assert!(!m.report(false, false, 0).list_worlds);
}

#[test]
fn languages_and_colours() {
    assert_eq!(detect_system_language("TR_tr.UTF-8"), "tr");
    assert_eq!(detect_system_language("en_US"), "en");
    assert_eq!(language_for("tr"), "tr");
    assert_eq!(language_for("TR"), "en");
    assert!(!detect_system_dark_theme("'Default'\n"));
    assert!(detect_system_dark_theme("'prefer-dark'"));
    assert!(detect_system_dark_theme(""));
    assert!(!registry_dark_theme("x\r\n    AppsUseLightTheme    REG_DWORD    0x1\r\n"));
    assert!(registry_dark_theme("    AppsUseLightTheme    REG_DWORD    0x0\r\n"));
    assert!(registry_dark_theme(""));
    assert_eq!(registry_language("    LocaleName    REG_SZ    tr-TR\r\n"), "tr");
    assert_eq!(registry_language("    Other    REG_SZ    tr-TR\r\n"), "en");
    assert_eq!(picked_path(b" /a b\n"), Some("/a b".to_string()));
    assert_eq!(picked_path(b" \n"), None);
}

#[test]
fn java() {
    let m = adoptium_os_arch("macos", "aarch64").ok().expect("machine");
    assert_eq!((m.os, m.arch), ("mac", "aarch64"));
    let m = adoptium_os_arch("linux", "x86_64").ok().expect("machine");
    assert_eq!(
        java_url("25", &m),
        "https://api.adoptium.net/v3/binary/latest/25/ga/linux/x64/jdk/hotspot/normal/eclipse?project=jdk"
    );
    let m = adoptium_os_arch("windows", "x86").ok().expect("machine");
    assert_eq!((m.os, m.arch), ("windows", "x86"));
    assert_eq!(
        adoptium_os_arch("plan9", "mips").err().as_deref(),
        Some("Bu işletim sistemi henüz desteklenmiyor: plan9")
    );
    assert_eq!(
        adoptium_os_arch("linux", "mips").err().as_deref(),
        Some("Bu CPU mimarisi henüz desteklenmiyor: mips")
    );
    assert_eq!(java_folder("21"), "java21");
    assert_eq!(java_candidates("java17"), vec!["java17", "java25", "java21", "java17"]);
    assert_eq!(java_label("java25"), "Java 25 (Seçili)");
    assert_eq!(java_label("java21"), "Java 21 (Seçili)");
    assert_eq!(java_label("java17"), "Java 17 (Seçili)");
    assert_eq!(java_label("x"), "Sistem Java'sı");
    assert_eq!(check_java_archive(1_000_000), Ok(()));
    assert_eq!(check_java_archive(999_999), Err("Java arşivi eksik indi.".to_string()));
    assert_eq!(check_server_jar(100_000), Ok(()));
    assert_eq!(
        check_server_jar(99_999),
        Err("İnen dosya sunucu jar'ı değil. Kurulum iptal edildi.".to_string())
    );
}

#[test]
fn plugins() {
    assert_eq!(search_query("  "), "server");
    assert_eq!(search_query(" essentials "), "essentials");
    assert_eq!(plugin_folder("Fabric"), "mods");
    assert_eq!(plugin_folder("NeoForge"), "mods");
    assert_eq!(plugin_folder("Paper"), "plugins");
    assert_eq!(spiget_icon_url(&Some("u".into()), "7"), "u");
    assert_eq!(spiget_icon_url(&Some(" ".into()), "7"), "https://api.spiget.org/v2/resources/7/icon");
    assert_eq!(spiget_icon_url(&None, "7"), "https://api.spiget.org/v2/resources/7/icon");
    match plugin_source("spiget:12") {
        PluginSource::Spiget { url, file } => {
            assert_eq!(url, "https://api.spiget.org/v2/resources/12/download");
            assert_eq!(file, "spigot_12.jar");
        }
        _ => panic!("no plugin of Spigot"),
    }
    match plugin_source("lithium") {
        PluginSource::Modrinth { versions } => {
            assert_eq!(versions, "https://api.modrinth.com/v2/project/lithium/version");
        }
        _ => panic!("no plugin of Modrinth"),
    }
}

#[test]
fn the_first_java_that_is_found() {
    let hits = vec![None, Some("b/java".to_string()), Some("c/java".to_string())];
    assert_eq!(chosen_java(&hits, true), Some("b/java".to_string()));
    assert_eq!(chosen_java(&hits, false), Some("b/java".to_string()));
    assert_eq!(chosen_java(&vec![None, None], true), Some("java".to_string()));
    assert_eq!(chosen_java(&vec![None, None], false), None);
}

#[test]
fn plugins_of_spigot() {
    assert_eq!(spigot_search_url("world edit"), "https://api.spiget.org/v2/search/resources/world%20edit");
    assert_eq!(spigot_slug(28140), "spiget:28140");
    match plugin_source(&spigot_slug(28140)) {
        PluginSource::Spiget { file, .. } => assert_eq!(file, "spigot_28140.jar"),
        _ => panic!("no plugin of Spigot"),
    }
    assert_eq!(spigot_description(&Some("Fast.".to_string())), "Fast.");
    assert_eq!(spigot_description(&None), "Spigot eklentisi.");
}

fn file(name: &str) -> PluginFile {
    PluginFile { url: format!("https://cdn/{name}"), filename: name.to_string() }
}

#[test]
fn the_first_file_of_the_first_version() {
    let versions = vec![vec![file("b.jar"), file("c.jar")], vec![file("a.jar")]];
    let found = first_file(&versions).ok().expect("file");
    assert_eq!((found.url.as_str(), found.filename.as_str()), ("https://cdn/b.jar", "b.jar"));
    let none = Some("İndirilebilir dosya bulunamadı.".to_string());
    assert_eq!(first_file(&vec![]).err(), none);
    assert_eq!(first_file(&vec![vec![], vec![file("a.jar")]]).err(), none);
}

#[test]
fn what_follows_the_word_to_stop() {
    assert_eq!(after_stop(false, true), StopAction::KillAndSay);
    assert_eq!(after_stop(false, false), StopAction::KillAndSay);
    assert_eq!(after_stop(true, true), StopAction::Kill);
    assert_eq!(after_stop(true, false), StopAction::Forget);
}

#[test]
fn what_the_panel_says() {
    assert_eq!(running_word(true), "Çalışıyor");
    assert_eq!(running_word(false), "Durduruldu");
    assert_eq!(check_start("a", true, "java25", true), Ok(()));
    assert_eq!(
        check_start("a", false, "java25", false),
        Err("'a' için server.jar bulunamadı! Yazılım sekmesinden indirin.".to_string())
    );
    assert_eq!(
        check_start("a", true, "java25", false),
        Err("Seçili Java motoru (java25) bulunamadı! 'Java' sekmesinden indirin.".to_string())
    );
    assert_eq!(
        starting_line("a", "\"java\"", "-Xmx2G"),
        "[SİSTEM] 'a' başlatılıyor... (Motor: \"java\", RAM: -Xmx2G)"
    );
    assert_eq!(plugin_installed("x.jar", true, false), "'x.jar' Installed. Restart the server so it loads.");
    assert_eq!(plugin_installed("x.jar", false, true), "'x.jar' Kuruldu. Sunucu açılınca yüklenecek.");
    assert_eq!(backup_every_set(0, false), "Automatic backup is off.");
    assert_eq!(backup_every_set(30, true), "Otomatik yedek kaydedildi. İlk yedek bir aralık sonra.");
    assert_eq!(due_message(DueBackup::Wait, true), "");
    assert_eq!(due_message(DueBackup::DiskLow, false), "Automatic backup skipped: under 2 GB free.");
    assert_eq!(due_message(DueBackup::NotOurs, true), "Otomatik yedek için sunucuyu PanelMC'den başlat.");
    assert_eq!(due_message(DueBackup::Take, false), "Automatic backup...");
    assert_eq!(auto_backup_done("oto-1.zip", false), "oto-1.zip saved automatically.");
    assert_eq!(backup_busy(true), "Yedek zaten alınıyor.");
    assert_eq!(update_label("v1", false), "Update v1");
    assert_eq!(pack_copied("0123456789"), "Paket kopyalandı (SHA1 01234567). Kaydet'e bas.");
    assert_eq!(pack_copied("0123"), "Paket kopyalandı (SHA1 0123). Kaydet'e bas.");
}
