use panelmc::options::{load_options, options_properties, ServerOptions};
use panelmc::properties::{
    level_name_of, read_properties, save_server_properties, write_properties, Properties,
};
use panelmc::ram::{parse_ram, ram_in, ram_stored, ram_xmx};
use panelmc::servers::{
    change_server, default_server, delete_server, find_server, java_args, java_of, kept_timezone,
    new_server, port_of, Change, ServerMetadata,
};

fn value(p: &Properties, key: &str) -> Option<String> {
    p.get(key).cloned()
}

#[test]
fn reading_the_file() {
    let p = read_properties(
        "# comment\n\n pvp = true \r\nmotd=a=b\nno separator\n#x=y\npvp=false\n=empty\nlevel-name=\n",
    );
    assert_eq!(value(&p, "pvp").as_deref(), Some("false"));
    assert_eq!(value(&p, "motd").as_deref(), Some("a=b"));
    assert_eq!(value(&p, "").as_deref(), Some("empty"));
    assert_eq!(value(&p, "#x"), None);
    assert_eq!(value(&p, "no separator"), None);
    assert_eq!(level_name_of(&p), "world");
    assert_eq!(level_name_of(&read_properties("level-name=dünya")), "dünya");
    assert_eq!(level_name_of(&read_properties("")), "world");
}

#[test]
fn what_was_written_is_read_back() {
    let mut p = read_properties("motd=Merhaba dünya\nmax-players=20\n");
    p.set("server-port", "25566");
    p.set("max-players", "30");
    let text = write_properties(&p);
    assert_eq!(
        text,
        "# Minecraft Server Properties - Managed by PanelMC\nmotd=Merhaba dünya\nmax-players=30\nserver-port=25566\n"
    );
    let q = read_properties(&text);
    assert_eq!(value(&q, "motd").as_deref(), Some("Merhaba dünya"));
    assert_eq!(value(&q, "max-players").as_deref(), Some("30"));
    assert_eq!(value(&q, "server-port").as_deref(), Some("25566"));
    assert_eq!(q.keys.len(), 3);
}

#[test]
fn saving_keeps_what_was_there() {
    let mut updates = Properties::new();
    updates.set("pvp", "false");
    let (text, merged) = save_server_properties(&Some("a=1\npvp=true\n".to_string()), &updates);
    assert_eq!(value(&merged, "a").as_deref(), Some("1"));
    assert_eq!(value(&merged, "pvp").as_deref(), Some("false"));
    assert_eq!(value(&read_properties(&text), "pvp").as_deref(), Some("false"));
    let (text, _) = save_server_properties(&None, &updates);
    assert_eq!(text, "# Minecraft Server Properties - Managed by PanelMC\npvp=false\n");
}

fn options() -> ServerOptions {
    ServerOptions {
        online_mode: true,
        pvp: false,
        allow_flight: true,
        difficulty: "hard".into(),
        gamemode: "survival".into(),
        white_list: false,
        max_players: -3,
        spawn_protection: 16,
        resource_pack: "resourcepack.zip".into(),
        resource_pack_prompt: "".into(),
        resource_pack_sha1: "aa".into(),
        force_gamemode: true,
        require_resource_pack: false,
    }
}

#[test]
fn options_load_what_was_saved() {
    let saved = options_properties(&options());
    let (text, _) = save_server_properties(&Some("motd=x\npvp=true".into()), &saved);
    let mut other = options();
    other.pvp = true;
    other.online_mode = false;
    other.difficulty = "easy".into();
    other.max_players = 1;
    other.force_gamemode = false;
    let back = load_options(&read_properties(&text), &other);
    assert!(back.online_mode && !back.pvp && back.allow_flight && back.force_gamemode);
    assert!(!back.white_list && !back.require_resource_pack);
    assert_eq!(back.difficulty, "hard");
    assert_eq!(back.gamemode, "survival");
    assert_eq!(back.max_players, -3);
    assert_eq!(back.spawn_protection, 16);
    assert_eq!(back.resource_pack, "resourcepack.zip");
    assert_eq!(back.resource_pack_sha1, "aa");
    assert_eq!(back.resource_pack_prompt, "");
}

#[test]
fn options_that_are_not_set_stay() {
    let p = read_properties("max-players=many\npvp=TRUE\ngamemode=creative\n");
    let back = load_options(&p, &options());
    assert_eq!(back.max_players, -3);
    assert!(!back.pvp);
    assert!(back.online_mode);
    assert_eq!(back.gamemode, "creative");
}

#[test]
fn memory_is_read() {
    let said = |s: &str| {
        let (a, u) = parse_ram(s);
        (a, u)
    };
    assert_eq!(said("4G"), ("4".to_string(), "GB".to_string()));
    assert_eq!(said(" 2 048 mb "), ("2048".to_string(), "MB".to_string()));
    assert_eq!(said("512m"), ("512".to_string(), "MB".to_string()));
    assert_eq!(said("3gB"), ("3".to_string(), "GB".to_string()));
    assert_eq!(said("GB"), ("2".to_string(), "GB".to_string()));
    assert_eq!(said("1.5G"), ("2".to_string(), "GB".to_string()));
    assert_eq!(said(""), ("2".to_string(), "GB".to_string()));
    assert_eq!(ram_in("8GB"), ("8".to_string(), "GB".to_string()));
    assert_eq!(ram_in("8gb"), ("2".to_string(), "GB".to_string()));
}

#[test]
fn memory_is_stored() {
    assert_eq!(ram_stored("4", "GB"), "4G");
    assert_eq!(ram_stored("64", "GB"), "32G");
    assert_eq!(ram_stored("0", "GB"), "1G");
    assert_eq!(ram_stored("x", "GB"), "2G");
    assert_eq!(ram_stored("100", "mb"), "256M");
    assert_eq!(ram_stored(" 1024 ", "MB"), "1024M");
    assert_eq!(ram_stored("4294967296", "MB"), "256M");
    assert_eq!(ram_stored("3", "TB"), "3G");
    assert_eq!(ram_xmx("3", "GB"), "-Xmx3G");
    for stored in ["1G", "32G", "256M", "4000M"] {
        let (a, u) = parse_ram(stored);
        assert_eq!(ram_stored(&a, &u), stored);
    }
}

fn server(id: &str, port: &str) -> ServerMetadata {
    let mut s = default_server();
    s.id = id.to_string();
    s.port = port.to_string();
    s
}

#[test]
fn new_servers() {
    let d = default_server();
    assert_eq!((d.id.as_str(), d.name.as_str(), d.port.as_str()), ("survival", "Survival Dünyası", "25565"));
    assert_eq!((d.software.as_str(), d.version.as_str(), d.ram.as_str()), ("Purpur", "26.2", "2G"));
    assert_eq!((d.selected_java.as_str(), d.timezone.as_str()), ("java25", "Europe/Istanbul"));
    assert_eq!((d.join_host.as_str(), d.backup_every_min), ("", 0));
    let s = new_server(2, "  Yeni ", "70000").expect("server");
    assert_eq!((s.id.as_str(), s.name.as_str(), s.port.as_str()), ("server-3", "Yeni", "25565"));
    let s = new_server(0, "a", " 25570 ").expect("server");
    assert_eq!((s.id.as_str(), s.port.as_str()), ("server-1", "25570"));
    assert!(new_server(0, "  ", "1").is_none());
}

#[test]
fn servers_are_changed_one_by_one() {
    let mut list = vec![server("a", "1"), server("b", "2"), server("b", "3")];
    assert_eq!(find_server(&list, "b"), Some(1));
    assert_eq!(find_server(&list, "c"), None);
    assert!(change_server(&mut list, "b", &Change::Ram { amount: "8".into(), unit: "GB".into() }));
    assert!(change_server(&mut list, "b", &Change::Timezone(" ".into())));
    assert!(change_server(&mut list, "a", &Change::Timezone(" UTC ".into())));
    assert!(change_server(&mut list, "a", &Change::Java("java21".into())));
    assert!(change_server(
        &mut list,
        "a",
        &Change::Software { software: "Paper".into(), version: "1.21".into() }
    ));
    assert!(change_server(&mut list, "a", &Change::JoinHost("mc.example.org".into())));
    assert!(change_server(&mut list, "a", &Change::BackupEvery(60)));
    assert!(!change_server(&mut list, "c", &Change::BackupEvery(60)));
    assert_eq!((list[1].ram.as_str(), list[2].ram.as_str()), ("8G", "2G"));
    assert_eq!((list[0].timezone.as_str(), list[1].timezone.as_str()), ("UTC", "Europe/Istanbul"));
    assert_eq!((list[0].software.as_str(), list[0].version.as_str()), ("Paper", "1.21"));
    assert_eq!((list[0].join_host.as_str(), list[0].backup_every_min), ("mc.example.org", 60));
    assert_eq!(java_of(&list, "a"), "java21");
    assert_eq!(java_of(&list, "x"), "java25");
    assert_eq!(port_of(&list, "b", "9"), "2");
    assert_eq!(port_of(&list, "x", "9"), "9");
    assert_eq!(kept_timezone(" Europe/Berlin "), "Europe/Berlin");
    delete_server(&mut list, "b");
    assert_eq!(list.len(), 1);
    assert_eq!(list[0].id, "a");
}

#[test]
fn what_java_is_started_with() {
    assert_eq!(
        java_args("4", "GB", " "),
        vec!["-Xms128M", "-Xmx4G", "-Duser.timezone=Europe/Istanbul", "-jar", "server.jar", "nogui"]
    );
    assert_eq!(java_args("4", "GB", " UTC")[2], "-Duser.timezone= UTC");
}
