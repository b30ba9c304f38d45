use panelmc::json::{parse_json, Json};
use panelmc::players::{
    find_player_uuid, get_players_of, list_change, player_command, player_name, player_status, remove_named,
    upsert_named, ListChange, McNamed,
};

fn named(name: &str, uuid: &str) -> McNamed {
    McNamed { name: name.to_string(), uuid: uuid.to_string() }
}

fn list(text: &str) -> Vec<Json> {
    match parse_json(text.as_bytes()) {
        Some(Json::Arr(v)) => v,
        _ => panic!("no list"),
    }
}

#[test]
fn lists_are_merged() {
    let cache = vec![named("Zed", "z"), named("ada", "1"), named("ADA", "2"), named("", "x"), named("Bea", "")];
    let ops = list(r#"[{"name":"Ada","uuid":"3"},{"name":"bea","uuid":"4"},{"uuid":"5"},7]"#);
    let white = list(r#"[{"name":"Çem","uuid":"6"},{"name":"ÇEM"},{"name":"zed","uuid":"7"}]"#);
    let got: Vec<(String, String, bool, bool)> = get_players_of(&cache, &ops, &white)
        .into_iter()
        .map(|p| (p.name, p.uuid, p.is_op, p.is_whitelisted))
        .collect();
    let want = [
        ("ada", "1", true, false),
        ("Bea", "4", true, false),
        ("Zed", "z", false, true),
        ("Çem", "6", false, true),
    ];
    assert_eq!(got.len(), want.len());
    for (g, w) in got.iter().zip(want) {
        assert_eq!((g.0.as_str(), g.1.as_str(), g.2, g.3), w);
    }
}

#[test]
fn no_players() {
    assert!(get_players_of(&vec![], &vec![], &vec![]).is_empty());
}

#[test]
fn identifiers_are_looked_up_in_order() {
    let lists = vec![
        vec![named("ada", ""), named("Bea", "b1")],
        vec![named("ADA", "a2"), named("bea", "b2")],
    ];
    assert_eq!(find_player_uuid(&lists, "Ada"), "a2");
    assert_eq!(find_player_uuid(&lists, "BEA"), "b1");
    assert_eq!(find_player_uuid(&lists, "Cem"), "");
}

#[test]
fn an_entry_is_added() {
    let mut ops = list("[]");
    upsert_named(&mut ops, "Ada", "u", true);
    assert_eq!(ops.len(), 1);
    assert_eq!(ops[0].text("name"), Some("Ada".to_string()));
    assert_eq!(ops[0].text("uuid"), Some("u".to_string()));
    assert_eq!(ops[0].number("level"), Some(4));
    assert_eq!(ops[0].get("bypassesPlayerLimit").and_then(|v| v.as_bool()), Some(false));
    upsert_named(&mut ops, "Bea", "", false);
    assert_eq!(ops[1].text("uuid"), Some(String::new()));
    assert!(ops[1].get("level").is_none());
    remove_named(&mut ops, "BEA");
    assert_eq!(ops.len(), 1);
    remove_named(&mut ops, "ada");
    assert!(ops.is_empty());
}

#[test]
fn an_entry_is_brought_up_to_date() {
    let mut ops = list(r#"[1,{"name":"ada","uuid":"old","level":2,"extra":true},{"name":"ADA"}]"#);
    upsert_named(&mut ops, "Ada", "", true);
    assert_eq!(ops.len(), 3);
    assert_eq!(ops[1].text("name"), Some("Ada".to_string()));
    assert_eq!(ops[1].text("uuid"), Some("old".to_string()));
    assert_eq!(ops[1].number("level"), Some(4));
    assert_eq!(ops[1].get("extra").and_then(|v| v.as_bool()), Some(true));
    assert_eq!(ops[2].text("name"), Some("ADA".to_string()));
    upsert_named(&mut ops, "Ada", "new", false);
    assert_eq!(ops[1].text("uuid"), Some("new".to_string()));
    remove_named(&mut ops, "aDa");
    assert_eq!(ops.len(), 1);
    assert_eq!(ops[0].as_u64(), Some(1));
}

#[test]
fn actions() {
    assert_eq!(player_command("op", "Ada"), "op Ada");
    assert_eq!(player_command("deop", "Ada"), "deop Ada");
    assert_eq!(player_command("kick", "Ada"), "kick Ada");
    assert_eq!(player_command("ban", "Ada"), "ban Ada");
    assert_eq!(player_command("pardon", "Ada"), "pardon Ada");
    assert_eq!(player_command("wl-add", "Ada"), "whitelist add Ada");
    assert_eq!(player_command("wl-remove", "Ada"), "whitelist remove Ada");
    assert_eq!(player_command("dance", "Ada"), "");
    assert_eq!(list_change("op"), ListChange::AddOp);
    assert_eq!(list_change("deop"), ListChange::RemoveOp);
    assert_eq!(list_change("wl-add"), ListChange::AddWhitelisted);
    assert_eq!(list_change("wl-remove"), ListChange::RemoveWhitelisted);
    assert_eq!(list_change("kick"), ListChange::Nothing);
    assert_eq!(player_status("ban", "ban Ada", false), "Sunucu kapalı. Kick/Ban için başlatın.");
    assert_eq!(player_status("ban", "ban Ada", true), "ban Ada gönderildi.");
    assert_eq!(
        player_status("op", "op Ada", false),
        "Yerel liste güncellendi. Komut için sunucuyu başlatın."
    );
}

#[test]
fn a_name_is_needed() {
    assert_eq!(player_name(" Ada "), Ok("Ada".to_string()));
    assert_eq!(player_name(" \t"), Err("Oyuncu adı girin.".to_string()));
}
