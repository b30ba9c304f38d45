use panelmc::address::{
    apply_join, is_cgnat, join_host, may_open, port_number, public_ip, read_ipv4, valid_hostname, valid_port,
    worth_copying, HostError,
};
use panelmc::dns::{
    a_body, cf_answer, check_publish, lookup_url, pick_zone, published, record_request, srv_body, srv_name,
};
use panelmc::json::{parse_json, Json};
use panelmc::sockets::{
    disk_free_bytes, force_stop_java, local_listen_port, pid_in_file, pids_listening_linux, pids_listening_on_port,
    Descriptors,
};

fn json(text: &str) -> Json {
    parse_json(text.as_bytes()).expect("json")
}

#[test]
fn ports() {
    assert_eq!(valid_port(" 25570 "), "25570");
    assert_eq!(valid_port("007"), "7");
    assert_eq!(valid_port("0"), "25565");
    assert_eq!(valid_port("65536"), "25565");
    assert_eq!(valid_port("x"), "25565");
    assert_eq!(valid_port(&valid_port("+80")), "80");
    assert_eq!(port_number(" 80 "), Some(80));
    assert_eq!(port_number("80a"), None);
}

#[test]
fn addresses() {
    assert_eq!(read_ipv4("1.2.3.255"), Some((1, 2, 3, 255)));
    for bad in ["", "1.2.3", "1.2.3.4.5", "1.2.3.256", "01.2.3.4", "1..2.3", "+1.2.3.4", "1.2.3.4 ", "a.b.c.d"] {
        assert_eq!(read_ipv4(bad), None, "{bad}");
    }
    assert_eq!(read_ipv4("0.0.0.0"), Some((0, 0, 0, 0)));
    assert!(is_cgnat("100.64.0.1"));
    assert!(is_cgnat("100.127.255.255"));
    assert!(!is_cgnat("100.63.0.1"));
    assert!(!is_cgnat("100.128.0.1"));
    assert!(!is_cgnat("100.64"));
    assert_eq!(public_ip(" 8.8.8.8\n"), Some("8.8.8.8".to_string()));
    assert_eq!(public_ip("<html>"), None);
}

#[test]
fn host_names() {
    assert_eq!(valid_hostname(" MC.DuckDNS.org. "), Ok("mc.duckdns.org".to_string()));
    assert_eq!(valid_hostname("a.b"), Err(HostError::Shape));
    assert_eq!(valid_hostname("localhost"), Err(HostError::Shape));
    assert_eq!(valid_hostname(&format!("{}.org", "a".repeat(300))), Err(HostError::Shape));
    assert_eq!(valid_hostname("-a.org"), Err(HostError::Label));
    assert_eq!(valid_hostname("a-.org"), Err(HostError::Label));
    assert_eq!(valid_hostname("a..org"), Err(HostError::Label));
    assert_eq!(valid_hostname("mç.org"), Err(HostError::Label));
    assert_eq!(valid_hostname(&format!("{}.org", "a".repeat(64))), Err(HostError::Label));
    assert!(valid_hostname(&format!("{}.org", "a".repeat(63))).is_ok());
    assert_eq!(HostError::Shape.message(), "Alan adı geçersiz. Örnek: mc.duckdns.org");
    assert_eq!(HostError::Label.message(), "Alan adında sadece harf, rakam ve tire olabilir.");
}

#[test]
fn what_is_shown_of_addresses() {
    let j = apply_join("x", "", &None, false, " mc.example.org ", true);
    assert_eq!((j.port.as_str(), j.lan.as_str(), j.wan.as_str()), ("25565", "127.0.0.1:25565", "…"));
    assert_eq!((j.play.as_str(), j.warn.as_str()), ("mc.example.org", ""));
    let j = apply_join("1", "10.0.0.2", &None, true, "", true);
    assert_eq!((j.lan.as_str(), j.wan.as_str()), ("10.0.0.2:1", "alınamadı"));
    let j = apply_join("1", "", &None, true, "", false);
    assert_eq!(j.wan, "unavailable");
    let j = apply_join("1", "", &Some("100.64.1.1".into()), true, "", false);
    assert_eq!(j.wan, "100.64.1.1:1");
    assert_eq!(j.warn, "This public IP is in the CGNAT range (100.64). Port forwarding will not work.");
    let j = apply_join("1", "", &Some("8.8.8.8".into()), true, "", true);
    assert_eq!(j.warn, "");
    assert!(worth_copying("1.2.3.4:1"));
    assert!(!worth_copying("…"));
    assert!(!worth_copying(""));
    assert!(may_open("https://example.org"));
    assert!(!may_open("https://example.org/\" & x"));
    assert!(!may_open(""));
}

const TABLE: &str = "  sl  local_address rem_address   st tx_queue rx_queue tr tm->when retrnsmt   uid  timeout inode\n   0: 0100007F:63DD 00000000:0000 0A 00000000:00000000 00:00000000 00000000  1000        0 4242 1\n   1: 00000000:63DD 00000000:0000 01 00000000:00000000 00:00000000 00000000  1000        0 4343 1\n   2: 00000000:0050 00000000:0000 0A 00000000:00000000 00:00000000 00000000  1000        0 4444 1\n   3: 00000000:63DD 00000000:0000 0A 0 0 0 0 0 0\n";

fn descriptors(dir: &str, links: &[&str]) -> Descriptors {
    Descriptors { dir: dir.to_string(), links: links.iter().map(|s| s.to_string()).collect() }
}

#[test]
fn listeners_on_linux() {
    let all = vec![
        descriptors("self", &["socket:[4242]"]),
        descriptors("12", &["/dev/null", "socket:[4343]"]),
        descriptors("77", &["pipe:[4242]", "socket:[4242]", "socket:[4242]"]),
        descriptors("78", &["socket:[4242"]),
        descriptors("79", &["socket:[4242]"]),
    ];
    let tables = vec![TABLE.to_string(), "header\n".to_string()];
    assert_eq!(pids_listening_linux(&tables, &all, 25565), vec![77, 79]);
    assert!(pids_listening_linux(&tables, &all, 25566).is_empty());
    assert!(pids_listening_linux(&vec![], &all, 25565).is_empty());
    assert_eq!(pid_in_file(" 4711\n"), Some(4711));
    assert_eq!(pid_in_file("4711a"), None);
}

#[test]
fn listeners_on_windows() {
    let output = "\r\nActive Connections\r\n\r\n  Proto  Local Address          Foreign Address        State           PID\r\n  TCP    0.0.0.0:25565          0.0.0.0:0              LISTENING       4711\r\n  TCP    [::]:25565             [::]:0                 listening       4711\r\n  TCP    127.0.0.1:25565        127.0.0.1:5000         ESTABLISHED     12\r\n  TCP    [::1]:25565            [::]:0                 LISTENING       0\r\n  TCP    0.0.0.0:80             0.0.0.0:0              LISTENING       9\r\n  UDP    0.0.0.0:25565          *:*                                    4\r\n";
    assert_eq!(pids_listening_on_port(output, 25565), vec![4711]);
    assert_eq!(pids_listening_on_port(output, 80), vec![9]);
    let port = |s: &str| local_listen_port(&s.chars().collect::<Vec<char>>());
    assert_eq!(port("[fe80::1]:80"), Some(80));
    assert_eq!(port("[fe80::1]80"), None);
    assert_eq!(port("[fe80::1"), None);
    assert_eq!(port("0.0.0.0"), None);
    assert_eq!(port(" 1.2.3.4:70000 "), None);
}

#[test]
fn disk_free_is_readable() {
    let df = "Filesystem             1-blocks         Used    Available Capacity Mounted on\noverlay            269490393088 101826162688 153900445696      40% /\n";
    let free = disk_free_bytes(df).expect("disk");
    assert!(free > 0);
    assert_eq!(free, 153_900_445_696);
}

#[test]
fn free_bytes() {
    let df = "Filesystem     1-blocks        Used   Available Capacity Mounted on\n/dev/sda1   1000 400  600      40% /\n";
    assert_eq!(disk_free_bytes(df), Some(600));
    assert_eq!(disk_free_bytes("one line"), None);
    assert_eq!(disk_free_bytes("a\nb c d"), None);
    assert_eq!(disk_free_bytes("a\nb c d -"), None);
}

#[test]
fn answers_of_the_dns_service() {
    assert_eq!(cf_answer(&json(r#"{"success":true}"#), false), Ok(()));
    assert_eq!(cf_answer(&json("{}"), true), Ok(()));
    assert_eq!(cf_answer(&json("{}"), false), Err("Cloudflare reddetti".to_string()));
    assert_eq!(
        cf_answer(&json(r#"{"success":false,"errors":[{"message":"no"},{"message":"other"}]}"#), true),
        Err("no".to_string())
    );
}

#[test]
fn the_longest_zone_is_picked() {
    let zones = json(
        r#"{"result":[{"name":"org","id":"1"},{"name":"example.org","id":"2"},{"name":"ample.org","id":"3"},{"name":"mc.example.org"},{"name":"example.org","id":"4"}]}"#,
    );
    assert_eq!(pick_zone(&zones, "mc.example.org"), Ok("4".to_string()));
    assert_eq!(pick_zone(&zones, "example.org"), Ok("4".to_string()));
    assert_eq!(pick_zone(&zones, "x.org"), Ok("1".to_string()));
    assert_eq!(
        pick_zone(&zones, "x.net"),
        Err("Bu alan adı token'daki bir Cloudflare bölgesine ait değil.".to_string())
    );
    assert_eq!(pick_zone(&json("{}"), "x.net"), Err("Cloudflare bölge listesi boş.".to_string()));
}

#[test]
fn records() {
    assert_eq!(srv_name("a.org"), "_minecraft._tcp.a.org");
    assert_eq!(
        lookup_url("z", "A", "a.org"),
        "https://api.cloudflare.com/client/v4/zones/z/dns_records?type=A&name=a.org"
    );
    let r = record_request("z", &json(r#"{"result":[{"id":"r"}]}"#));
    assert!(r.replace);
    assert_eq!(r.url, "https://api.cloudflare.com/client/v4/zones/z/dns_records/r");
    let r = record_request("z", &json(r#"{"result":[]}"#));
    assert!(!r.replace);
    assert_eq!(r.url, "https://api.cloudflare.com/client/v4/zones/z/dns_records");
    let a = a_body("a.org", "1.2.3.4");
    assert_eq!(a.text("type"), Some("A".to_string()));
    assert_eq!(a.text("content"), Some("1.2.3.4".to_string()));
    assert_eq!(a.number("ttl"), Some(120));
    assert_eq!(a.get("proxied").and_then(|v| v.as_bool()), Some(false));
    let s = srv_body("a.org", 25570);
    assert_eq!(s.text("name"), Some("_minecraft._tcp.a.org".to_string()));
    let data = s.get("data").expect("data");
    assert_eq!((data.number("priority"), data.number("weight"), data.number("port")), (Some(0), Some(5), Some(25570)));
    assert_eq!(data.text("target"), Some("a.org".to_string()));
    assert_eq!(published("a.org"), "a.org için A ve SRV yazıldı. Oyuncu port yazmadan a.org girer.");
}

#[test]
fn the_name_that_is_kept() {
    assert_eq!(join_host("  "), Ok(String::new()));
    assert_eq!(join_host(" MC.example.org. "), Ok("MC.example.org.".to_string()));
    assert_eq!(join_host("-a.org"), Err("Alan adı geçersiz. Örnek: mc.duckdns.org".to_string()));
    assert_eq!(
        check_publish(" MC.example.org. ", " t ", true),
        Ok(("mc.example.org".to_string(), "t".to_string()))
    );
    assert_eq!(check_publish("org", "", true), Err(HostError::Shape.message()));
    assert_eq!(check_publish("-a.org", "t", true), Err(HostError::Label.message()));
    assert_eq!(
        check_publish("a.org", " ", true),
        Err("Cloudflare token yok. DNS → Edit izni olan bir token yapıştır.".to_string())
    );
    assert_eq!(
        check_publish("a.org", "", false),
        Err("Paste a Cloudflare token with DNS edit permission.".to_string())
    );
}

#[test]
fn processes_that_are_ended() {
    assert_eq!(force_stop_java(&vec![7, 0, 9], Some(12)), vec![7, 9, 12]);
    assert_eq!(force_stop_java(&vec![7], Some(0)), vec![7]);
    assert!(force_stop_java(&vec![], None).is_empty());
}
