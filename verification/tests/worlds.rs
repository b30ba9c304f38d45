use std::io::{Cursor, Read, Write};

use panelmc::backups::{backup_folders, check_backup, prune_backups, Candidate};
use panelmc::listing::{get_backups_of, get_server_files_of, Entry};
use panelmc::worlds::{
    archive_folder, archive_name, create_or_reset_world, get_worlds_of, goes_into_archive,
    import_step, is_safe_leaf_name, reset_world_of, world_folder_ready, Folder, ImportStep,
};

fn candidate(name: &str, is_dir: bool) -> Candidate {
    Candidate { name: name.to_string(), is_dir }
}

#[test]
fn auto_backup_zips_world_and_prunes() {
    let plan = backup_folders(&vec![candidate("world", true)], "oto", 100).ok().expect("plan");
    assert_eq!(plan.name, "oto-100.zip");
    assert_eq!(plan.folders, vec!["world"]);

    let files: [(&str, &str, bool, &[u8]); 4] = [
        ("region", "region", true, b""),
        ("level.dat", "level.dat", false, b"level"),
        ("session.lock", "session.lock", false, b"lock"),
        ("r.0.0.mca", "region\\r.0.0.mca", false, b"chunk"),
    ];
    let options = zip::write::FileOptions::default().compression_method(zip::CompressionMethod::Stored);
    let mut zip = zip::ZipWriter::new(Cursor::new(Vec::new()));
    zip.add_directory(archive_folder("world"), options).unwrap();
    for (file, path, is_dir, bytes) in files {
        if !goes_into_archive(file) {
            continue;
        }
        let name = archive_name("world", path);
        if is_dir {
            zip.add_directory(archive_folder(&name), options).unwrap();
        } else {
            zip.start_file(name, options).unwrap();
            zip.write_all(bytes).unwrap();
        }
    }
    let mut archive = zip::ZipArchive::new(zip.finish().unwrap()).unwrap();
    let mut stored = Vec::new();
    for i in 0..archive.len() {
        stored.push(archive.by_index(i).unwrap().name().to_string());
    }
    assert!(stored.iter().any(|n| n.ends_with("level.dat")));
    assert!(stored.iter().any(|n| n.ends_with("r.0.0.mca")));
    assert!(!stored.iter().any(|n| n.contains("session.lock")));
    let mut chunk = Vec::new();
    archive.by_name("world/region/r.0.0.mca").unwrap().read_to_end(&mut chunk).unwrap();
    assert_eq!(chunk, b"chunk");

    let mut backups: Vec<String> = (1..7).map(|ts| format!("oto-{ts}.zip")).collect();
    backups.push(plan.name);
    backups.push("yedek-9.zip".to_string());
    let removed = prune_backups(&backups, "oto", 5);
    assert_eq!(removed.len(), 2);
    let left: Vec<&String> = backups.iter().filter(|n| !removed.contains(n)).collect();
    assert!(left.iter().any(|n| n.as_str() == "yedek-9.zip"));
    assert_eq!(left.iter().filter(|n| n.starts_with("oto-")).count(), 5);
}

#[test]
fn backups_that_are_refused() {
    let none = "Dünya klasörü yok. Sunucuyu bir kez çalıştırın.";
    assert_eq!(backup_folders(&vec![], "oto!", 1).err().as_deref(), Some(none));
    assert_eq!(
        backup_folders(&vec![candidate("world", true)], "o/to", 1).err().as_deref(),
        Some("Geçersiz yedek adı.")
    );
    assert_eq!(
        backup_folders(&vec![candidate("../x", true), candidate("world", false)], "oto", 1).err().as_deref(),
        Some(none)
    );
    let plan = backup_folders(&vec![candidate("a:b", true), candidate("w", true)], "yedek", 7).ok().expect("plan");
    assert_eq!((plan.name.as_str(), plan.folders), ("yedek-7.zip", vec!["w".to_string()]));
    assert_eq!(check_backup("yedek-7.zip", true), Ok(()));
    assert_eq!(check_backup("yedek-7.zip", false), Err("Yedek bulunamadı.".to_string()));
    assert_eq!(check_backup("../yedek-7.zip", true), Err("Geçersiz yedek.".to_string()));
    assert_eq!(check_backup("yedek-7.tar", true), Err("Geçersiz yedek.".to_string()));
}

#[test]
fn the_oldest_backups_go() {
    let names: Vec<String> = [1700000003, 1700000001, 1700000002, 1700000004]
        .iter()
        .map(|ts| format!("oto-{ts}.zip"))
        .chain(["oto-1.txt".to_string(), "otox-1.zip".to_string()])
        .collect();
    assert_eq!(prune_backups(&names, "oto", 2), vec!["oto-1700000001.zip", "oto-1700000002.zip"]);
    assert!(prune_backups(&names, "oto", 4).is_empty());
    assert_eq!(prune_backups(&names, "oto", 0).len(), 4);
    assert_eq!(prune_backups(&names, "otox", 0), vec!["otox-1.zip"]);
}

#[test]
fn names_that_stay_in_their_folder() {
    for ok in ["world", "a.b", "dünya 1", ".x"] {
        assert!(is_safe_leaf_name(ok), "{ok}");
    }
    for bad in ["", "..", "a..b", "a/b", "a\\b", "c:"] {
        assert!(!is_safe_leaf_name(bad), "{bad}");
    }
    assert_eq!(reset_world_of("world", true), Ok(true));
    assert_eq!(reset_world_of("world", false), Ok(false));
    assert_eq!(reset_world_of("a/b", true), Err("Geçersiz dünya adı.".to_string()));
    assert_eq!(
        create_or_reset_world("world", "world"),
        Ok(vec!["world".to_string(), "world_nether".to_string(), "world_the_end".to_string()])
    );
    assert_eq!(create_or_reset_world("world", "other"), Ok(vec!["other".to_string()]));
    assert_eq!(create_or_reset_world("..", ".."), Err("Geçersiz dünya adı.".to_string()));
}

fn folder(name: &str, ready: bool) -> Folder {
    Folder { name: name.to_string(), ready }
}

#[test]
fn worlds_are_listed_once() {
    let folders = vec![
        folder("world_nether", true),
        folder("plugins", false),
        folder("backups", true),
        folder("lobby", true),
        folder("world", true),
        folder("world_the_end", true),
    ];
    let got: Vec<(String, String, bool)> = get_worlds_of("world", true, true, false, &folders)
        .into_iter()
        .map(|w| (w.name, w.kind, w.exists))
        .collect();
    let want = [
        ("world", "Overworld", true),
        ("world_nether", "Nether", true),
        ("lobby", "Dünya", true),
        ("world_the_end", "Dünya", true),
    ];
    assert_eq!(got.len(), want.len());
    for (g, w) in got.iter().zip(want) {
        assert_eq!((g.0.as_str(), g.1.as_str(), g.2), w);
    }
    let all = get_worlds_of("w", false, true, true, &vec![]);
    assert_eq!(all.len(), 3);
    assert!(!all[0].exists);
    assert_eq!((all[2].name.as_str(), all[2].kind.as_str()), ("w_the_end", "The End"));
    assert!(world_folder_ready(true, false, false, true, false));
    assert!(!world_folder_ready(true, false, false, false, false));
    assert!(!world_folder_ready(false, true, true, true, true));
}

#[test]
fn unpacked_worlds() {
    assert_eq!(import_step(true, 3), ImportStep::Done);
    assert_eq!(import_step(false, 1), ImportStep::Hoist);
    assert_eq!(import_step(false, 0), ImportStep::Missing);
    assert_eq!(import_step(false, 2), ImportStep::Missing);
    assert!(goes_into_archive("level.dat"));
    assert!(!goes_into_archive("session.lock.tmp"));
    assert_eq!(archive_name("w", "a\\b/c"), "w/a/b/c");
}

fn entry(name: &str, is_dir: bool, size: u64) -> Entry {
    Entry { name: name.to_string(), is_dir, size }
}

#[test]
fn files_are_listed_in_order() {
    let list = vec![entry("b.txt", false, 1), entry("Zoo", true, 2), entry("A.txt", false, 3), entry("apple", true, 4)];
    let names: Vec<(String, u64)> = get_server_files_of(&list).into_iter().map(|e| (e.name, e.size)).collect();
    assert_eq!(
        names,
        vec![("apple".to_string(), 4), ("Zoo".to_string(), 2), ("A.txt".to_string(), 3), ("b.txt".to_string(), 1)]
    );
    let list = vec![entry("yedek-1.zip", false, 1), entry("x.zip", true, 0), entry("yedek-2.zip", false, 2), entry("n.txt", false, 3)];
    let names: Vec<String> = get_backups_of(&list).into_iter().map(|e| e.name).collect();
    assert_eq!(names, vec!["yedek-2.zip", "yedek-1.zip"]);
}
