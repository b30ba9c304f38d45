//! What the panel says.
use vstd::prelude::*;
use vstd::slice::slice_subrange;

use crate::backups::DueBackup;
use crate::text::{cat2, cat3, cat4, cat5, chars_of, string_of};

verus! {

/// Whether a server runs, in a word.
pub fn running_word(running: bool) -> (r: &'static str)
    ensures
        r@ == (if running {
            "Çalışıyor"@
        } else {
            "Durduruldu"@
        }),
{
    if running {
        "Çalışıyor"
    } else {
        "Durduruldu"
    }
}

/// Whether a server can be started: its archive is there, and so is the Java that it runs on.
pub fn check_start(id: &str, has_jar: bool, java: &str, has_java: bool) -> (r: Result<(), String>)
    ensures
        match r {
            Ok(_) => has_jar && has_java,
            Err(e) => if !has_jar {
                e@ == "'"@ + id@
                    + "' için server.jar bulunamadı! Yazılım sekmesinden indirin."@
            } else {
                !has_java && e@ == "Seçili Java motoru ("@ + java@
                    + ") bulunamadı! 'Java' sekmesinden indirin."@
            },
        },
{
    if !has_jar {
        return Err(
            cat3("'", id, "' için server.jar bulunamadı! Yazılım sekmesinden indirin."),
        );
    }
    if !has_java {
        return Err(
            cat3("Seçili Java motoru (", java, ") bulunamadı! 'Java' sekmesinden indirin."),
        );
    }
    Ok(())
}

/// What the console says once a server is being started.
pub fn starting_line(id: &str, java: &str, xmx: &str) -> (r: String)
    ensures
        r@ == "[SİSTEM] '"@ + id@ + "' başlatılıyor... (Motor: "@ + java@ + ", RAM: "@ + xmx@
            + ")"@,
{
    let mut s = cat5("[SİSTEM] '", id, "' başlatılıyor... (Motor: ", java, ", RAM: ");
    s.append(xmx);
    s.append(")");
    s
}

/// What is said once a plugin was installed.
pub fn plugin_installed(file: &str, running: bool, turkish: bool) -> (r: String)
    ensures
        r@ == "'"@ + file@ + "' "@ + (if running {
            if turkish {
                "Kuruldu. Açılması için sunucuyu yeniden başlat."@
            } else {
                "Installed. Restart the server so it loads."@
            }
        } else {
            if turkish {
                "Kuruldu. Sunucu açılınca yüklenecek."@
            } else {
                "Installed. It loads when the server starts."@
            }
        }),
{
    let hint = if running {
        if turkish {
            "Kuruldu. Açılması için sunucuyu yeniden başlat."
        } else {
            "Installed. Restart the server so it loads."
        }
    } else {
        if turkish {
            "Kuruldu. Sunucu açılınca yüklenecek."
        } else {
            "Installed. It loads when the server starts."
        }
    };
    cat4("'", file, "' ", hint)
}

/// What is said once the interval of backups was set; `every` is zero for never.
pub fn backup_every_set(every: u32, turkish: bool) -> (r: &'static str)
    ensures
        r@ == (if every == 0 {
            if turkish {
                "Otomatik yedek kapalı."@
            } else {
                "Automatic backup is off."@
            }
        } else {
            if turkish {
                "Otomatik yedek kaydedildi. İlk yedek bir aralık sonra."@
            } else {
                "Automatic backup saved. The first one waits one interval."@
            }
        }),
{
    if every == 0 {
        if turkish {
            "Otomatik yedek kapalı."
        } else {
            "Automatic backup is off."
        }
    } else {
        if turkish {
            "Otomatik yedek kaydedildi. İlk yedek bir aralık sonra."
        } else {
            "Automatic backup saved. The first one waits one interval."
        }
    }
}

/// What is said of a backup that is due; nothing where it waits.
pub open spec fn due_words(step: DueBackup, turkish: bool) -> Seq<char> {
    match step {
        DueBackup::Wait => Seq::empty(),
        DueBackup::DiskLow => if turkish {
            "Otomatik yedek atlandı: disk 2 GB altında."@
        } else {
            "Automatic backup skipped: under 2 GB free."@
        },
        DueBackup::NotOurs => if turkish {
            "Otomatik yedek için sunucuyu PanelMC'den başlat."@
        } else {
            "Start the server from PanelMC for automatic backups."@
        },
        DueBackup::Take => if turkish {
            "Otomatik yedek alınıyor..."@
        } else {
            "Automatic backup..."@
        },
    }
}

/// What is said of a backup that is due.
pub fn due_message(step: DueBackup, turkish: bool) -> (r: String)
    ensures
        r@ == due_words(step, turkish),
{
    match step {
        DueBackup::Wait => String::new(),
        DueBackup::DiskLow => if turkish {
            "Otomatik yedek atlandı: disk 2 GB altında.".to_owned()
        } else {
            "Automatic backup skipped: under 2 GB free.".to_owned()
        },
        DueBackup::NotOurs => if turkish {
            "Otomatik yedek için sunucuyu PanelMC'den başlat.".to_owned()
        } else {
            "Start the server from PanelMC for automatic backups.".to_owned()
        },
        DueBackup::Take => if turkish {
            "Otomatik yedek alınıyor...".to_owned()
        } else {
            "Automatic backup...".to_owned()
        },
    }
}

/// What is said once a backup was taken by itself.
pub fn auto_backup_done(name: &str, turkish: bool) -> (r: String)
    ensures
        r@ == name@ + (if turkish {
            " otomatik kaydedildi."@
        } else {
            " saved automatically."@
        }),
{
    if turkish {
        cat2(name, " otomatik kaydedildi.")
    } else {
        cat2(name, " saved automatically.")
    }
}

/// What is said where a backup is being taken already.
pub fn backup_busy(turkish: bool) -> (r: &'static str)
    ensures
        r@ == (if turkish {
            "Yedek zaten alınıyor."@
        } else {
            "A backup is already running."@
        }),
{
    if turkish {
        "Yedek zaten alınıyor."
    } else {
        "A backup is already running."
    }
}

/// What is said of a newer release of the panel.
pub fn update_label(tag: &str, turkish: bool) -> (r: String)
    ensures
        r@ == (if turkish {
            "Güncelle "@
        } else {
            "Update "@
        }) + tag@,
{
    if turkish {
        cat2("Güncelle ", tag)
    } else {
        cat2("Update ", tag)
    }
}

/// What is said once a resource pack was copied: the first eight digits of its checksum.
pub fn pack_copied(sha: &str) -> (r: String)
    ensures
        r@ == "Paket kopyalandı (SHA1 "@ + (if sha@.len() > 8 {
            sha@.take(8)
        } else {
            sha@
        }) + "). Kaydet'e bas."@,
{
    let cs = chars_of(sha);
    let short = if cs.len() > 8 {
        assert(cs@.subrange(0, 8) == cs@.take(8));
        string_of(slice_subrange(&cs, 0, 8))
    } else {
        string_of(&cs)
    };
    cat3("Paket kopyalandı (SHA1 ", short.as_str(), "). Kaydet'e bas.")
}

/// Of a backup that waits nothing is said; else it is said, in either language, that the disk is too
/// full, that the server has to be started by the panel, or that the backup is being taken.
pub proof fn law_words_for_a_due_backup()
    ensures
        due_words(DueBackup::Wait, true).len() == 0 && due_words(DueBackup::Wait, false).len() == 0,
        due_words(DueBackup::DiskLow, true) == "Otomatik yedek atlandı: disk 2 GB altında."@,
        due_words(DueBackup::DiskLow, false) == "Automatic backup skipped: under 2 GB free."@,
        due_words(DueBackup::NotOurs, true) == "Otomatik yedek için sunucuyu PanelMC'den başlat."@,
        due_words(DueBackup::NotOurs, false)
            == "Start the server from PanelMC for automatic backups."@,
        due_words(DueBackup::Take, true) == "Otomatik yedek alınıyor..."@,
        due_words(DueBackup::Take, false) == "Automatic backup..."@,
{
}

} // verus!
