//! What the panel learns from the machine that it runs on: language, colours, Java.
use vstd::prelude::*;

use crate::numbers::{decimal, decimal_of};
use crate::percent::{percent_encode_path, percent_encoded};
use crate::text::{
    begins_with, cat2, cat3, cat5, chars_of, contains, has, is_empty, lines, lines_of, pieces, same,
    starts_with, string_of, texts, trim, trim_text,
};
use crate::unicode::{from_utf8_lossy, lowercase, lowers_as_ascii, to_lowercase, utf8_lossy};

verus! {

// ---------------------------------------------------------------------------------------------
// Language and colours
// ---------------------------------------------------------------------------------------------
/// The language for a locale in lower case.
pub fn language_for(locale: &str) -> (r: &'static str)
    ensures
        r@ == (if starts_with(locale@, "tr"@) {
            "tr"@
        } else {
            "en"@
        }),
{
    if begins_with(locale, "tr") {
        "tr"
    } else {
        "en"
    }
}

/// The language for the locale that the environment says.
pub fn detect_system_language(locale: &str) -> (r: &'static str)
    ensures
        r@ == (if starts_with(lowercase(locale@), "tr"@) {
            "tr"@
        } else {
            "en"@
        }),
        lowers_as_ascii(locale@),
{
    language_for(to_lowercase(locale).as_str())
}

/// Whether the colours are dark, as the settings of the desktop, in lower case, say.
pub open spec fn dark_said(settings: Seq<char>) -> bool {
    !contains(settings, "default"@)
}

/// Whether the colours are dark, as the settings of the desktop say: they are, unless it uses
/// its default ones.
pub fn detect_system_dark_theme(settings: &str) -> (r: bool)
    ensures
        r == dark_said(lowercase(settings@)),
        lowers_as_ascii(settings@),
{
    !(has(to_lowercase(settings).as_str(), "default"))
}

/// Whether the colours are dark, as the first of `lines` that speaks of it says.
pub open spec fn registry_dark(lines: Seq<Seq<char>>) -> bool
    decreases lines.len(),
{
    if lines.len() == 0 {
        true
    } else if contains(lines.first(), "AppsUseLightTheme"@) {
        !contains(lines.first(), "0x1"@)
    } else {
        registry_dark(lines.drop_first())
    }
}

/// Whether the colours are dark, as the registry of Windows says.
pub fn registry_dark_theme(output: &str) -> (r: bool)
    ensures
        r == registry_dark(lines(output@)),
{
    let cs = chars_of(output);
    let all = lines_of(&cs);
    let n: usize = all.len();
    let ghost ls = pieces(all@);
    assert(ls.skip(0) == ls);
    for i in 0..n
        invariant
            n == all@.len(),
            ls == pieces(all@),
            ls == lines(output@),
            registry_dark(ls) == registry_dark(ls.skip(i as int)),
    {
        assert(ls.skip(i as int).first() == all@[i as int]@);
        assert(ls.skip(i as int).drop_first() == ls.skip(i + 1));
        let line = string_of(&all[i]);
        if has(line.as_str(), "AppsUseLightTheme") {
            return !(has(line.as_str(), "0x1"));
        }
    }
    assert(ls.skip(n as int) == Seq::<Seq<char>>::empty());
    true
}

/// Whether one of `lines` names a Turkish locale.
pub open spec fn registry_turkish(lines: Seq<Seq<char>>) -> bool {
    exists|i: int|
        0 <= i < lines.len() && contains(#[trigger] lines[i], "LocaleName"@) && contains(
            lowercase(lines[i]),
            "tr"@,
        )
}

/// The language, as the registry of Windows says.
pub fn registry_language(output: &str) -> (r: &'static str)
    ensures
        r@ == (if registry_turkish(lines(output@)) {
            "tr"@
        } else {
            "en"@
        }),
{
    let cs = chars_of(output);
    let all = lines_of(&cs);
    let n: usize = all.len();
    let ghost ls = pieces(all@);
    for i in 0..n
        invariant
            n == all@.len(),
            ls == pieces(all@),
            ls == lines(output@),
            forall|j: int|
                0 <= j < i ==> !(contains(#[trigger] ls[j], "LocaleName"@) && contains(
                    lowercase(ls[j]),
                    "tr"@,
                )),
    {
        assert(ls[i as int] == all@[i as int]@);
        let line = string_of(&all[i]);
        if has(line.as_str(), "LocaleName") && has(to_lowercase(line.as_str()).as_str(), "tr") {
            return "tr";
        }
    }
    "en"
}

/// The path that a dialog printed; none where it printed nothing.
pub fn picked_path(output: &[u8]) -> (r: Option<String>)
    ensures
        match r {
            Some(p) => p@ == trim(utf8_lossy(output@)) && p@.len() > 0,
            None => trim(utf8_lossy(output@)).len() == 0,
        },
{
    let p = trim_text(from_utf8_lossy(output).as_str());
    if is_empty(p.as_str()) {
        None
    } else {
        Some(p)
    }
}

// ---------------------------------------------------------------------------------------------
// Java
// ---------------------------------------------------------------------------------------------
/// The machine in the words of the service that offers Java.
pub struct Machine {
    pub os: &'static str,
    pub arch: &'static str,
}

/// The operating system in the words of the service.
pub open spec fn adoptium_os(os: Seq<char>) -> Option<Seq<char>> {
    if os == "windows"@ {
        Some("windows"@)
    } else if os == "linux"@ {
        Some("linux"@)
    } else if os == "macos"@ {
        Some("mac"@)
    } else {
        None
    }
}

/// The processor in the words of the service.
pub open spec fn adoptium_arch(arch: Seq<char>) -> Option<Seq<char>> {
    if arch == "x86_64"@ {
        Some("x64"@)
    } else if arch == "aarch64"@ {
        Some("aarch64"@)
    } else if arch == "x86"@ {
        Some("x86"@)
    } else {
        None
    }
}

/// The machine in the words of the service that offers Java.
pub fn adoptium_os_arch(os: &str, arch: &str) -> (r: Result<Machine, String>)
    ensures
        match r {
            Ok(m) => adoptium_os(os@) == Some(m.os@) && adoptium_arch(arch@) == Some(m.arch@),
            Err(e) => if adoptium_os(os@) is None {
                e@ == "Bu işletim sistemi henüz desteklenmiyor: "@ + os@
            } else {
                adoptium_arch(arch@) is None && e@ == "Bu CPU mimarisi henüz desteklenmiyor: "@
                    + arch@
            },
        },
{
    let o = if same(os, "windows") {
        "windows"
    } else if same(os, "linux") {
        "linux"
    } else if same(os, "macos") {
        "mac"
    } else {
        return Err(cat2("Bu işletim sistemi henüz desteklenmiyor: ", os));
    };
    let a = if same(arch, "x86_64") {
        "x64"
    } else if same(arch, "aarch64") {
        "aarch64"
    } else if same(arch, "x86") {
        "x86"
    } else {
        return Err(cat2("Bu CPU mimarisi henüz desteklenmiyor: ", arch));
    };
    Ok(Machine { os: o, arch: a })
}

/// Where a version of Java is downloaded from.
pub fn java_url(version: &str, machine: &Machine) -> (r: String)
    ensures
        r@ == "https://api.adoptium.net/v3/binary/latest/"@ + version@ + "/ga/"@ + machine.os@
            + "/"@ + machine.arch@ + "/jdk/hotspot/normal/eclipse?project=jdk"@,
{
    let mut url = cat5(
        "https://api.adoptium.net/v3/binary/latest/",
        version,
        "/ga/",
        machine.os,
        "/",
    );
    url.append(machine.arch);
    url.append("/jdk/hotspot/normal/eclipse?project=jdk");
    url
}

/// The name of a version of Java, under which it is kept.
pub fn java_folder(version: &str) -> (r: String)
    ensures
        r@ == "java"@ + version@,
{
    cat2("java", version)
}

/// Whether a download of that many bytes can be Java.
pub fn check_java_archive(bytes: u64) -> (r: Result<(), String>)
    ensures
        match r {
            Ok(_) => bytes >= 1_000_000,
            Err(e) => bytes < 1_000_000 && e@ == "Java arşivi eksik indi."@,
        },
{
    if bytes < 1_000_000 {
        Err("Java arşivi eksik indi.".to_owned())
    } else {
        Ok(())
    }
}

/// Whether a download of that many bytes can be a server.
pub fn check_server_jar(bytes: u64) -> (r: Result<(), String>)
    ensures
        match r {
            Ok(_) => bytes >= 100_000,
            Err(e) => bytes < 100_000 && e@
                == "İnen dosya sunucu jar'ı değil. Kurulum iptal edildi."@,
        },
{
    if bytes < 100_000 {
        Err("İnen dosya sunucu jar'ı değil. Kurulum iptal edildi.".to_owned())
    } else {
        Ok(())
    }
}

/// The folders in which Java is looked for: the one that was selected, then the newest first.
pub fn java_candidates(selected: &str) -> (r: Vec<String>)
    ensures
        texts(r@) == seq![selected@, "java25"@, "java21"@, "java17"@],
{
    let mut out: Vec<String> = Vec::new();
    out.push(selected.to_owned());
    out.push("java25".to_owned());
    out.push("java21".to_owned());
    out.push("java17".to_owned());
    assert(texts(out@) == seq![selected@, "java25"@, "java21"@, "java17"@]);
    out
}

/// Whether no folder before place `n` holds Java.
pub open spec fn none_before(hits: Seq<Option<String>>, n: int) -> bool {
    forall|i: int| 0 <= i < n ==> (#[trigger] hits[i]) is None
}

/// The Java that is run, where `hits` is what each folder holds: the first that was found, else the
/// machine's own where there is one.
pub fn chosen_java(hits: &Vec<Option<String>>, system: bool) -> (r: Option<String>)
    ensures
        forall|i: int|
            0 <= i < hits@.len() && none_before(hits@, i) && (#[trigger] hits@[i]) is Some ==> match r {
                Some(java) => java@ == hits@[i]->0@,
                None => false,
            },
        none_before(hits@, hits@.len() as int) ==> match r {
            Some(java) => system && java@ == "java"@,
            None => !system,
        },
{
    for i in 0..hits.len()
        invariant
            none_before(hits@, i as int),
    {
        if let Some(java) = &hits[i] {
            return Some(java.clone());
        }
    }
    if system {
        Some("java".to_owned())
    } else {
        None
    }
}

/// What the panel calls the Java that a server runs on.
pub fn java_label(selected: &str) -> (r: &'static str)
    ensures
        r@ == (if selected@ == "java25"@ {
            "Java 25 (Seçili)"@
        } else if selected@ == "java21"@ {
            "Java 21 (Seçili)"@
        } else if selected@ == "java17"@ {
            "Java 17 (Seçili)"@
        } else {
            "Sistem Java'sı"@
        }),
{
    if same(selected, "java25") {
        "Java 25 (Seçili)"
    } else if same(selected, "java21") {
        "Java 21 (Seçili)"
    } else if same(selected, "java17") {
        "Java 17 (Seçili)"
    } else {
        "Sistem Java'sı"
    }
}

// ---------------------------------------------------------------------------------------------
// Plugins
// ---------------------------------------------------------------------------------------------
/// What is searched for: `server` where nothing was typed in.
pub fn search_query(typed: &str) -> (r: String)
    ensures
        r@ == (if trim(typed@).len() == 0 {
            "server"@
        } else {
            trim(typed@)
        }),
{
    let t = trim_text(typed);
    if is_empty(t.as_str()) {
        "server".to_owned()
    } else {
        t
    }
}

/// The folder that plugins or mods of a software go to.
pub fn plugin_folder(software: &str) -> (r: &'static str)
    ensures
        r@ == (if software@ == "Fabric"@ || software@ == "Forge"@ || software@ == "NeoForge"@ {
            "mods"@
        } else {
            "plugins"@
        }),
{
    if same(software, "Fabric") || same(software, "Forge") || same(software, "NeoForge") {
        "mods"
    } else {
        "plugins"
    }
}

/// The address at which Spigot plugins are searched for.
pub fn spigot_search_url(query: &str) -> (r: String)
    ensures
        r@ == "https://api.spiget.org/v2/search/resources/"@ + percent_encoded(query@),
{
    cat2("https://api.spiget.org/v2/search/resources/", percent_encode_path(query).as_str())
}

/// What the panel calls the Spigot plugin with the number `id`.
pub fn spigot_slug(id: u64) -> (r: String)
    ensures
        r@ == "spiget:"@ + decimal(id as nat),
{
    cat2("spiget:", decimal_of(id).as_str())
}

/// What is said of a Spigot plugin: its own line, or that it is one.
pub fn spigot_description(tag: &Option<String>) -> (r: String)
    ensures
        r@ == (match *tag {
            Some(t) => t@,
            None => "Spigot eklentisi."@,
        }),
{
    match tag {
        Some(t) => t.clone(),
        None => "Spigot eklentisi.".to_owned(),
    }
}

/// The address of the icon of a Spigot plugin: the one that is given, or the service's own.
pub fn spiget_icon_url(given: &Option<String>, id: &str) -> (r: String)
    ensures
        r@ == (match *given {
            Some(u) => if trim(u@).len() > 0 {
                u@
            } else {
                "https://api.spiget.org/v2/resources/"@ + id@ + "/icon"@
            },
            None => "https://api.spiget.org/v2/resources/"@ + id@ + "/icon"@,
        }),
{
    if let Some(u) = given {
        if !is_empty(trim_text(u.as_str()).as_str()) {
            return u.clone();
        }
    }
    cat3("https://api.spiget.org/v2/resources/", id, "/icon")
}

/// Where a plugin comes from.
pub enum PluginSource {
    /// A Spigot plugin: its archive, and the name that it is kept under.
    Spiget { url: String, file: String },
    /// A plugin of Modrinth: the list of its versions.
    Modrinth { versions: String },
}

/// Where the plugin `slug` comes from.
pub fn plugin_source(slug: &str) -> (r: PluginSource)
    ensures
        match (r, crate::text::strip_prefix(slug@, "spiget:"@)) {
            (PluginSource::Spiget { url, file }, Some(id)) => url@
                == "https://api.spiget.org/v2/resources/"@ + id + "/download"@ && file@
                == "spigot_"@ + id + ".jar"@,
            (PluginSource::Modrinth { versions }, None) => versions@
                == "https://api.modrinth.com/v2/project/"@ + slug@ + "/version"@,
            _ => false,
        },
{
    let cs = chars_of(slug);
    match crate::text::without_prefix(&cs, &chars_of("spiget:")) {
        Some(rest) => {
            let id = string_of(rest);
            PluginSource::Spiget {
                url: cat3("https://api.spiget.org/v2/resources/", id.as_str(), "/download"),
                file: cat3("spigot_", id.as_str(), ".jar"),
            }
        },
        None => PluginSource::Modrinth {
            versions: cat3("https://api.modrinth.com/v2/project/", slug, "/version"),
        },
    }
}

/// A file that is offered for download.
pub struct PluginFile {
    pub url: String,
    pub filename: String,
}

/// The file that is downloaded, of the files of each version: the first file of the first version.
pub fn first_file(versions: &Vec<Vec<PluginFile>>) -> (r: Result<PluginFile, String>)
    ensures
        match r {
            Ok(file) => versions@.len() > 0 && versions@[0]@.len() > 0 && file.url@
                == versions@[0]@[0].url@ && file.filename@ == versions@[0]@[0].filename@,
            Err(e) => (versions@.len() == 0 || versions@[0]@.len() == 0) && e@
                == "İndirilebilir dosya bulunamadı."@,
        },
{
    if versions.len() > 0 && versions[0].len() > 0 {
        let file = &versions[0][0];
        Ok(PluginFile { url: file.url.clone(), filename: file.filename.clone() })
    } else {
        Err("İndirilebilir dosya bulunamadı.".to_owned())
    }
}

/// The number of a Spigot plugin is read back from what the panel calls it.
pub proof fn law_spigot_slug_read_back(id: u64)
    ensures
        crate::text::strip_prefix("spiget:"@ + decimal(id as nat), "spiget:"@) == Some(
            decimal(id as nat),
        ),
{
    let p = "spiget:"@;
    let slug = p + decimal(id as nat);
    assert(slug.take(p.len() as int) == p);
    assert(slug.skip(p.len() as int) == decimal(id as nat));
}

/// The first line of the registry's answer that speaks of light colours decides: they are dark unless
/// it holds `0x1`. Where no line speaks of it, they are dark. A desktop's colours are dark unless its
/// settings hold `default`.
pub proof fn law_colours(before: Seq<Seq<char>>, line: Seq<char>, after: Seq<Seq<char>>, settings: Seq<char>)
    requires
        forall|i: int|
            0 <= i < before.len() ==> !contains(#[trigger] before[i], "AppsUseLightTheme"@),
    ensures
        registry_dark(before),
        contains(line, "AppsUseLightTheme"@) ==> registry_dark(before + seq![line] + after)
            == !contains(line, "0x1"@),
        dark_said(settings) == !contains(settings, "default"@),
    decreases before.len(),
{
    let all = before + seq![line] + after;
    if before.len() > 0 {
        let rest = before.drop_first();
        assert forall|i: int| 0 <= i < rest.len() implies !contains(
            #[trigger] rest[i],
            "AppsUseLightTheme"@,
        ) by {
            assert(rest[i] == before[i + 1]);
        }
        law_colours(rest, line, after, settings);
        assert(!contains(before[0], "AppsUseLightTheme"@));
        assert(all.first() == before[0]);
        assert(all.drop_first() =~= rest + seq![line] + after);
    } else {
        assert(all.first() == line);
    }
}

/// The language is Turkish exactly if a line that names a locale holds `tr` in lower case.
pub proof fn law_language(lines: Seq<Seq<char>>, i: int)
    ensures
        0 <= i < lines.len() && contains(lines[i], "LocaleName"@) && contains(lowercase(lines[i]), "tr"@)
            ==> registry_turkish(lines),
        (forall|j: int|
            0 <= j < lines.len() ==> !contains(#[trigger] lines[j], "LocaleName"@) || !contains(
                lowercase(lines[j]),
                "tr"@,
            )) ==> !registry_turkish(lines),
{
}

/// Java is had for Windows, Linux and macOS, on three kinds of processors, each under the name that
/// its service has for it, and for nothing else.
pub proof fn law_machines(os: Seq<char>, arch: Seq<char>)
    ensures
        adoptium_os("windows"@) == Some("windows"@),
        adoptium_os("linux"@) == Some("linux"@),
        adoptium_os("macos"@) == Some("mac"@),
        adoptium_arch("x86_64"@) == Some("x64"@),
        adoptium_arch("aarch64"@) == Some("aarch64"@),
        adoptium_arch("x86"@) == Some("x86"@),
        adoptium_os(os) is Some <==> os == "windows"@ || os == "linux"@ || os == "macos"@,
        adoptium_arch(arch) is Some <==> arch == "x86_64"@ || arch == "aarch64"@ || arch == "x86"@,
{
    reveal_strlit("windows");
    reveal_strlit("linux");
    reveal_strlit("macos");
    reveal_strlit("x86_64");
    reveal_strlit("aarch64");
    reveal_strlit("x86");
    assert("windows"@.len() == 7 && "linux"@.len() == 5 && "macos"@.len() == 5);
    assert("linux"@[0] == 'l' && "macos"@[0] == 'm');
    assert("x86_64"@.len() == 6 && "aarch64"@.len() == 7 && "x86"@.len() == 3);
}

/// The places before one hold no Java exactly if none of them does.
pub proof fn law_no_java_before(hits: Seq<Option<String>>, n: int, i: int)
    ensures
        none_before(hits, n) && 0 <= i < n ==> hits[i] is None,
        (forall|j: int| 0 <= j < n ==> (#[trigger] hits[j]) is None) ==> none_before(hits, n),
{
}

} // verus!
