//! The worlds of a server: which there are, which may be touched, what goes into an archive.
use vstd::prelude::*;

use crate::text::{
    cat2, chars_of, contains, has, has_char, is_empty, occurs_at, same, string_of, texts,
};

verus! {

// ---------------------------------------------------------------------------------------------
// Names
// ---------------------------------------------------------------------------------------------
/// Whether `name` stays in its folder: it is not empty, and holds no `..`, no slash or backslash,
/// and no colon.
pub open spec fn is_leaf(name: Seq<char>) -> bool {
    &&& name.len() > 0
    &&& !contains(name, ".."@)
    &&& !name.contains('/')
    &&& !name.contains('\\')
    &&& !name.contains(':')
}

/// Whether `name` stays in its folder.
pub fn is_safe_leaf_name(name: &str) -> (r: bool)
    ensures
        r == is_leaf(name@),
{
    let cs = chars_of(name);
    let climbs = has(name, "..");
    !is_empty(name) && !climbs && !has_char(&cs, '/') && !has_char(&cs, '\\') && !has_char(
        &cs,
        ':',
    )
}

/// The name of the nether that belongs to the world `base`.
pub open spec fn nether_of(base: Seq<char>) -> Seq<char> {
    base + "_nether"@
}

/// The name of the end that belongs to the world `base`.
pub open spec fn end_of(base: Seq<char>) -> Seq<char> {
    base + "_the_end"@
}

/// Whether a folder is a world: it holds `level.dat`, or a folder of regions or of a dimension.
pub fn world_folder_ready(
    is_dir: bool,
    level_dat: bool,
    region: bool,
    nether_dim: bool,
    end_dim: bool,
) -> (r: bool)
    ensures
        r == (is_dir && (level_dat || region || nether_dim || end_dim)),
{
    is_dir && (level_dat || region || nether_dim || end_dim)
}

// ---------------------------------------------------------------------------------------------
// The list of worlds
// ---------------------------------------------------------------------------------------------
/// A world as the panel shows one.
pub struct WorldItem {
    pub name: String,
    pub kind: String,
    pub exists: bool,
}

/// What is shown of a world.
pub struct WorldV {
    pub name: Seq<char>,
    pub kind: Seq<char>,
    pub exists: bool,
}

impl View for WorldItem {
    type V = WorldV;

    open spec fn view(&self) -> WorldV {
        WorldV { name: self.name@, kind: self.kind@, exists: self.exists }
    }
}

/// What is shown of each of `items`.
pub open spec fn shown(items: Seq<WorldItem>) -> Seq<WorldV> {
    Seq::new(items.len(), |i: int| items[i]@)
}

/// A folder of the server, and whether it is a world.
pub struct Folder {
    pub name: String,
    pub ready: bool,
}

/// The name of each of `folders`, and whether it is a world.
pub open spec fn folders_in(folders: Seq<Folder>) -> Seq<(Seq<char>, bool)> {
    Seq::new(folders.len(), |i: int| (folders[i].name@, folders[i].ready))
}

/// The worlds that have a place of their own: the overworld, and the nether and the end where
/// there is one.
pub open spec fn main_worlds(base: Seq<char>, ready: bool, nether: bool, end: bool) -> Seq<WorldV> {
    let first = seq![WorldV { name: base, kind: "Overworld"@, exists: ready }];
    let second = if nether {
        first.push(WorldV { name: nether_of(base), kind: "Nether"@, exists: true })
    } else {
        first
    };
    if end {
        second.push(WorldV { name: end_of(base), kind: "The End"@, exists: true })
    } else {
        second
    }
}

/// Whether one of `worlds` is called `name`.
pub open spec fn has_name(worlds: Seq<WorldV>, name: Seq<char>) -> bool {
    exists|i: int| 0 <= i < worlds.len() && (#[trigger] worlds[i]).name == name
}

/// The other worlds among `folders`.
pub open spec fn other_worlds(folders: Seq<(Seq<char>, bool)>, main: Seq<WorldV>) -> Seq<WorldV>
    decreases folders.len(),
{
    if folders.len() == 0 {
        Seq::empty()
    } else {
        let before = other_worlds(folders.drop_last(), main);
        let (name, ready) = folders.last();
        if ready && name != "backups"@ && !has_name(main, name) {
            before.push(WorldV { name, kind: "Dünya"@, exists: true })
        } else {
            before
        }
    }
}

/// The worlds of a server.
pub open spec fn worlds_in(
    base: Seq<char>,
    ready: bool,
    nether: bool,
    end: bool,
    folders: Seq<(Seq<char>, bool)>,
) -> Seq<WorldV> {
    let main = main_worlds(base, ready, nether, end);
    main + other_worlds(folders, main)
}

/// Whether one of `items` is called `name`.
fn is_listed(items: &Vec<WorldItem>, count: usize, name: &str) -> (r: bool)
    requires
        count <= items@.len(),
    ensures
        r == has_name(shown(items@).take(count as int), name@),
{
    let ghost all = shown(items@).take(count as int);
    for i in 0..count
        invariant
            count <= items@.len(),
            all == shown(items@).take(count as int),
            forall|j: int| 0 <= j < i ==> (#[trigger] all[j]).name != name@,
    {
        assert(all[i as int] == items@[i as int]@);
        if same(items[i].name.as_str(), name) {
            return true;
        }
    }
    false
}

/// The worlds of a server whose world is `base`: whether it, its nether and its end are there,
/// then the other folders that are worlds.
pub fn get_worlds_of(
    base: &str,
    ready: bool,
    nether: bool,
    end: bool,
    folders: &Vec<Folder>,
) -> (r: Vec<WorldItem>)
    ensures
        shown(r@) == worlds_in(base@, ready, nether, end, folders_in(folders@)),
{
    let mut items: Vec<WorldItem> = Vec::new();
    items.push(WorldItem { name: base.to_owned(), kind: "Overworld".to_owned(), exists: ready });
    let ghost first = shown(items@);
    assert(first == main_worlds(base@, ready, false, false));
    if nether {
        items.push(
            WorldItem { name: cat2(base, "_nether"), kind: "Nether".to_owned(), exists: true },
        );
    }
    let ghost second = shown(items@);
    assert(second == main_worlds(base@, ready, nether, false));
    if end {
        items.push(
            WorldItem { name: cat2(base, "_the_end"), kind: "The End".to_owned(), exists: true },
        );
    }
    let count: usize = items.len();
    let ghost main = shown(items@);
    assert(main == main_worlds(base@, ready, nether, end));
    let n: usize = folders.len();
    let ghost all = folders_in(folders@);
    assert(main + other_worlds(all.take(0), main) == main);
    for i in 0..n
        invariant
            n == folders@.len(),
            all == folders_in(folders@),
            count == main.len(),
            count <= items@.len(),
            shown(items@) == main + other_worlds(all.take(i as int), main),
    {
        assert(all.take(i + 1).drop_last() == all.take(i as int));
        assert(all.take(i + 1).last() == all[i as int]);
        assert(shown(items@).take(count as int) == main);
        let f = &folders[i];
        if f.ready && !same(f.name.as_str(), "backups") && !is_listed(
            &items,
            count,
            f.name.as_str(),
        ) {
            let ghost s0 = shown(items@);
            items.push(WorldItem { name: f.name.clone(), kind: "Dünya".to_owned(), exists: true });
            assert(shown(items@) == s0.push(
                WorldV { name: f.name@, kind: "Dünya"@, exists: true },
            ));
        }
    }
    assert(all.take(n as int) == all);
    items
}

/// Whether no two of `worlds` have the same name.
pub open spec fn names_differ(worlds: Seq<WorldV>) -> bool {
    forall|i: int, j: int|
        0 <= i < j < worlds.len() ==> (#[trigger] worlds[i]).name != (#[trigger] worlds[j]).name
}

proof fn lemma_others(folders: Seq<(Seq<char>, bool)>, main: Seq<WorldV>)
    requires
        forall|i: int, j: int|
            0 <= i < j < folders.len() ==> (#[trigger] folders[i]).0 != (#[trigger] folders[j]).0,
    ensures
        names_differ(other_worlds(folders, main)),
        forall|i: int|
            0 <= i < other_worlds(folders, main).len() ==> !has_name(
                main,
                (#[trigger] other_worlds(folders, main)[i]).name,
            ) && exists|k: int|
                0 <= k < folders.len() && (#[trigger] folders[k]).0 == other_worlds(
                    folders,
                    main,
                )[i].name,
    decreases folders.len(),
{
    if folders.len() > 0 {
        let init = folders.drop_last();
        assert forall|i: int, j: int| 0 <= i < j < init.len() implies (#[trigger] init[i]).0 != (
        #[trigger] init[j]).0 by {
            assert(init[i] == folders[i] && init[j] == folders[j]);
        }
        lemma_others(init, main);
        let before = other_worlds(init, main);
        let after = other_worlds(folders, main);
        assert forall|i: int| 0 <= i < after.len() implies !has_name(
            main,
            (#[trigger] after[i]).name,
        ) && exists|k: int| 0 <= k < folders.len() && (#[trigger] folders[k]).0 == after[i].name by {
            if i < before.len() {
                assert(after[i] == before[i]);
                let k = choose|k: int|
                    0 <= k < init.len() && (#[trigger] init[k]).0 == before[i].name;
                assert(folders[k].0 == after[i].name);
            } else {
                assert(folders[folders.len() - 1].0 == after[i].name);
            }
        }
        assert forall|i: int, j: int| 0 <= i < j < after.len() implies (#[trigger] after[i]).name
            != (#[trigger] after[j]).name by {
            assert(after[i] == before[i]);
            if j < before.len() {
                assert(after[j] == before[j]);
            } else {
                let k = choose|k: int|
                    0 <= k < init.len() && (#[trigger] init[k]).0 == before[i].name;
                assert(init[k] == folders[k]);
                assert(folders[folders.len() - 1].0 == after[j].name);
            }
        }
    }
}

/// No world is listed twice, where no two folders have the same name.
pub proof fn law_worlds_are_listed_once(
    base: Seq<char>,
    ready: bool,
    nether: bool,
    end: bool,
    folders: Seq<(Seq<char>, bool)>,
)
    requires
        forall|i: int, j: int|
            0 <= i < j < folders.len() ==> (#[trigger] folders[i]).0 != (#[trigger] folders[j]).0,
    ensures
        names_differ(worlds_in(base, ready, nether, end, folders)),
{
    let main = main_worlds(base, ready, nether, end);
    let other = other_worlds(folders, main);
    lemma_others(folders, main);
    reveal_strlit("_nether");
    reveal_strlit("_the_end");
    assert(nether_of(base).len() == base.len() + 7);
    assert(end_of(base).len() == base.len() + 8);
    let all = main + other;
    assert forall|i: int, j: int| 0 <= i < j < all.len() implies (#[trigger] all[i]).name != (
    #[trigger] all[j]).name by {
        if j < main.len() {
            assert(all[i] == main[i] && all[j] == main[j]);
        } else if i < main.len() {
            assert(all[i] == main[i]);
            assert(all[j] == other[j - main.len()]);
            assert(!has_name(main, other[j - main.len()].name));
        } else {
            assert(all[i] == other[i - main.len()] && all[j] == other[j - main.len()]);
        }
    }
}

// ---------------------------------------------------------------------------------------------
// Changing worlds
// ---------------------------------------------------------------------------------------------
/// Whether the folder of the world `name` is to be deleted; a name that leaves its folder is
/// refused.
pub fn reset_world_of(name: &str, is_dir: bool) -> (r: Result<bool, String>)
    ensures
        match r {
            Ok(delete) => is_leaf(name@) && delete == is_dir,
            Err(e) => !is_leaf(name@) && e@ == "Geçersiz dünya adı."@,
        },
{
    if !is_safe_leaf_name(name) {
        return Err("Geçersiz dünya adı.".to_owned());
    }
    Ok(is_dir)
}

/// The worlds that are reset together with `name`: with the server's own world go its nether
/// and its end.
pub open spec fn reset_together(base: Seq<char>, name: Seq<char>) -> Seq<Seq<char>> {
    if name == base {
        seq![name, nether_of(base), end_of(base)]
    } else {
        seq![name]
    }
}

/// The worlds that are reset together with `name`.
pub fn create_or_reset_world(base: &str, name: &str) -> (r: Result<Vec<String>, String>)
    ensures
        match r {
            Ok(v) => is_leaf(name@) && texts(v@) == reset_together(base@, name@),
            Err(e) => !is_leaf(name@) && e@ == "Geçersiz dünya adı."@,
        },
{
    if !is_safe_leaf_name(name) {
        return Err("Geçersiz dünya adı.".to_owned());
    }
    let mut out: Vec<String> = Vec::new();
    out.push(name.to_owned());
    if same(name, base) {
        out.push(cat2(base, "_nether"));
        out.push(cat2(base, "_the_end"));
    }
    assert(texts(out@) == reset_together(base@, name@));
    Ok(out)
}

/// A name that stays in its folder still does so with an ending of other characters than dots,
/// slashes and colons.
proof fn lemma_leaf_with_ending(base: Seq<char>, ending: Seq<char>)
    requires
        is_leaf(base),
        forall|i: int|
            0 <= i < ending.len() ==> #[trigger] ending[i] != '.' && ending[i] != '/' && ending[i]
                != '\\' && ending[i] != ':',
    ensures
        is_leaf(base + ending),
{
    reveal_strlit("..");
    let s = base + ending;
    let dots = ".."@;
    assert(dots.len() == 2 && dots[0] == '.' && dots[1] == '.');
    assert forall|i: int| !occurs_at(s, dots, i) by {
        if occurs_at(s, dots, i) {
            assert(s.subrange(i, i + 2)[0] == s[i]);
            assert(s.subrange(i, i + 2)[1] == s[i + 1]);
            if i + 2 <= base.len() {
                assert(base.subrange(i, i + 2) == s.subrange(i, i + 2));
                assert(occurs_at(base, dots, i));
            } else {
                assert(s[i + 1] == ending[i + 1 - base.len()]);
            }
        }
    }
    assert forall|c: char| c == '/' || c == '\\' || c == ':' implies !#[trigger] s.contains(c) by {
        if s.contains(c) {
            let i = choose|i: int| 0 <= i < s.len() && s[i] == c;
            if i < base.len() {
                assert(base[i] == c);
                assert(base.contains(c));
            } else {
                assert(ending[i - base.len()] == c);
            }
        }
    }
}

/// Whatever is reset together with a world that stays in the server's folder stays in it too.
pub proof fn law_reset_stays_in_the_folder(base: Seq<char>, name: Seq<char>)
    requires
        is_leaf(name),
    ensures
        forall|i: int|
            0 <= i < reset_together(base, name).len() ==> is_leaf(
                #[trigger] reset_together(base, name)[i],
            ),
{
    reveal_strlit("_nether");
    reveal_strlit("_the_end");
    if name == base {
        lemma_leaf_with_ending(base, "_nether"@);
        lemma_leaf_with_ending(base, "_the_end"@);
    }
}

/// What is to be done once an archive was unpacked into a world's folder.
#[derive(Clone, Copy, Debug, PartialEq, Eq, Structural)]
pub enum ImportStep {
    /// The folder is a world.
    Done,
    /// The one folder in it that is a world takes its place.
    Hoist,
    /// There is no world in it, or more than one.
    Missing,
}

/// What is to be done once an archive was unpacked: `level_dat` says whether the folder itself
/// is a world, `nested` how many folders in it are.
pub fn import_step(level_dat: bool, nested: usize) -> (r: ImportStep)
    ensures
        r == (if level_dat {
            ImportStep::Done
        } else if nested == 1 {
            ImportStep::Hoist
        } else {
            ImportStep::Missing
        }),
{
    if level_dat {
        ImportStep::Done
    } else if nested == 1 {
        ImportStep::Hoist
    } else {
        ImportStep::Missing
    }
}

// ---------------------------------------------------------------------------------------------
// Archives
// ---------------------------------------------------------------------------------------------
/// Whether a file goes into an archive of its world: the lock of a running server does not.
pub fn goes_into_archive(name: &str) -> (r: bool)
    ensures
        r == (name@ != "session.lock"@ && name@ != "session.lock.tmp"@),
{
    !same(name, "session.lock") && !same(name, "session.lock.tmp")
}

/// `path` with slashes for backslashes.
pub open spec fn with_slashes(path: Seq<char>) -> Seq<char> {
    Seq::new(
        path.len(),
        |i: int|
            if path[i] == '\\' {
                '/'
            } else {
                path[i]
            },
    )
}

/// The name that the file at `path` in the world `prefix` has in an archive.
pub fn archive_name(prefix: &str, path: &str) -> (r: String)
    ensures
        r@ == prefix@ + "/"@ + with_slashes(path@),
{
    let cs = chars_of(path);
    let mut out: Vec<char> = Vec::new();
    let n: usize = cs.len();
    for i in 0..n
        invariant
            n == cs@.len(),
            out@ == with_slashes(cs@).take(i as int),
    {
        if cs[i] == '\\' {
            out.push('/');
        } else {
            out.push(cs[i]);
        }
        assert(with_slashes(cs@).take(i + 1) == with_slashes(cs@).take(i as int).push(
            with_slashes(cs@)[i as int],
        ));
    }
    assert(with_slashes(cs@).take(n as int) == with_slashes(cs@));
    let mut name = cat2(prefix, "/");
    name.append(string_of(&out).as_str());
    name
}

/// The name of a file in an archive holds no backslash, where the name of its world holds none.
pub proof fn law_archive_name_has_no_backslash(prefix: Seq<char>, path: Seq<char>)
    requires
        !prefix.contains('\\'),
    ensures
        !(prefix + "/"@ + with_slashes(path)).contains('\\'),
{
    reveal_strlit("/");
    let s = prefix + "/"@ + with_slashes(path);
    if s.contains('\\') {
        let i = choose|i: int| 0 <= i < s.len() && s[i] == '\\';
        if i < prefix.len() {
            assert(prefix[i] == '\\');
        } else if i > prefix.len() {
            assert(s[i] == with_slashes(path)[i - prefix.len() - 1]);
        }
    }
}

/// The name that a folder has in an archive.
pub fn archive_folder(name: &str) -> (r: String)
    ensures
        r@ == name@ + "/"@,
{
    cat2(name, "/")
}

/// A name is safe exactly if it is not empty, no two dots follow each other in it, and none of its
/// characters is a slash, a backslash or a colon.
pub proof fn law_safe_names(name: Seq<char>)
    ensures
        is_leaf(name) <==> name.len() > 0 && (forall|i: int|
            0 <= i < name.len() ==> #[trigger] name[i] != '/' && name[i] != '\\' && name[i] != ':') && (
        forall|i: int| 0 <= i < name.len() - 1 && #[trigger] name[i] == '.' ==> name[i + 1] != '.'),
{
    reveal_strlit("..");
    let dots = ".."@;
    assert(dots.len() == 2 && dots[0] == '.' && dots[1] == '.');
    if is_leaf(name) {
        assert forall|i: int| 0 <= i < name.len() implies #[trigger] name[i] != '/' && name[i] != '\\'
            && name[i] != ':' by {
            assert(name.contains(name[i]));
        }
        assert forall|i: int| 0 <= i < name.len() - 1 && #[trigger] name[i] == '.' implies name[i + 1]
            != '.' by {
            if name[i + 1] == '.' {
                assert(name.subrange(i, i + 2) =~= dots);
                assert(occurs_at(name, dots, i));
            }
        }
    }
    if name.len() > 0 && (forall|i: int|
        0 <= i < name.len() ==> #[trigger] name[i] != '/' && name[i] != '\\' && name[i] != ':') && (
    forall|i: int| 0 <= i < name.len() - 1 && #[trigger] name[i] == '.' ==> name[i + 1] != '.') {
        if contains(name, dots) {
            let i = choose|i: int| occurs_at(name, dots, i);
            assert(name.subrange(i, i + 2)[0] == name[i]);
            assert(name.subrange(i, i + 2)[1] == name[i + 1]);
        }
    }
}

/// The list begins with the server's own world; its nether and its end follow where they are there.
/// After them come the other folders that are worlds, all of them, in their order, but for the one
/// that holds the backups and those that are listed already.
pub proof fn law_worlds_are_all_listed(
    base: Seq<char>,
    ready: bool,
    nether: bool,
    end: bool,
    folders: Seq<(Seq<char>, bool)>,
)
    ensures
        ({
            let all = worlds_in(base, ready, nether, end, folders);
            let n: int = 1 + (if nether {
                1int
            } else {
                0
            }) + (if end {
                1int
            } else {
                0
            });
            let others = folders.filter(
                |f: (Seq<char>, bool)|
                    f.1 && f.0 != "backups"@ && f.0 != base && !(nether && f.0 == base + "_nether"@)
                        && !(end && f.0 == base + "_the_end"@),
            );
            &&& all.len() == n + others.len()
            &&& all[0] == (WorldV { name: base, kind: "Overworld"@, exists: ready })
            &&& nether ==> all[1] == (WorldV {
                name: base + "_nether"@,
                kind: "Nether"@,
                exists: true,
            })
            &&& end ==> all[n - 1] == (WorldV {
                name: base + "_the_end"@,
                kind: "The End"@,
                exists: true,
            })
            &&& forall|i: int|
                0 <= i < others.len() ==> all[n + i] == (WorldV {
                    name: (#[trigger] others[i]).0,
                    kind: "Dünya"@,
                    exists: true,
                })
        }),
{
    let main = main_worlds(base, ready, nether, end);
    let fit = |f: (Seq<char>, bool)|
        f.1 && f.0 != "backups"@ && f.0 != base && !(nether && f.0 == base + "_nether"@) && !(end
            && f.0 == base + "_the_end"@);
    assert forall|name: Seq<char>| #[trigger] has_name(main, name) <==> name == base || (nether && name
        == base + "_nether"@) || (end && name == base + "_the_end"@) by {
        assert(main[0].name == base);
        if nether {
            assert(main[1].name == base + "_nether"@);
        }
        if end {
            assert(main[main.len() - 1].name == base + "_the_end"@);
        }
    }
    lemma_others_filter(folders, main, fit);
}

proof fn lemma_others_filter(
    folders: Seq<(Seq<char>, bool)>,
    main: Seq<WorldV>,
    fit: spec_fn((Seq<char>, bool)) -> bool,
)
    requires
        forall|f: (Seq<char>, bool)| #[trigger]
            fit(f) <==> f.1 && f.0 != "backups"@ && !has_name(main, f.0),
    ensures
        other_worlds(folders, main).len() == folders.filter(fit).len(),
        forall|i: int|
            0 <= i < folders.filter(fit).len() ==> other_worlds(folders, main)[i] == (WorldV {
                name: (#[trigger] folders.filter(fit)[i]).0,
                kind: "Dünya"@,
                exists: true,
            }),
    decreases folders.len(),
{
    reveal(Seq::filter);
    if folders.len() > 0 {
        lemma_others_filter(folders.drop_last(), main, fit);
        assert(fit(folders.last()) <==> folders.last().1 && folders.last().0 != "backups"@
            && !has_name(main, folders.last().0));
    }
}

/// With the server's own world its nether and its end are reset; any other world is reset alone.
pub proof fn law_what_is_reset(base: Seq<char>, name: Seq<char>)
    ensures
        name == base ==> reset_together(base, name) == seq![base, base + "_nether"@, base
            + "_the_end"@],
        name != base ==> reset_together(base, name) == seq![name],
{
}

/// In an archive slashes stand for backslashes, and every other character of a path stays.
pub proof fn law_slashes(path: Seq<char>, i: int)
    requires
        0 <= i < path.len(),
    ensures
        with_slashes(path).len() == path.len(),
        path[i] == '\\' ==> with_slashes(path)[i] == '/',
        path[i] != '\\' ==> with_slashes(path)[i] == path[i],
{
}

/// Folders and worlds are seen one by one.
pub proof fn law_rows_of_worlds(folders: Seq<Folder>, items: Seq<WorldItem>)
    ensures
        folders_in(folders).len() == folders.len(),
        forall|i: int|
            0 <= i < folders.len() ==> #[trigger] folders_in(folders)[i] == (
                folders[i].name@,
                folders[i].ready,
            ),
        shown(items).len() == items.len(),
        forall|i: int|
            0 <= i < items.len() ==> {
                let w = #[trigger] shown(items)[i];
                w.name == items[i].name@ && w.kind == items[i].kind@ && w.exists == items[i].exists
            },
{
}

} // verus!
