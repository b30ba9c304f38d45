//! The file `server.properties`: reading it, changing it, writing it.
use vstd::prelude::*;

use crate::tables::{as_map, distinct, lemma_as_map, lemma_as_map_update};
use crate::text::{
    chars_of, chomp, divided, index, is_empty, is_white, lemma_index_from, lemma_lines_push,
    lines, lines_of, pieces, same, split_once, string_of, texts, trim, trim_end, trim_start,
    trimmed,
};

verus! {

/// Settings: a value for each of some keys.
pub struct Properties {
    pub keys: Vec<String>,
    pub values: Vec<String>,
}

impl View for Properties {
    type V = Map<Seq<char>, Seq<char>>;

    open spec fn view(&self) -> Map<Seq<char>, Seq<char>> {
        as_map(texts(self.keys@), texts(self.values@))
    }
}

impl Properties {
    /// Each key has one value.
    pub open spec fn wf(&self) -> bool {
        &&& self.keys@.len() == self.values@.len()
        &&& distinct(texts(self.keys@))
    }

    /// No settings at all.
    pub fn new() -> (r: Properties)
        ensures
            r.wf(),
            r@ == Map::<Seq<char>, Seq<char>>::empty(),
    {
        let r = Properties { keys: Vec::new(), values: Vec::new() };
        assert(texts(r.keys@) == Seq::<Seq<char>>::empty());
        r
    }

    /// The place of a key.
    fn place(&self, key: &str) -> (r: Option<usize>)
        requires
            self.wf(),
        ensures
            match r {
                Some(i) => i < self.keys@.len() && self.keys@[i as int]@ == key@,
                None => !texts(self.keys@).contains(key@),
            },
    {
        let n: usize = self.keys.len();
        for i in 0..n
            invariant
                n == self.keys@.len(),
                forall|j: int| 0 <= j < i ==> #[trigger] texts(self.keys@)[j] != key@,
        {
            if same(self.keys[i].as_str(), key) {
                return Some(i);
            }
            assert(texts(self.keys@)[i as int] != key@);
        }
        None
    }

    /// The value of a key.
    pub fn get(&self, key: &str) -> (r: Option<&String>)
        requires
            self.wf(),
        ensures
            match r {
                Some(v) => self@.contains_key(key@) && self@[key@] == v@,
                None => !self@.contains_key(key@),
            },
    {
        let place = self.place(key);
        proof {
            lemma_as_map(texts(self.keys@), texts(self.values@));
        }
        match place {
            Some(i) => {
                assert(texts(self.keys@)[i as int] == key@);
                Some(&self.values[i])
            },
            None => None,
        }
    }

    /// Sets the value of a key.
    pub fn set(&mut self, key: &str, value: &str)
        requires
            old(self).wf(),
        ensures
            final(self).wf(),
            final(self)@ == old(self)@.insert(key@, value@),
    {
        let ghost k0 = texts(self.keys@);
        let ghost v0 = texts(self.values@);
        match self.place(key) {
            Some(i) => {
                self.values.set(i, value.to_owned());
                proof {
                    assert(texts(self.values@) == v0.update(i as int, value@));
                    assert(k0[i as int] == key@);
                    lemma_as_map_update(k0, v0, i as int, value@);
                }
            },
            None => {
                self.keys.push(key.to_owned());
                self.values.push(value.to_owned());
                proof {
                    assert(texts(self.keys@) == k0.push(key@));
                    assert(texts(self.values@) == v0.push(value@));
                    assert(k0.push(key@).drop_last() == k0);
                    assert(v0.push(value@).drop_last() == v0);
                    assert forall|i: int, j: int| 0 <= i < j < k0.push(key@).len() implies k0.push(
                        key@,
                    )[i] != k0.push(key@)[j] by {
                        if j == k0.len() {
                            assert(k0.contains(k0[i]));
                        }
                    }
                }
            },
        }
    }

    /// Sets every key of `updates` to its value there.
    pub fn merge(&mut self, updates: &Properties)
        requires
            old(self).wf(),
            updates.wf(),
        ensures
            final(self).wf(),
            final(self)@ == old(self)@.union_prefer_right(updates@),
    {
        let n: usize = updates.keys.len();
        let ghost m0 = self@;
        let ghost ks = texts(updates.keys@);
        let ghost vs = texts(updates.values@);
        assert(as_map(ks.take(0), vs.take(0)) == Map::<Seq<char>, Seq<char>>::empty());
        assert(m0.union_prefer_right(Map::<Seq<char>, Seq<char>>::empty()) == m0);
        for i in 0..n
            invariant
                n == updates.keys@.len(),
                updates.wf(),
                self.wf(),
                ks == texts(updates.keys@),
                vs == texts(updates.values@),
                self@ == m0.union_prefer_right(as_map(ks.take(i as int), vs.take(i as int))),
        {
            let ghost before = as_map(ks.take(i as int), vs.take(i as int));
            assert(ks.take(i + 1).drop_last() == ks.take(i as int));
            assert(vs.take(i + 1).drop_last() == vs.take(i as int));
            self.set(updates.keys[i].as_str(), updates.values[i].as_str());
            assert(m0.union_prefer_right(before.insert(ks[i as int], vs[i as int]))
                == m0.union_prefer_right(before).insert(ks[i as int], vs[i as int]));
        }
        assert(ks.take(n as int) == ks);
        assert(vs.take(n as int) == vs);
    }
}

// ---------------------------------------------------------------------------------------------
// Reading the file
// ---------------------------------------------------------------------------------------------
/// The key and the value that a line of the file gives. Empty lines, and lines that begin with
/// `#` or hold no `=`, give none.
pub open spec fn entry_of(line: Seq<char>) -> Option<(Seq<char>, Seq<char>)> {
    let t = trim(line);
    if t.len() == 0 || t.first() == '#' {
        None
    } else {
        match split_once(t, '=') {
            Some((k, v)) => Some((trim(k), trim(v))),
            None => None,
        }
    }
}

/// What `lines` of the file set; of two values for one key the later one counts.
pub open spec fn entries(lines: Seq<Seq<char>>) -> Map<Seq<char>, Seq<char>>
    decreases lines.len(),
{
    if lines.len() == 0 {
        Map::empty()
    } else {
        match entry_of(lines.last()) {
            Some((k, v)) => entries(lines.drop_last()).insert(k, v),
            None => entries(lines.drop_last()),
        }
    }
}

/// What the text of the file sets.
pub open spec fn properties_in(text: Seq<char>) -> Map<Seq<char>, Seq<char>> {
    entries(lines(text))
}

/// The key and the value that a line gives.
fn entry(line: &[char]) -> (r: Option<(String, String)>)
    ensures
        match r {
            Some((k, v)) => entry_of(line@) == Some((k@, v@)),
            None => entry_of(line@) is None,
        },
{
    let t = trimmed(line);
    if t.len() == 0 || t[0] == '#' {
        return None;
    }
    match divided(t, '=') {
        Some((k, v)) => Some((string_of(trimmed(k)), string_of(trimmed(v)))),
        None => None,
    }
}

/// Whether keys and values can be written to the file and read back: no line feed in them, no
/// white space at their ends, and no `=` in a key nor `#` at its start.
pub open spec fn clean(key: Seq<char>, value: Seq<char>) -> bool {
    &&& trim(key) == key
    &&& trim(value) == value
    &&& !key.contains('\n')
    &&& !value.contains('\n')
    &&& !key.contains('=')
    &&& (key.len() > 0 ==> key.first() != '#')
}

/// Whether every key and value can be written and read back.
pub open spec fn all_clean(m: Map<Seq<char>, Seq<char>>) -> bool {
    forall|k: Seq<char>| #[trigger] m.contains_key(k) ==> clean(k, m[k])
}

/// Reads the text of the file.
pub fn read_properties(text: &str) -> (r: Properties)
    ensures
        r.wf(),
        r@ == properties_in(text@),
{
    let cs = chars_of(text);
    let all = lines_of(&cs);
    let mut out = Properties::new();
    let n: usize = all.len();
    let ghost ls = pieces(all@);
    for i in 0..n
        invariant
            n == all@.len(),
            ls == pieces(all@),
            out.wf(),
            out@ == entries(ls.take(i as int)),
    {
        assert(ls.take(i + 1).drop_last() == ls.take(i as int));
        assert(ls.take(i + 1).last() == all@[i as int]@);
        if let Some((k, v)) = entry(&all[i]) {
            out.set(k.as_str(), v.as_str());
        }
    }
    assert(ls.take(n as int) == ls);
    out
}

// ---------------------------------------------------------------------------------------------
// Writing the file
// ---------------------------------------------------------------------------------------------
/// A line for each key and its value.
pub open spec fn written(keys: Seq<Seq<char>>, values: Seq<Seq<char>>) -> Seq<char>
    decreases keys.len(),
{
    if keys.len() == 0 {
        "# Minecraft Server Properties - Managed by PanelMC\n"@
    } else {
        written(keys.drop_last(), values.drop_last()) + keys.last() + "="@ + values.last() + "\n"@
    }
}

/// The text of the file: a heading, then a line for each key and its value.
pub fn write_properties(p: &Properties) -> (r: String)
    requires
        p.wf(),
    ensures
        r@ == written(texts(p.keys@), texts(p.values@)),
{
    let mut out = "# Minecraft Server Properties - Managed by PanelMC\n".to_owned();
    let n: usize = p.keys.len();
    let ghost ks = texts(p.keys@);
    let ghost vs = texts(p.values@);
    for i in 0..n
        invariant
            n == p.keys@.len(),
            n == p.values@.len(),
            ks == texts(p.keys@),
            vs == texts(p.values@),
            out@ == written(ks.take(i as int), vs.take(i as int)),
    {
        assert(ks.take(i + 1).drop_last() == ks.take(i as int));
        assert(vs.take(i + 1).drop_last() == vs.take(i as int));
        out.append(p.keys[i].as_str());
        out.append("=");
        out.append(p.values[i].as_str());
        out.append("\n");
    }
    assert(ks.take(n as int) == ks);
    assert(vs.take(n as int) == vs);
    out
}

/// The text of the file once `updates` are set in what `text`, where there is one, holds.
pub fn save_server_properties(text: &Option<String>, updates: &Properties) -> (r: (String, Properties))
    requires
        updates.wf(),
    ensures
        r.1.wf(),
        r.0@ == written(texts(r.1.keys@), texts(r.1.values@)),
        r.1@ == (match *text {
            Some(t) => properties_in(t@),
            None => Map::empty(),
        }).union_prefer_right(updates@),
{
    let mut p = match text {
        Some(t) => read_properties(t.as_str()),
        None => Properties::new(),
    };
    p.merge(updates);
    let out = write_properties(&p);
    (out, p)
}

/// The name of the server's world.
pub fn level_name_of(p: &Properties) -> (r: String)
    requires
        p.wf(),
    ensures
        r@ == level_name(p@),
{
    match p.get("level-name") {
        Some(v) => if is_empty(v.as_str()) {
            "world".to_owned()
        } else {
            v.clone()
        },
        None => "world".to_owned(),
    }
}

/// The name of the server's world, where the settings give none `world`.
pub open spec fn level_name(m: Map<Seq<char>, Seq<char>>) -> Seq<char> {
    if m.contains_key("level-name"@) && m["level-name"@].len() > 0 {
        m["level-name"@]
    } else {
        "world"@
    }
}

// ---------------------------------------------------------------------------------------------
// Reading what was written
// ---------------------------------------------------------------------------------------------
/// Text whose ends are not white space is its own trimmed form.
proof fn lemma_trim_fixed(s: Seq<char>)
    requires
        s.len() > 0 ==> !is_white(s.first()) && !is_white(s.last()),
    ensures
        trim(s) == s,
{
}

/// Trimming takes white space off both ends, and nothing else.
proof fn lemma_trim_start(s: Seq<char>)
    ensures
        trim_start(s).len() <= s.len(),
        trim_start(s) == s.skip(s.len() - trim_start(s).len()),
        trim_start(s).len() > 0 ==> !is_white(trim_start(s).first()),
    decreases s.len(),
{
    if s.len() > 0 && is_white(s.first()) {
        lemma_trim_start(s.drop_first());
        let t = trim_start(s);
        assert(s.drop_first().skip(s.drop_first().len() - t.len()) == s.skip(s.len() - t.len()));
    } else {
        assert(s.skip(0) == s);
    }
}

proof fn lemma_trim_end(s: Seq<char>)
    ensures
        trim_end(s).len() <= s.len(),
        trim_end(s) == s.take(trim_end(s).len() as int),
        trim_end(s).len() > 0 ==> !is_white(trim_end(s).last()),
    decreases s.len(),
{
    if s.len() > 0 && is_white(s.last()) {
        lemma_trim_end(s.drop_last());
        let t = trim_end(s);
        assert(s.drop_last().take(t.len() as int) == s.take(t.len() as int));
    } else {
        assert(s.take(s.len() as int) == s);
    }
}

/// What is left after trimming is a part of the text, with no white space at its ends.
proof fn lemma_trim(s: Seq<char>)
    ensures
        exists|a: int, b: int| 0 <= a <= b <= s.len() && trim(s) == #[trigger] s.subrange(a, b),
        trim(s).len() > 0 ==> !is_white(trim(s).first()) && !is_white(trim(s).last()),
        trim(trim(s)) == trim(s),
        s.len() > 0 && !is_white(s.first()) ==> trim(s).len() > 0 && trim(s).first() == s.first(),
{
    let t = trim_start(s);
    let u = trim_end(t);
    lemma_trim_start(s);
    lemma_trim_end(t);
    let a = s.len() - t.len();
    let b = a + u.len();
    assert(s.subrange(a, b) == u);
    if u.len() > 0 {
        assert(u.first() == t.first());
    }
    lemma_trim_fixed(u);
    if s.len() > 0 && !is_white(s.first()) {
        assert(t == s);
        if u.len() == 0 {
            lemma_all_white(t);
        }
    }
}

/// Text that is its own trimmed form has no white space at its ends.
proof fn lemma_trim_ends(s: Seq<char>)
    requires
        trim(s) == s,
    ensures
        s.len() > 0 ==> !is_white(s.first()) && !is_white(s.last()),
{
    lemma_trim(s);
}

/// Text that trimming leaves nothing of is all white space.
proof fn lemma_all_white(s: Seq<char>)
    requires
        trim_end(s).len() == 0,
        s.len() > 0,
    ensures
        is_white(s.first()),
    decreases s.len(),
{
    if s.len() > 1 {
        lemma_all_white(s.drop_last());
        assert(s.drop_last().first() == s.first());
    }
}

/// Every key and value that is read from a file can be written and read back.
proof fn lemma_entry_clean(line: Seq<char>)
    requires
        !line.contains('\n'),
    ensures
        match entry_of(line) {
            Some((k, v)) => clean(k, v),
            None => true,
        },
{
    let t = trim(line);
    lemma_trim(line);
    if let Some((k, v)) = entry_of(line) {
        let (a, b) = choose|a: int, b: int|
            0 <= a <= b <= line.len() && t == #[trigger] line.subrange(a, b);
        assert forall|i: int| 0 <= i < t.len() implies t[i] != '\n' by {
            assert(line.contains(line[a + i]));
        }
        lemma_index_from(t, '=', 0);
        let e = index(t, '=')->0;
        let kk = t.take(e);
        let vv = t.skip(e + 1);
        lemma_trim(kk);
        lemma_trim(vv);
        let (ka, kb) = choose|a: int, b: int|
            0 <= a <= b <= kk.len() && trim(kk) == #[trigger] kk.subrange(a, b);
        let (va, vb) = choose|a: int, b: int|
            0 <= a <= b <= vv.len() && trim(vv) == #[trigger] vv.subrange(a, b);
        assert forall|i: int| 0 <= i < k.len() implies k[i] != '\n' && k[i] != '=' by {
            assert(k[i] == t[ka + i]);
        }
        assert forall|i: int| 0 <= i < v.len() implies v[i] != '\n' by {
            assert(v[i] == t[e + 1 + va + i]);
        }
        if kk.len() > 0 {
            assert(kk.first() == t.first());
        }
    }
}

/// No line holds a line feed.
proof fn lemma_no_feed_in_lines(s: Seq<char>, i: int)
    requires
        0 <= i < lines(s).len(),
    ensures
        !lines(s)[i].contains('\n'),
{
    let seps = seq!['\n'];
    let parts = crate::text::split(s, seps);
    lemma_no_sep_in_pieces(s, seps);
    crate::text::lemma_split_nonempty(s, seps);
    assert(seps[0] == '\n');
    let p = parts[i];
    assert(forall|j: int| 0 <= j < p.len() ==> !seps.contains(#[trigger] p[j]));
    let l = lines(s)[i];
    assert forall|j: int| 0 <= j < l.len() implies l[j] != '\n' by {
        assert(l[j] == p[j]);
        assert(!seps.contains(p[j]));
    }
}

/// No piece holds a separator.
proof fn lemma_no_sep_in_pieces(s: Seq<char>, seps: Seq<char>)
    ensures
        forall|i: int, j: int|
            0 <= i < crate::text::split(s, seps).len() && 0 <= j < crate::text::split(
                s,
                seps,
            )[i].len() ==> !seps.contains(#[trigger] crate::text::split(s, seps)[i][j]),
    decreases s.len(),
{
    if s.len() > 0 {
        lemma_no_sep_in_pieces(s.drop_last(), seps);
        crate::text::lemma_split_nonempty(s.drop_last(), seps);
        let before = crate::text::split(s.drop_last(), seps);
        let after = crate::text::split(s, seps);
        assert forall|i: int, j: int|
            0 <= i < after.len() && 0 <= j < after[i].len() implies !seps.contains(
            #[trigger] after[i][j],
        ) by {
            if i < before.len() - 1 {
                assert(after[i] == before[i]);
                assert(!seps.contains(before[i][j]));
            } else if i == before.len() - 1 {
                if j < before[i].len() {
                    assert(after[i][j] == before[i][j]);
                    assert(!seps.contains(before[i][j]));
                }
            }
        }
    }
}

/// Everything that is read from lines can be written and read back.
proof fn lemma_entries_clean(all: Seq<Seq<char>>)
    requires
        forall|i: int| 0 <= i < all.len() ==> !(#[trigger] all[i]).contains('\n'),
    ensures
        all_clean(entries(all)),
    decreases all.len(),
{
    if all.len() > 0 {
        let init = all.drop_last();
        assert forall|i: int| 0 <= i < init.len() implies !(#[trigger] init[i]).contains('\n') by {
            assert(init[i] == all[i]);
        }
        lemma_entries_clean(init);
        assert(all[all.len() - 1] == all.last());
        lemma_entry_clean(all.last());
    }
}

/// A clean key and value are what their line gives.
proof fn lemma_entry_of_line(k: Seq<char>, v: Seq<char>)
    requires
        clean(k, v),
    ensures
        entry_of(chomp(k + seq!['='] + v)) == Some((k, v)),
        !(k + seq!['='] + v).contains('\n'),
{
    let line = k + seq!['='] + v;
    lemma_trim_ends(k);
    lemma_trim_ends(v);
    assert(line[k.len() as int] == '=');
    if k.len() > 0 {
        assert(line.first() == k.first());
    } else {
        assert(line.first() == '=');
    }
    if v.len() > 0 {
        assert(line.last() == v.last());
    } else {
        assert(line.last() == '=');
    }
    lemma_trim_fixed(line);
    assert(chomp(line) == line);
    lemma_index_from(line, '=', 0);
    assert forall|j: int| 0 <= j < k.len() implies line[j] != '=' by {
        assert(line[j] == k[j]);
        assert(k.contains(k[j]));
    }
    assert(index(line, '=') == Some(k.len() as int));
    assert(line.take(k.len() as int) == k);
    assert(line.skip(k.len() as int + 1) == v);
    assert(split_once(line, '=') == Some((k, v)));
    assert forall|j: int| 0 <= j < line.len() implies line[j] != '\n' by {
        if j < k.len() {
            assert(k.contains(k[j]));
        } else if j > k.len() {
            assert(line[j] == v[j - k.len() - 1]);
            assert(v.contains(v[j - k.len() - 1]));
        }
    }
}

/// What was written ends in a line feed.
proof fn lemma_written_ends(keys: Seq<Seq<char>>, values: Seq<Seq<char>>)
    ensures
        written(keys, values).len() > 0,
        written(keys, values).last() == '\n',
{
    reveal_strlit("# Minecraft Server Properties - Managed by PanelMC\n");
    reveal_strlit("\n");
}

/// Settings that can be written are read back from the file as they were.
pub proof fn law_written_is_read_back(keys: Seq<Seq<char>>, values: Seq<Seq<char>>)
    requires
        keys.len() == values.len(),
        forall|i: int| 0 <= i < keys.len() ==> clean(#[trigger] keys[i], values[i]),
    ensures
        properties_in(written(keys, values)) == as_map(keys, values),
    decreases keys.len(),
{
    reveal_strlit("\n");
    reveal_strlit("=");
    if keys.len() == 0 {
        lemma_heading();
    } else {
        let ki = keys.drop_last();
        let vi = values.drop_last();
        assert forall|i: int| 0 <= i < ki.len() implies clean(#[trigger] ki[i], vi[i]) by {
            assert(ki[i] == keys[i]);
        }
        law_written_is_read_back(ki, vi);
        let k = keys.last();
        let v = values.last();
        assert(clean(keys[keys.len() - 1], values[keys.len() - 1]));
        lemma_entry_of_line(k, v);
        lemma_written_ends(ki, vi);
        let line = k + seq!['='] + v;
        let before = written(ki, vi);
        lemma_lines_push(before, line);
        assert(written(keys, values) == before + line.push('\n'));
        assert(lines(before).push(chomp(line)).drop_last() == lines(before));
    }
}

/// The heading sets nothing.
proof fn lemma_heading()
    ensures
        properties_in("# Minecraft Server Properties - Managed by PanelMC\n"@) == Map::<
            Seq<char>,
            Seq<char>,
        >::empty(),
{
    reveal_strlit("# Minecraft Server Properties - Managed by PanelMC\n");
    let text = "# Minecraft Server Properties - Managed by PanelMC\n"@;
    let line = text.drop_last();
    let none = Seq::<char>::empty();
    assert forall|j: int| 0 <= j < line.len() implies line[j] != '\n' by {}
    lemma_lines_push(none, line);
    assert(none + line.push('\n') == text);
    assert(crate::text::split(none, seq!['\n']) == seq![none]);
    assert(lines(none) == Seq::<Seq<char>>::empty());
    assert(lines(text) == seq![chomp(line)]);
    assert(chomp(line) == line);
    assert(line.first() == '#');
    lemma_trim_fixed(line);
    assert(entry_of(line) is None);
    assert(seq![line].drop_last() == Seq::<Seq<char>>::empty());
    assert(seq![line].last() == line);
    assert(entries(seq![line].drop_last()) == Map::<Seq<char>, Seq<char>>::empty());
}

/// What a file holds once `updates` were saved to it: all that it held and that was not updated,
/// whatever that was, and the updates, where they can be written.
pub proof fn law_saved_is_read_back(
    text: Seq<char>,
    updates: Map<Seq<char>, Seq<char>>,
    keys: Seq<Seq<char>>,
    values: Seq<Seq<char>>,
)
    requires
        all_clean(updates),
        keys.len() == values.len(),
        distinct(keys),
        as_map(keys, values) == properties_in(text).union_prefer_right(updates),
    ensures
        properties_in(written(keys, values)) == properties_in(text).union_prefer_right(updates),
{
    let all = lines(text);
    assert forall|i: int| 0 <= i < all.len() implies !(#[trigger] all[i]).contains('\n') by {
        lemma_no_feed_in_lines(text, i);
    }
    lemma_entries_clean(all);
    lemma_as_map(keys, values);
    assert forall|i: int| 0 <= i < keys.len() implies clean(#[trigger] keys[i], values[i]) by {
        assert(keys.contains(keys[i]));
        assert(as_map(keys, values).contains_key(keys[i]));
        if updates.contains_key(keys[i]) {
            assert(values[i] == updates[keys[i]]);
        } else {
            assert(properties_in(text).contains_key(keys[i]));
        }
    }
    law_written_is_read_back(keys, values);
}

/// Whatever a file holds, writing what was read from it loses nothing: the keys and values that
/// were read are read again.
pub proof fn law_saving_keeps_what_was_read(text: Seq<char>, keys: Seq<Seq<char>>, values: Seq<Seq<char>>)
    requires
        keys.len() == values.len(),
        distinct(keys),
        as_map(keys, values) == properties_in(text),
    ensures
        properties_in(written(keys, values)) == properties_in(text),
{
    let none = Map::<Seq<char>, Seq<char>>::empty();
    assert(properties_in(text).union_prefer_right(none) == properties_in(text));
    law_saved_is_read_back(text, none, keys, values);
}

/// A line sets a key where a key and a value stand around its first `=`, with or without white space
/// around either.
pub proof fn law_a_line_sets(
    a: Seq<char>,
    k: Seq<char>,
    b: Seq<char>,
    c: Seq<char>,
    v: Seq<char>,
    d: Seq<char>,
)
    requires
        forall|i: int| 0 <= i < a.len() ==> is_white(#[trigger] a[i]),
        forall|i: int| 0 <= i < b.len() ==> is_white(#[trigger] b[i]),
        forall|i: int| 0 <= i < c.len() ==> is_white(#[trigger] c[i]),
        forall|i: int| 0 <= i < d.len() ==> is_white(#[trigger] d[i]),
        k.len() > 0,
        !is_white(k.first()),
        !is_white(k.last()),
        k.first() != '#',
        !k.contains('='),
        v.len() > 0,
        !is_white(v.first()),
        !is_white(v.last()),
    ensures
        entry_of(a + k + b + seq!['='] + c + v + d) == Some((k, v)),
        entry_of(a + k + b + seq!['=']) == Some((k, Seq::<char>::empty())),
{
    let none = Seq::<char>::empty();
    let t = k + b + seq!['='] + c + v;
    assert(t.first() == k.first());
    assert(t.last() == v.last());
    crate::text::law_trim(a, t, d);
    assert(a + k + b + seq!['='] + c + v + d == a + t + d);
    let kb = k + b;
    assert forall|i: int| 0 <= i < kb.len() implies kb[i] != '=' by {
        if i < k.len() {
            assert(k.contains(k[i]));
        } else {
            assert(kb[i] == b[i - k.len()]);
            assert(is_white(b[i - k.len()]));
        }
    }
    crate::text::law_divided(kb, '=', c + v);
    assert(kb + seq!['='] + (c + v) == t);
    crate::text::law_trim(none, k, b);
    assert(none + k + b == kb);
    crate::text::law_trim(c, v, none);
    assert(c + v + none == c + v);
    let u = k + b + seq!['='];
    assert(u.first() == k.first() && u.last() == '=');
    crate::text::law_trim(a, u, none);
    assert(a + k + b + seq!['='] == a + u + none);
    crate::text::law_divided(kb, '=', none);
    assert(kb + seq!['='] + none == u);
    crate::text::law_trim(none, none, none);
    assert(none + none + none == none);
}

/// A blank line sets nothing, nor does one that begins with `#`, after white space or not, nor one
/// without `=`.
pub proof fn law_a_line_sets_nothing(a: Seq<char>, rest: Seq<char>, line: Seq<char>)
    requires
        forall|i: int| 0 <= i < a.len() ==> is_white(#[trigger] a[i]),
        rest.len() > 0 ==> !is_white(rest.last()),
    ensures
        entry_of(a) is None,
        entry_of(a + seq!['#'] + rest) is None,
        !line.contains('=') ==> entry_of(line) is None,
{
    let none = Seq::<char>::empty();
    crate::text::law_trim(a, none, none);
    assert(a + none + none == a);
    let t = seq!['#'] + rest;
    assert(t.first() == '#');
    if rest.len() > 0 {
        assert(t.last() == rest.last());
    } else {
        assert(t.last() == '#');
    }
    crate::text::law_trim(a, t, none);
    assert(a + seq!['#'] + rest == a + t + none);
    if !line.contains('=') {
        lemma_trim(line);
        let s = trim(line);
        let (x, y) = choose|x: int, y: int|
            0 <= x <= y <= line.len() && s == #[trigger] line.subrange(x, y);
        assert forall|i: int| 0 <= i < s.len() implies s[i] != '=' by {
            assert(line.contains(line[x + i]));
        }
        crate::text::law_divided(s, '=', none);
    }
}

/// What is set is the value of the last line that sets a key; lines that set nothing do not matter.
pub proof fn law_last_line_counts(before: Seq<Seq<char>>, line: Seq<char>)
    ensures
        entries(Seq::empty()) == Map::<Seq<char>, Seq<char>>::empty(),
        match entry_of(line) {
            Some((k, v)) => entries(before.push(line)) == entries(before).insert(k, v),
            None => entries(before.push(line)) == entries(before),
        },
{
    assert(before.push(line).drop_last() == before);
}

/// A file is written as a heading, and then, for each key in turn, the key, `=`, the value and a line
/// feed.
pub proof fn law_how_a_file_is_written(
    keys: Seq<Seq<char>>,
    values: Seq<Seq<char>>,
    k: Seq<char>,
    v: Seq<char>,
)
    ensures
        written(Seq::empty(), Seq::empty()) == "# Minecraft Server Properties - Managed by PanelMC\n"@,
        written(keys.push(k), values.push(v)) == written(keys, values) + k + seq!['='] + v + seq!['\n'],
{
    reveal_strlit("=");
    reveal_strlit("\n");
    assert("="@ =~= seq!['=']);
    assert("\n"@ =~= seq!['\n']);
    assert(keys.push(k).drop_last() == keys);
    assert(values.push(v).drop_last() == values);
}

/// What can be written and read back: keys and values without white space at their ends and without
/// line feeds, and keys without `=`, that do not begin with `#`.
pub proof fn law_what_can_be_written(k: Seq<char>, v: Seq<char>)
    ensures
        (k.len() > 0 ==> !is_white(k.first()) && !is_white(k.last()) && k.first() != '#') && (v.len() > 0
            ==> !is_white(v.first()) && !is_white(v.last())) && (forall|i: int|
            0 <= i < k.len() ==> #[trigger] k[i] != '\n' && k[i] != '=') && (forall|i: int|
            0 <= i < v.len() ==> #[trigger] v[i] != '\n') ==> clean(k, v),
{
    if k.len() > 0 ==> !is_white(k.first()) && !is_white(k.last()) {
        lemma_trim_fixed(k);
    }
    if v.len() > 0 ==> !is_white(v.first()) && !is_white(v.last()) {
        lemma_trim_fixed(v);
    }
}

/// The world is the one that the settings name; where they name none, it is called `world`.
pub proof fn law_name_of_the_world(m: Map<Seq<char>, Seq<char>>)
    ensures
        m.contains_key("level-name"@) && m["level-name"@].len() > 0 ==> level_name(m)
            == m["level-name"@],
        !m.contains_key("level-name"@) || m["level-name"@].len() == 0 ==> level_name(m) == seq![
            'w',
            'o',
            'r',
            'l',
            'd',
        ],
{
    reveal_strlit("world");
    assert("world"@ =~= seq!['w', 'o', 'r', 'l', 'd']);
}

} // verus!
