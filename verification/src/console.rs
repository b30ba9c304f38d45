//! The console of a running server: its log, the lines of its output, and its log file.
use std::collections::VecDeque;

use vstd::prelude::*;
use vstd::slice::slice_subrange;

use crate::text::{
    cat2, chars_of, contains, has, is_empty, join, join_texts, lines, lines_of, pieces, string_of,
    is_white, stripped_end, strip_end, texts, trim, trim_end, trim_start, trim_text,
};
use crate::unicode::{from_utf8_lossy, utf8_lossy};

verus! {

/// How many lines a console keeps.
pub const LOG_LINES: usize = 300;

/// How many bytes at the end of a log file are read.
pub const LOG_TAIL_BYTES: usize = 262_144;

/// What stands at the end of `s`: its last `n` items, or all of it where it has no more.
pub open spec fn last_of<A>(s: Seq<A>, n: nat) -> Seq<A> {
    if s.len() > n {
        s.skip(s.len() - n)
    } else {
        s
    }
}

// ---------------------------------------------------------------------------------------------
// The log
// ---------------------------------------------------------------------------------------------
/// Each of `lines` with a line feed after it.
pub open spec fn log_text(lines: Seq<Seq<char>>) -> Seq<char>
    decreases lines.len(),
{
    if lines.len() == 0 {
        Seq::empty()
    } else {
        log_text(lines.drop_last()) + lines.last() + seq!['\n']
    }
}

/// The last lines that a server's console showed, and the same as one text.
pub struct ConsoleLog {
    pub logs: VecDeque<String>,
    pub text: String,
}

/// What is known of the process behind a console.
#[derive(Clone, Copy, Debug, PartialEq, Eq, Structural)]
pub enum ChildState {
    /// There is none.
    Absent,
    /// It runs.
    Running,
    /// It has ended, or cannot be asked.
    Ended,
}

impl ConsoleLog {
    /// The lines that are kept, oldest first.
    pub open spec fn lines(&self) -> Seq<Seq<char>> {
        texts(self.logs@)
    }

    /// No more lines are kept than the console holds, and the text is made of them.
    pub open spec fn wf(&self) -> bool {
        &&& self.logs@.len() <= LOG_LINES
        &&& self.text@ == log_text(self.lines())
    }

    /// An empty console.
    pub fn new() -> (r: ConsoleLog)
        ensures
            r.wf(),
            r.lines() == Seq::<Seq<char>>::empty(),
    {
        let r = ConsoleLog { logs: VecDeque::new(), text: String::new() };
        assert(r.lines() == Seq::<Seq<char>>::empty());
        r
    }

    /// Adds a line at the end; the oldest one goes where there would be too many.
    pub fn append_log(&mut self, line: String)
        requires
            old(self).wf(),
        ensures
            final(self).wf(),
            final(self).lines() == last_of(old(self).lines().push(line@), LOG_LINES as nat),
    {
        let ghost before = self.lines();
        if self.logs.len() >= LOG_LINES {
            let _ = self.logs.pop_front();
            self.text = text_of(&self.logs);
            assert(self.lines() == before.skip(1));
        }
        let ghost kept = self.lines();
        self.text.append(line.as_str());
        self.text.push('\n');
        let ghost added = line@;
        self.logs.push_back(line);
        proof {
            assert(self.lines() == kept.push(added));
            assert(kept.push(added).drop_last() == kept);
            assert(self.text@ == log_text(kept) + added + seq!['\n']);
            assert(self.lines() == last_of(before.push(added), LOG_LINES as nat));
        }
    }

    /// Notes that `line` was written to the server's input.
    pub fn echo(&mut self, line: &str)
        requires
            old(self).wf(),
        ensures
            final(self).wf(),
            final(self).lines() == last_of(
                old(self).lines().push("> "@ + line@),
                LOG_LINES as nat,
            ),
    {
        self.append_log(cat2("> ", line));
    }

    /// Notes a line that the server wrote to its error output.
    pub fn append_error(&mut self, line: &str)
        requires
            old(self).wf(),
        ensures
            final(self).wf(),
            final(self).lines() == last_of(
                old(self).lines().push("[HATA-STDERR] "@ + line@),
                LOG_LINES as nat,
            ),
    {
        self.append_log(cat2("[HATA-STDERR] ", line));
    }

    /// Whether the process behind the console still runs. Where it has just ended, the console
    /// says so.
    pub fn reap_finished_child(&mut self, state: ChildState) -> (r: bool)
        requires
            old(self).wf(),
        ensures
            final(self).wf(),
            r == (state == ChildState::Running),
            final(self).lines() == (if state == ChildState::Ended {
                last_of(
                    old(self).lines().push("[SİSTEM] Java süreci sonlandı."@),
                    LOG_LINES as nat,
                )
            } else {
                old(self).lines()
            }),
    {
        match state {
            ChildState::Absent => false,
            ChildState::Running => true,
            ChildState::Ended => {
                self.append_log("[SİSTEM] Java süreci sonlandı.".to_owned());
                false
            },
        }
    }
}

/// Each of `logs` with a line feed after it.
fn text_of(logs: &VecDeque<String>) -> (r: String)
    ensures
        r@ == log_text(texts(logs@)),
{
    let mut out = String::new();
    let n: usize = logs.len();
    let ghost all = texts(logs@);
    for i in 0..n
        invariant
            n == logs@.len(),
            all == texts(logs@),
            out@ == log_text(all.take(i as int)),
    {
        assert(all.take(i + 1).drop_last() == all.take(i as int));
        out.append(logs[i].as_str());
        out.push('\n');
        assert(out@ == log_text(all.take(i as int)) + all[i as int] + seq!['\n']);
    }
    assert(all.take(n as int) == all);
    out
}

/// The lines of a console after `added` were added one by one.
pub open spec fn after_adding(lines: Seq<Seq<char>>, added: Seq<Seq<char>>) -> Seq<Seq<char>>
    decreases added.len(),
{
    if added.len() == 0 {
        lines
    } else {
        last_of(after_adding(lines, added.drop_last()).push(added.last()), LOG_LINES as nat)
    }
}

/// However many lines are added, a console holds the last ones of all that it was ever given.
pub proof fn law_log_keeps_the_last_lines(lines: Seq<Seq<char>>, added: Seq<Seq<char>>)
    requires
        lines.len() <= LOG_LINES,
    ensures
        after_adding(lines, added) == last_of(lines + added, LOG_LINES as nat),
    decreases added.len(),
{
    if added.len() == 0 {
        assert(lines + added == lines);
    } else {
        let init = added.drop_last();
        law_log_keeps_the_last_lines(lines, init);
        assert(lines + added == (lines + init).push(added.last()));
        assert(after_adding(lines, added) == last_of(lines + added, LOG_LINES as nat));
    }
}

// ---------------------------------------------------------------------------------------------
// The lines of a stream
// ---------------------------------------------------------------------------------------------
/// The finished lines of `bytes`, each with its line feed, and what stands after the last one.
pub open spec fn cut_lines(bytes: Seq<u8>) -> (Seq<Seq<u8>>, Seq<u8>)
    decreases bytes.len(),
{
    if bytes.len() == 0 {
        (Seq::empty(), Seq::empty())
    } else {
        let (done, rest) = cut_lines(bytes.drop_last());
        if bytes.last() == 10 {
            (done.push(rest.push(10u8)), Seq::empty())
        } else {
            (done, rest.push(bytes.last()))
        }
    }
}

/// What is shown of a finished line: the text of its bytes before the line feed, without the line
/// end.
pub open spec fn shown_line(line: Seq<u8>) -> Seq<char> {
    strip_end(utf8_lossy(line.drop_last()), seq!['\r', '\n'])
}

/// Whether `s` is one line of text: not empty, and without a line feed.
pub open spec fn is_one_line(s: Seq<char>) -> bool {
    s.len() > 0 && !s.contains('\n')
}

/// What is shown of finished lines: the text of each that is not empty.
pub open spec fn shown_lines(lines: Seq<Seq<u8>>) -> Seq<Seq<char>>
    decreases lines.len(),
{
    if lines.len() == 0 {
        Seq::empty()
    } else {
        let before = shown_lines(lines.drop_last());
        let s = shown_line(lines.last());
        if s.len() > 0 {
            before.push(s)
        } else {
            before
        }
    }
}

/// What is shown of an unfinished line at the end of a stream.
pub open spec fn shown_rest(rest: Seq<u8>) -> Option<Seq<char>> {
    let s = trim(utf8_lossy(rest));
    if rest.len() > 0 && s.len() > 0 {
        Some(s)
    } else {
        None
    }
}

/// Cuts a stream of bytes, which comes in chunks, into lines.
pub struct LineSplitter {
    pub pending: Vec<u8>,
}

impl LineSplitter {
    /// Nothing that waits holds a line feed.
    pub open spec fn wf(&self) -> bool {
        !self.pending@.contains(10)
    }

    /// A splitter at the start of a stream.
    pub fn new() -> (r: LineSplitter)
        ensures
            r.wf(),
            r.pending@ == Seq::<u8>::empty(),
    {
        LineSplitter { pending: Vec::new() }
    }

    /// Takes the next bytes of the stream and gives the lines that they finish.
    pub fn push(&mut self, chunk: &[u8]) -> (r: Vec<String>)
        requires
            old(self).wf(),
        ensures
            final(self).wf(),
            final(self).pending@ == cut_lines(old(self).pending@ + chunk@).1,
            texts(r@) == shown_lines(cut_lines(old(self).pending@ + chunk@).0),
            forall|i: int| 0 <= i < r@.len() ==> is_one_line(#[trigger] texts(r@)[i]),
    {
        let mut out: Vec<String> = Vec::new();
        let n: usize = chunk.len();
        let ghost first = self.pending@;
        proof {
            lemma_cut_nothing(first);
            assert(first + chunk@.take(0) == first);
            assert(texts(out@) == Seq::<Seq<char>>::empty());
        }
        for i in 0..n
            invariant
                n == chunk@.len(),
                self.pending@ == cut_lines(first + chunk@.take(i as int)).1,
                texts(out@) == shown_lines(cut_lines(first + chunk@.take(i as int)).0),
                forall|j: int| 0 <= j < out@.len() ==> is_one_line(#[trigger] texts(out@)[j]),
        {
            let b = chunk[i];
            let ghost done = cut_lines(first + chunk@.take(i as int)).0;
            assert((first + chunk@.take(i + 1)).drop_last() == first + chunk@.take(i as int));
            assert((first + chunk@.take(i + 1)).last() == b);
            let ghost rest = self.pending@;
            self.pending.push(b);
            if b == 10 {
                proof {
                    lemma_cut_rest(first + chunk@.take(i as int));
                    assert(self.pending@.drop_last() == rest);
                }
                let line = line_of(&self.pending);
                self.pending = Vec::new();
                let ghost full = cut_lines(first + chunk@.take(i as int)).1.push(10u8);
                assert(done.push(full).drop_last() == done);
                if !is_empty(line.as_str()) {
                    let ghost o0 = out@;
                    let ghost l0 = line@;
                    out.push(line);
                    assert(texts(out@) == texts(o0).push(l0));
                    assert forall|j: int| 0 <= j < out@.len() implies is_one_line(
                        #[trigger] texts(out@)[j],
                    ) by {
                        if j < o0.len() {
                            assert(is_one_line(texts(o0)[j]));
                        }
                    }
                }
                assert(self.pending@ == Seq::<u8>::empty());
            }
        }
        proof {
            assert(chunk@.take(n as int) == chunk@);
            lemma_cut_rest(first + chunk@);
        }
        out
    }

    /// What the unfinished line at the end of the stream shows.
    pub fn finish(self) -> (r: Option<String>)
        ensures
            match r {
                Some(s) => shown_rest(self.pending@) == Some(s@),
                None => shown_rest(self.pending@) is None,
            },
            self.wf() && r is Some ==> is_one_line(r->0@),
    {
        if self.pending.len() == 0 {
            return None;
        }
        let text = from_utf8_lossy(&self.pending);
        proof {
            if self.wf() {
                lemma_trim_adds_nothing(text@, '\n');
            }
        }
        let s = trim_text(text.as_str());
        if is_empty(s.as_str()) {
            None
        } else {
            Some(s)
        }
    }
}

/// The text of a finished line, without the line end.
fn line_of(line: &Vec<u8>) -> (r: String)
    requires
        line@.len() > 0,
    ensures
        r@ == shown_line(line@),
        !line@.drop_last().contains(10) ==> !r@.contains('\n'),
{
    let n: usize = line.len();
    let bytes = slice_subrange(line.as_slice(), 0, n - 1);
    assert(bytes@ == line@.drop_last());
    let text = from_utf8_lossy(bytes);
    let ends: Vec<char> = vec!['\r', '\n'];
    assert(ends@ == seq!['\r', '\n']);
    let cs = chars_of(text.as_str());
    proof {
        if !text@.contains('\n') {
            lemma_strip_end_adds_nothing(text@, ends@, '\n');
        }
    }
    string_of(stripped_end(&cs, &ends))
}

/// Taking characters off the end of a text adds none to it.
proof fn lemma_strip_end_adds_nothing(s: Seq<char>, set: Seq<char>, c: char)
    requires
        !s.contains(c),
    ensures
        !strip_end(s, set).contains(c),
    decreases s.len(),
{
    if s.len() > 0 && set.contains(s.last()) {
        let init = s.drop_last();
        assert forall|i: int| 0 <= i < init.len() implies init[i] != c by {
            assert(s[i] == init[i]);
        }
        lemma_strip_end_adds_nothing(init, set, c);
    }
}

/// Taking white space off the start of a text adds nothing to it.
proof fn lemma_trim_start_adds_nothing(s: Seq<char>, c: char)
    requires
        !s.contains(c),
    ensures
        !trim_start(s).contains(c),
    decreases s.len(),
{
    if s.len() > 0 && is_white(s.first()) {
        let tail = s.drop_first();
        assert forall|i: int| 0 <= i < tail.len() implies tail[i] != c by {
            assert(s[i + 1] == tail[i]);
        }
        lemma_trim_start_adds_nothing(tail, c);
    }
}

/// Taking white space off the end of a text adds nothing to it.
proof fn lemma_trim_end_adds_nothing(s: Seq<char>, c: char)
    requires
        !s.contains(c),
    ensures
        !trim_end(s).contains(c),
    decreases s.len(),
{
    if s.len() > 0 && is_white(s.last()) {
        let init = s.drop_last();
        assert forall|i: int| 0 <= i < init.len() implies init[i] != c by {
            assert(s[i] == init[i]);
        }
        lemma_trim_end_adds_nothing(init, c);
    }
}

/// Trimming a text adds nothing to it.
proof fn lemma_trim_adds_nothing(s: Seq<char>, c: char)
    requires
        !s.contains(c),
    ensures
        !trim(s).contains(c),
{
    lemma_trim_start_adds_nothing(s, c);
    lemma_trim_end_adds_nothing(trim_start(s), c);
}

/// Bytes without a line feed are all still waiting.
proof fn lemma_cut_nothing(bytes: Seq<u8>)
    requires
        !bytes.contains(10),
    ensures
        cut_lines(bytes) == (Seq::<Seq<u8>>::empty(), bytes),
    decreases bytes.len(),
{
    if bytes.len() > 0 {
        let init = bytes.drop_last();
        assert(bytes.contains(bytes.last()));
        assert forall|i: int| 0 <= i < init.len() implies init[i] != 10 by {
            assert(bytes.contains(bytes[i]));
        }
        lemma_cut_nothing(init);
        assert(init.push(bytes.last()) == bytes);
    } else {
        assert(bytes == Seq::<u8>::empty());
    }
}

/// What stands after the last finished line holds no line feed.
proof fn lemma_cut_rest(bytes: Seq<u8>)
    ensures
        !cut_lines(bytes).1.contains(10),
    decreases bytes.len(),
{
    if bytes.len() > 0 {
        lemma_cut_rest(bytes.drop_last());
        let rest = cut_lines(bytes.drop_last()).1;
        if bytes.last() != 10 {
            assert forall|i: int| 0 <= i < rest.push(bytes.last()).len() implies rest.push(
                bytes.last(),
            )[i] != 10 by {
                if i < rest.len() {
                    assert(rest.contains(rest[i]));
                }
            }
        }
    }
}

/// The lines of a stream whose first part has been cut already.
proof fn lemma_cut_append(a: Seq<u8>, b: Seq<u8>)
    ensures
        cut_lines(a + b).0 == cut_lines(a).0 + cut_lines(cut_lines(a).1 + b).0,
        cut_lines(a + b).1 == cut_lines(cut_lines(a).1 + b).1,
    decreases b.len(),
{
    let rest = cut_lines(a).1;
    if b.len() == 0 {
        lemma_cut_rest(a);
        lemma_cut_nothing(rest);
        assert(a + b == a);
        assert(rest + b == rest);
    } else {
        let init = b.drop_last();
        lemma_cut_append(a, init);
        assert((a + b).drop_last() == a + init);
        assert((rest + b).drop_last() == rest + init);
        assert((a + b).last() == b.last());
        assert((rest + b).last() == b.last());
    }
}

/// Finished lines are shown one by one.
proof fn lemma_shown_append(a: Seq<Seq<u8>>, b: Seq<Seq<u8>>)
    ensures
        shown_lines(a + b) == shown_lines(a) + shown_lines(b),
    decreases b.len(),
{
    if b.len() == 0 {
        assert(a + b == a);
        assert(shown_lines(a) + shown_lines(b) == shown_lines(a));
    } else {
        lemma_shown_append(a, b.drop_last());
        assert((a + b).drop_last() == a + b.drop_last());
        assert((a + b).last() == b.last());
    }
}

/// All of `chunks`, one after the other.
pub open spec fn stream(chunks: Seq<Seq<u8>>) -> Seq<u8>
    decreases chunks.len(),
{
    if chunks.len() == 0 {
        Seq::empty()
    } else {
        stream(chunks.drop_last()) + chunks.last()
    }
}

/// The lines that a splitter gives for `chunks`, one after the other, and what waits then.
pub open spec fn fed(chunks: Seq<Seq<u8>>) -> (Seq<Seq<char>>, Seq<u8>)
    decreases chunks.len(),
{
    if chunks.len() == 0 {
        (Seq::empty(), Seq::empty())
    } else {
        let (shown, pending) = fed(chunks.drop_last());
        let (done, rest) = cut_lines(pending + chunks.last());
        (shown + shown_lines(done), rest)
    }
}

/// How a stream is cut into chunks makes no difference to the lines that it shows.
pub proof fn law_chunks_do_not_matter(chunks: Seq<Seq<u8>>)
    ensures
        fed(chunks) == (
            shown_lines(cut_lines(stream(chunks)).0),
            cut_lines(stream(chunks)).1,
        ),
    decreases chunks.len(),
{
    if chunks.len() > 0 {
        let init = chunks.drop_last();
        law_chunks_do_not_matter(init);
        lemma_cut_append(stream(init), chunks.last());
        let rest = cut_lines(stream(init)).1;
        lemma_shown_append(cut_lines(stream(init)).0, cut_lines(rest + chunks.last()).0);
    }
}

// ---------------------------------------------------------------------------------------------
// The log file
// ---------------------------------------------------------------------------------------------
/// The last lines of `text`, with a line feed between them.
pub open spec fn last_lines(text: Seq<char>) -> Seq<char> {
    join(last_of(lines(text), LOG_LINES as nat), "\n"@)
}

/// What is shown of a log file: its last lines, or that there is none.
pub open spec fn log_shown(data: Option<Seq<u8>>) -> Seq<char> {
    match data {
        Some(bytes) => if bytes.len() > 0 {
            last_lines(utf8_lossy(last_of(bytes, LOG_TAIL_BYTES as nat)))
        } else {
            "logs/latest.log yok. Sunucuyu bir kez çalıştırın."@
        },
        None => "logs/latest.log yok. Sunucuyu bir kez çalıştırın."@,
    }
}

/// The last lines of `text`.
pub fn tail_lines(text: &str) -> (r: String)
    ensures
        r@ == last_lines(text@),
{
    let cs = chars_of(text);
    let all = lines_of(&cs);
    let n: usize = all.len();
    let start: usize = if n > LOG_LINES {
        n - LOG_LINES
    } else {
        0
    };
    let mut kept: Vec<String> = Vec::new();
    let ghost whole = pieces(all@);
    assert(texts(kept@) == whole.subrange(start as int, start as int));
    for i in start..n
        invariant
            n == all@.len(),
            start <= n,
            whole == pieces(all@),
            texts(kept@) == whole.subrange(start as int, i as int),
    {
        let ghost k0 = kept@;
        let line = string_of(&all[i]);
        let ghost l0 = line@;
        kept.push(line);
        assert(texts(kept@) == texts(k0).push(l0));
        assert(whole.subrange(start as int, i + 1) == whole.subrange(start as int, i as int).push(
            whole[i as int],
        ));
    }
    assert(whole.subrange(start as int, n as int) == last_of(whole, LOG_LINES as nat));
    join_texts(&kept, "\n")
}

/// The end of a log file, at most [`LOG_TAIL_BYTES`] of it.
fn tail_bytes(data: &[u8]) -> (r: &[u8])
    ensures
        r@ == last_of(data@, LOG_TAIL_BYTES as nat),
{
    let n: usize = data.len();
    if n > LOG_TAIL_BYTES {
        assert(data@.subrange(n - LOG_TAIL_BYTES, n as int) == data@.skip(n - LOG_TAIL_BYTES));
        slice_subrange(data, n - LOG_TAIL_BYTES, n)
    } else {
        data
    }
}

/// What is shown of a server's log file; `data` is what it holds, where it could be read.
pub fn read_latest_log(data: &Option<Vec<u8>>) -> (r: String)
    ensures
        r@ == log_shown(
            match *data {
                Some(bytes) => Some(bytes@),
                None => None,
            },
        ),
{
    match data {
        Some(bytes) => if bytes.len() > 0 {
            tail_lines(from_utf8_lossy(tail_bytes(bytes)).as_str())
        } else {
            "logs/latest.log yok. Sunucuyu bir kez çalıştırın.".to_owned()
        },
        None => "logs/latest.log yok. Sunucuyu bir kez çalıştırın.".to_owned(),
    }
}

/// Whether `tail` says that the server has saved its worlds.
pub fn save_finished(tail: &str) -> (r: bool)
    ensures
        r == contains(tail@, "Saved the game"@),
{
    has(tail, "Saved the game")
}

/// Whether what was added to a log file since it was `start` bytes long says that the server has
/// saved its worlds.
pub fn saved_since(data: &[u8], start: usize) -> (r: bool)
    ensures
        r == contains(
            if data@.len() > start {
                utf8_lossy(data@.skip(start as int))
            } else {
                Seq::empty()
            },
            "Saved the game"@,
        ),
{
    let n: usize = data.len();
    if n > start {
        assert(data@.subrange(start as int, n as int) == data@.skip(start as int));
        let tail = from_utf8_lossy(slice_subrange(data, start, n));
        save_finished(tail.as_str())
    } else {
        let tail = String::new();
        save_finished(tail.as_str())
    }
}

// ---------------------------------------------------------------------------------------------
// Laws
// ---------------------------------------------------------------------------------------------
/// The end of a row of things is as many of its last ones as are asked for, in their order, or all of
/// it where it has no more.
pub proof fn law_end_of_a_row<A>(s: Seq<A>, n: nat)
    ensures
        last_of(s, n).len() == (if s.len() < n {
            s.len()
        } else {
            n
        }),
        forall|i: int|
            0 <= i < last_of(s, n).len() ==> #[trigger] last_of(s, n)[i] == s[s.len() - last_of(
                s,
                n,
            ).len() + i],
{
}

/// A console keeps the last 300 lines that it was given, whatever it was given before, and its text is
/// these lines, each with a line feed after it.
pub proof fn law_console_keeps_300_lines(lines: Seq<Seq<char>>, added: Seq<Seq<char>>, line: Seq<char>)
    requires
        lines.len() <= 300,
    ensures
        after_adding(lines, added).len() == (if lines.len() + added.len() < 300 {
            lines.len() + added.len()
        } else {
            300
        }),
        forall|i: int|
            0 <= i < after_adding(lines, added).len() ==> #[trigger] after_adding(lines, added)[i] == (
            lines + added)[lines.len() + added.len() - after_adding(lines, added).len() + i],
        log_text(Seq::empty()) == Seq::<char>::empty(),
        log_text(lines.push(line)) == log_text(lines) + line + seq!['\n'],
{
    law_log_keeps_the_last_lines(lines, added);
    law_end_of_a_row(lines + added, LOG_LINES as nat);
    assert(lines.push(line).drop_last() == lines);
}

/// A line of a stream ends with its line feed, and the next one begins after it. What has not ended
/// waits.
pub proof fn law_lines_of_a_stream(line: Seq<u8>, rest: Seq<u8>)
    requires
        !line.contains(10),
    ensures
        cut_lines(line) == (Seq::<Seq<u8>>::empty(), line),
        cut_lines(line.push(10) + rest).0 == seq![line.push(10)] + cut_lines(rest).0,
        cut_lines(line.push(10) + rest).1 == cut_lines(rest).1,
{
    lemma_cut_nothing(line);
    let ended = line.push(10);
    assert(ended.drop_last() == line);
    assert(cut_lines(ended) == (seq![ended], Seq::<u8>::empty())) by {
        assert(Seq::<Seq<u8>>::empty().push(ended) =~= seq![ended]);
    }
    lemma_cut_append(ended, rest);
    assert(Seq::<u8>::empty() + rest == rest);
}

/// Of the finished lines those are shown that are not empty, all of them, in their order. A line is
/// shown without what ends it: its line feed, and carriage returns before that.
pub proof fn law_lines_that_are_shown(lines: Seq<Seq<u8>>, body: Seq<u8>, text: Seq<char>, end: Seq<char>)
    requires
        forall|i: int| 0 <= i < end.len() ==> #[trigger] end[i] == '\r' || end[i] == '\n',
        text.len() > 0,
        text.last() != '\r' && text.last() != '\n',
    ensures
        shown_lines(lines) == lines.map_values(|l: Seq<u8>| shown_line(l)).filter(
            |s: Seq<char>| s.len() > 0,
        ),
        utf8_lossy(body) == text + end ==> shown_line(body.push(10)) == text,
        utf8_lossy(body) == end ==> shown_line(body.push(10)) == Seq::<char>::empty(),
{
    lemma_shown_filter(lines);
    let set = seq!['\r', '\n'];
    assert(set[0] == '\r' && set[1] == '\n');
    assert forall|i: int| 0 <= i < end.len() implies set.contains(#[trigger] end[i]) by {
        assert(set.contains(set[0]) && set.contains(set[1]));
    }
    let none = Seq::<char>::empty();
    crate::text::law_strip(none, text, end, set);
    assert(body.push(10).drop_last() == body);
}

proof fn lemma_shown_filter(lines: Seq<Seq<u8>>)
    ensures
        shown_lines(lines) == lines.map_values(|l: Seq<u8>| shown_line(l)).filter(
            |s: Seq<char>| s.len() > 0,
        ),
    decreases lines.len(),
{
    reveal(Seq::filter);
    let show = |l: Seq<u8>| shown_line(l);
    let some = |s: Seq<char>| s.len() > 0;
    let all = lines.map_values(show);
    if lines.len() > 0 {
        let init = lines.drop_last();
        lemma_shown_filter(init);
        assert(all.drop_last() =~= init.map_values(show));
        assert(all.last() == shown_line(lines.last()));
    } else {
        assert(all.len() == 0);
    }
}

/// A line that has not ended when a stream does is shown without white space around it, where there
/// is anything else in it.
pub proof fn law_unfinished_line(rest: Seq<u8>)
    ensures
        rest.len() > 0 && trim(utf8_lossy(rest)).len() > 0 ==> shown_rest(rest) == Some(
            trim(utf8_lossy(rest)),
        ),
        rest.len() == 0 || trim(utf8_lossy(rest)).len() == 0 ==> shown_rest(rest) is None,
{
}

/// Of a log file the last 300 lines are shown, with line feeds between them, as far as they stand in
/// its last 256 kilobytes; and that there is none, where it is empty or cannot be read.
pub proof fn law_log_file(bytes: Seq<u8>, text: Seq<char>)
    ensures
        last_lines(text) == join(last_of(lines(text), 300), seq!['\n']),
        bytes.len() > 0 && bytes.len() <= 256 * 1024 ==> log_shown(Some(bytes)) == last_lines(
            utf8_lossy(bytes),
        ),
        bytes.len() > 256 * 1024 ==> log_shown(Some(bytes)) == last_lines(
            utf8_lossy(bytes.skip(bytes.len() - 256 * 1024)),
        ),
        log_shown(None) == log_shown(Some(Seq::empty())),
        log_shown(None) == "logs/latest.log yok. Sunucuyu bir kez çalıştırın."@,
{
    reveal_strlit("\n");
    assert("\n"@ =~= seq!['\n']);
}

} // verus!
