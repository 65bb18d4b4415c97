use vstd::prelude::*;
use vstd::string::StringSliceAdditionalSpecFns;
use crate::links::{dedup_in_order, law_unique_in_order, list_contains, texts, unique_in_order};
use crate::text::{
    chars_of, contains_str, has_substring, join, lemma_trim_facts, string_from_range, trim,
    trim_bounds,
};

verus! {

/// The pieces of `s` between `'\n'` characters (one more than there are
/// newlines).
pub open spec fn line_pieces(s: Seq<char>) -> Seq<Seq<char>>
    decreases s.len(),
{
    if s.len() == 0 {
        seq![Seq::empty()]
    } else {
        let prev = line_pieces(s.drop_last());
        if s.last() == '\n' {
            prev.push(Seq::empty())
        } else {
            prev.update(prev.len() - 1, prev.last().push(s.last()))
        }
    }
}

/// The non-empty trimmed pieces among `pieces`, in order.
pub open spec fn nonempty_trimmed(pieces: Seq<Seq<char>>) -> Seq<Seq<char>>
    decreases pieces.len(),
{
    if pieces.len() == 0 {
        Seq::empty()
    } else {
        let prev = nonempty_trimmed(pieces.drop_last());
        let t = trim(pieces.last());
        if t.len() == 0 {
            prev
        } else {
            prev.push(t)
        }
    }
}

/// The item IDs that a file with text `content` lists, one per line: each
/// line trimmed (which also drops a `'\r'` before the newline), empty lines
/// left out.
pub open spec fn spec_item_ids(content: Seq<char>) -> Seq<Seq<char>> {
    nonempty_trimmed(line_pieces(content))
}

proof fn lemma_line_pieces_nonempty(s: Seq<char>)
    ensures
        line_pieces(s).len() > 0,
    decreases s.len(),
{
    if s.len() > 0 {
        lemma_line_pieces_nonempty(s.drop_last());
    }
}

/// The item IDs listed in `content`, one per line.
pub fn parse_item_ids(content: &str) -> (r: Vec<String>)
    ensures
        texts(r@) == spec_item_ids(content@),
{
    let cs = chars_of(content);
    let mut out: Vec<String> = Vec::new();
    let mut start: usize = 0;
    let mut i: usize = 0;
    assert(cs@.subrange(0, 0) =~= Seq::<char>::empty());
    assert(line_pieces(Seq::<char>::empty()).update(0, Seq::<char>::empty()) =~= line_pieces(
        Seq::<char>::empty(),
    ));
    while i < cs.len()
        invariant
            start <= i <= cs.len(),
            cs@ == content@,
            line_pieces(cs@.subrange(0, i as int)) == {
                let p = line_pieces(cs@.subrange(0, start as int));
                p.update(p.len() - 1, cs@.subrange(start as int, i as int))
            },
            line_pieces(cs@.subrange(0, start as int)).last() == Seq::<char>::empty(),
            texts(out@) == nonempty_trimmed(line_pieces(cs@.subrange(0, start as int)).drop_last()),
        decreases cs.len() - i,
    {
        let ghost pre = cs@.subrange(0, i as int);
        let ghost cur = cs@.subrange(0, i + 1);
        assert(cur.drop_last() == pre);
        proof {
            lemma_line_pieces_nonempty(pre);
            lemma_line_pieces_nonempty(cs@.subrange(0, start as int));
        }
        if cs[i] == '\n' {
            let piece = chars_of_range_trimmed(&cs, start, i);
            let ghost done = line_pieces(cur).drop_last();
            assert(done == line_pieces(pre));
            assert(done.drop_last() == line_pieces(cs@.subrange(0, start as int)).drop_last());
            assert(done.last() == cs@.subrange(start as int, i as int));
            if piece.len() > 0 {
                let ghost before = texts(out@);
                out.push(string_from_range(&piece, 0, piece.len()));
                assert(piece@.subrange(0, piece@.len() as int) == piece@);
                assert(texts(out@) == before.push(piece@));
            }
            start = i + 1;
            assert(cs@.subrange(0, start as int) == cur);
            assert(cs@.subrange(start as int, i + 1) =~= Seq::<char>::empty());
            assert(line_pieces(cur) == line_pieces(pre).push(Seq::<char>::empty()));
            assert(line_pieces(cur).update(line_pieces(cur).len() - 1, Seq::<char>::empty())
                =~= line_pieces(cur));
        } else {
            assert(cs@.subrange(start as int, i + 1) == cs@.subrange(start as int, i as int).push(cs@[i as int]));
            let ghost p = line_pieces(cs@.subrange(0, start as int));
            let ghost prev = line_pieces(pre);
            assert(prev.last() == cs@.subrange(start as int, i as int));
            assert(line_pieces(cur) == prev.update(prev.len() - 1, prev.last().push(cs@[i as int])));
            assert(line_pieces(cur) =~= p.update(p.len() - 1, cs@.subrange(start as int, i + 1)));
        }
        i = i + 1;
    }
    let ghost all = line_pieces(cs@);
    assert(cs@.subrange(0, cs.len() as int) == cs@);
    proof {
        lemma_line_pieces_nonempty(cs@.subrange(0, start as int));
    }
    let piece = chars_of_range_trimmed(&cs, start, cs.len());
    assert(all.drop_last() == line_pieces(cs@.subrange(0, start as int)).drop_last());
    assert(all.last() == cs@.subrange(start as int, cs.len() as int));
    if piece.len() > 0 {
        let ghost before = texts(out@);
        out.push(string_from_range(&piece, 0, piece.len()));
        assert(piece@.subrange(0, piece@.len() as int) == piece@);
        assert(texts(out@) == before.push(piece@));
    }
    out
}

/// The characters `s[from..to]`, trimmed.
fn chars_of_range_trimmed(s: &Vec<char>, from: usize, to: usize) -> (r: Vec<char>)
    requires
        from <= to <= s.len(),
    ensures
        r@ == trim(s@.subrange(from as int, to as int)),
{
    let part = crate::text::chars_range(s, from, to);
    let (a, b) = trim_bounds(&part);
    crate::text::chars_range(&part, a, b)
}


/// The elements of `ids` that `processed` does not hold, in order.
pub open spec fn not_processed(ids: Seq<Seq<char>>, processed: Seq<Seq<char>>) -> Seq<Seq<char>>
    decreases ids.len(),
{
    if ids.len() == 0 {
        ids
    } else {
        let prev = not_processed(ids.drop_last(), processed);
        if processed.contains(ids.last()) {
            prev
        } else {
            prev.push(ids.last())
        }
    }
}

/// The IDs still to fetch: those of `all` with repeats left out (first
/// occurrence kept), then those with a folder already (`processed`) left out.
pub open spec fn spec_pending_ids(all: Seq<Seq<char>>, processed: Seq<Seq<char>>) -> Seq<
    Seq<char>,
> {
    not_processed(unique_in_order(all), processed)
}

/// The IDs still to fetch.
pub fn pending_ids(all: &Vec<String>, processed: &Vec<String>) -> (r: Vec<String>)
    ensures
        texts(r@) == spec_pending_ids(texts(all@), texts(processed@)),
{
    let unique = dedup_in_order(all);
    let mut out: Vec<String> = Vec::new();
    let mut i: usize = 0;
    while i < unique.len()
        invariant
            i <= unique.len(),
            texts(out@) == not_processed(texts(unique@.subrange(0, i as int)), texts(processed@)),
        decreases unique.len() - i,
    {
        let ghost pre = texts(unique@.subrange(0, i as int));
        let ghost cur = texts(unique@.subrange(0, i + 1));
        assert(cur.drop_last() == pre);
        assert(cur.last() == unique@[i as int]@);
        if !list_contains(processed, &unique[i]) {
            let x = unique[i].clone();
            out.push(x);
            assert(texts(out@) == texts(out@.drop_last()).push(x@));
        }
        i = i + 1;
    }
    assert(unique@.subrange(0, unique.len() as int) == unique@);
    out
}

/// The default number of concurrent tabs when `available` threads can run:
/// half of them, at least 1 and at most 4.
pub open spec fn spec_default_tabs(available: usize) -> usize {
    if available / 2 < 1 {
        1
    } else if available / 2 > 4 {
        4
    } else {
        available / 2
    }
}

/// The largest number of concurrent tabs offered: `available`, at least 4.
pub open spec fn spec_max_tabs(available: usize) -> usize {
    if available < 4 {
        4
    } else {
        available
    }
}

/// The default and the largest number of concurrent tabs, for `available`
/// threads.
pub fn tab_settings(available: usize) -> (r: (usize, usize))
    ensures
        r.0 == spec_default_tabs(available),
        r.1 == spec_max_tabs(available),
{
    let half = available / 2;
    let tabs = if half < 1 {
        1
    } else if half > 4 {
        4
    } else {
        half
    };
    let max = if available < 4 {
        4
    } else {
        available
    };
    (tabs, max)
}

/// The status line after a refresh: `"Completed!"` once a session has stopped
/// with every item processed (and at least one), `"Running..."` while one
/// runs, otherwise unchanged (`None`).
pub fn next_status(running: bool, done: u32, total: u32) -> (r: Option<&'static str>)
    ensures
        (!running && done > 0 && done == total) ==> (r matches Some(s) && s@ == "Completed!"@),
        running ==> (r matches Some(s) && s@ == "Running..."@),
        (!running && !(done > 0 && done == total)) ==> r is None,
{
    if !running && done > 0 && done == total {
        Some("Completed!")
    } else if running {
        Some("Running...")
    } else {
        None
    }
}

/// Whether an error message says that the browser is gone (its connection is
/// closed).
pub open spec fn spec_browser_dead(msg: Seq<char>) -> bool {
    has_substring(msg, "connection is closed"@) || has_substring(
        msg,
        "underlying connection is closed"@,
    )
}

/// Whether an error message says that the browser is gone.
pub fn browser_dead(msg: &str) -> (r: bool)
    ensures
        r == spec_browser_dead(msg@),
{
    contains_str(msg, "connection is closed") || contains_str(msg, "underlying connection is closed")
}


/// How many log lines are kept.
pub const LOG_CAPACITY: usize = 1000;

/// The log after `line` is added to `log`: the oldest line goes once more
/// than `LOG_CAPACITY` would be held.
pub open spec fn spec_log_push(log: Seq<Seq<char>>, line: Seq<char>) -> Seq<Seq<char>> {
    if log.len() + 1 > LOG_CAPACITY {
        log.push(line).drop_first()
    } else {
        log.push(line)
    }
}

/// The session log: the latest lines, oldest first, at most `LOG_CAPACITY`.
pub struct LogBuffer {
    entries: Vec<String>,
}

impl View for LogBuffer {
    type V = Seq<Seq<char>>;

    closed spec fn view(&self) -> Seq<Seq<char>> {
        texts(self.entries@)
    }
}

impl LogBuffer {
    #[verifier::type_invariant]
    spec fn bounded(self) -> bool {
        self.entries.len() <= LOG_CAPACITY
    }

    /// An empty log.
    pub fn new() -> (r: LogBuffer)
        ensures
            r@ == Seq::<Seq<char>>::empty(),
    {
        let r = LogBuffer { entries: Vec::new() };
        assert(r@ =~= Seq::<Seq<char>>::empty());
        r
    }

    /// The number of lines held.
    pub fn len(&self) -> (r: usize)
        ensures
            r == self@.len(),
            r <= LOG_CAPACITY,
    {
        proof {
            use_type_invariant(self);
        }
        self.entries.len()
    }

    /// Adds a line, dropping the oldest when the log is full.
    pub fn push(&mut self, line: String)
        ensures
            final(self)@ == spec_log_push(old(self)@, line@),
    {
        proof {
            use_type_invariant(&*self);
        }
        let ghost before = self@;
        let mut entries: Vec<String> = Vec::new();
        std::mem::swap(&mut entries, &mut self.entries);
        if entries.len() >= LOG_CAPACITY {
            entries.remove(0);
        }
        entries.push(line);
        assert(texts(entries@) =~= spec_log_push(before, line@));
        self.entries = entries;
    }

    /// Drops every line.
    pub fn clear(&mut self)
        ensures
            final(self)@ == Seq::<Seq<char>>::empty(),
    {
        self.entries = Vec::new();
        assert(self@ =~= Seq::<Seq<char>>::empty());
    }

    /// The lines held, oldest first.
    pub fn lines(&self) -> (r: &Vec<String>)
        ensures
            texts(r@) == self@,
    {
        &self.entries
    }
}

/// The log after the lines `lines` are added one by one to an empty log.
pub open spec fn log_after(lines: Seq<Seq<char>>) -> Seq<Seq<char>>
    decreases lines.len(),
{
    if lines.len() == 0 {
        Seq::empty()
    } else {
        spec_log_push(log_after(lines.drop_last()), lines.last())
    }
}

/// Law: whatever was added, the log holds exactly the latest `LOG_CAPACITY`
/// lines (all of them while fewer were added), oldest first.
pub proof fn law_log_keeps_latest(lines: Seq<Seq<char>>)
    ensures
        log_after(lines) == lines.subrange(
            if lines.len() > LOG_CAPACITY {
                lines.len() - LOG_CAPACITY
            } else {
                0
            },
            lines.len() as int,
        ),
    decreases lines.len(),
{
    if lines.len() > 0 {
        let pre = lines.drop_last();
        law_log_keeps_latest(pre);
        let s = if pre.len() > LOG_CAPACITY {
            pre.len() - LOG_CAPACITY
        } else {
            0
        };
        assert(pre.subrange(s, pre.len() as int).push(lines.last()) =~= lines.subrange(
            s,
            lines.len() as int,
        ));
        if pre.len() + 1 > LOG_CAPACITY {
            assert(lines.subrange(s, lines.len() as int).drop_first() =~= lines.subrange(
                lines.len() - LOG_CAPACITY,
                lines.len() as int,
            ));
        }
    } else {
        assert(lines.subrange(0, 0) =~= Seq::<Seq<char>>::empty());
    }
}


/// How many times one item is fetched while the browser keeps dying.
pub const MAX_BROWSER_TRIES: u32 = 3;

/// How the work on one item ended.
#[derive(PartialEq, Eq, Structural, Clone, Copy, Debug)]
pub enum ItemOutcome {
    /// Fetched and written: counted as a success.
    Saved,
    /// Not fetched, not written, or the browser could not be restarted:
    /// counted as a failure.
    Failed,
    /// The browser died on every try and came back each time: counted as
    /// neither.
    GaveUp,
}

/// Where the work on one item stands.
#[derive(PartialEq, Eq, Structural, Clone, Copy, Debug)]
pub enum ItemStep {
    /// Fetch the item; the argument counts the tries made before (from 0).
    Fetch(u32),
    /// Restart the browser after the try numbered by the argument died.
    RestartBrowser(u32),
    /// Done.
    Finished(ItemOutcome),
}

/// What one fetch of an item gave.
pub enum FetchReport {
    /// The item was fetched and written.
    Saved,
    /// The item was fetched but writing it failed.
    WriteFailed,
    /// Fetching failed with this message.
    Error(String),
}

/// The step after fetch number `attempt` reported `report`.
pub open spec fn spec_after_fetch(attempt: u32, report: FetchReport) -> ItemStep {
    match report {
        FetchReport::Saved => ItemStep::Finished(ItemOutcome::Saved),
        FetchReport::WriteFailed => ItemStep::Finished(ItemOutcome::Failed),
        FetchReport::Error(msg) => if spec_browser_dead(msg@) {
            ItemStep::RestartBrowser(attempt)
        } else {
            ItemStep::Finished(ItemOutcome::Failed)
        },
    }
}

/// The step after the browser restart that followed fetch number `attempt`.
pub open spec fn spec_after_restart(attempt: u32, restarted: bool) -> ItemStep {
    if !restarted {
        ItemStep::Finished(ItemOutcome::Failed)
    } else if attempt + 1 < MAX_BROWSER_TRIES {
        ItemStep::Fetch((attempt + 1) as u32)
    } else {
        ItemStep::Finished(ItemOutcome::GaveUp)
    }
}

/// The first step for an item.
pub fn first_item_step() -> (r: ItemStep)
    ensures
        r == ItemStep::Fetch(0),
{
    ItemStep::Fetch(0)
}

/// The step after fetch number `attempt` reported `report`: a saved item is
/// a success, a failed write a failure; an error that says the browser died
/// asks for a restart, any other error is a failure.
pub fn after_fetch(attempt: u32, report: &FetchReport) -> (r: ItemStep)
    ensures
        r == spec_after_fetch(attempt, *report),
{
    match report {
        FetchReport::Saved => ItemStep::Finished(ItemOutcome::Saved),
        FetchReport::WriteFailed => ItemStep::Finished(ItemOutcome::Failed),
        FetchReport::Error(msg) => if browser_dead(msg.as_str()) {
            ItemStep::RestartBrowser(attempt)
        } else {
            ItemStep::Finished(ItemOutcome::Failed)
        },
    }
}

/// The step after the browser restart that followed fetch number `attempt`:
/// a failed restart is a failure; otherwise the item is fetched again while
/// tries are left, and given up once `MAX_BROWSER_TRIES` fetches were made.
pub fn after_restart(attempt: u32, restarted: bool) -> (r: ItemStep)
    requires
        attempt < MAX_BROWSER_TRIES,
    ensures
        r == spec_after_restart(attempt, restarted),
{
    if !restarted {
        ItemStep::Finished(ItemOutcome::Failed)
    } else if attempt + 1 < MAX_BROWSER_TRIES {
        ItemStep::Fetch(attempt + 1)
    } else {
        ItemStep::Finished(ItemOutcome::GaveUp)
    }
}

/// Steps that can still come, counting fetches and restarts.
pub open spec fn steps_left(step: ItemStep) -> int {
    match step {
        ItemStep::Fetch(a) => 2 * (MAX_BROWSER_TRIES - a),
        ItemStep::RestartBrowser(a) => 2 * (MAX_BROWSER_TRIES - a) - 1,
        ItemStep::Finished(_) => 0,
    }
}

/// A step that the machine can be in: tries counted below the limit.
pub open spec fn step_in_range(step: ItemStep) -> bool {
    match step {
        ItemStep::Fetch(a) => a < MAX_BROWSER_TRIES,
        ItemStep::RestartBrowser(a) => a < MAX_BROWSER_TRIES,
        ItemStep::Finished(_) => true,
    }
}

/// Law: the work on one item always ends. From the first step, and from any
/// step in range, each move leads to a step in range with fewer steps left;
/// so an item is fetched at most `MAX_BROWSER_TRIES` times.
pub proof fn law_item_work_ends(attempt: u32, report: FetchReport, restarted: bool)
    requires
        attempt < MAX_BROWSER_TRIES,
    ensures
        step_in_range(ItemStep::Fetch(0)),
        steps_left(ItemStep::Fetch(0)) == 2 * MAX_BROWSER_TRIES,
        step_in_range(spec_after_fetch(attempt, report)),
        0 <= steps_left(spec_after_fetch(attempt, report)) < steps_left(ItemStep::Fetch(attempt)),
        step_in_range(spec_after_restart(attempt, restarted)),
        0 <= steps_left(spec_after_restart(attempt, restarted)) < steps_left(
            ItemStep::RestartBrowser(attempt),
        ),
{
}


proof fn lemma_not_processed(ids: Seq<Seq<char>>, processed: Seq<Seq<char>>)
    ensures
        forall|x: Seq<char>|
            not_processed(ids, processed).contains(x) <==> (ids.contains(x) && !processed.contains(
                x,
            )),
        (forall|i: int, j: int| 0 <= i < j < ids.len() ==> ids[i] != ids[j]) ==> (forall|
            i: int,
            j: int,
        |
            0 <= i < j < not_processed(ids, processed).len() ==> not_processed(ids, processed)[i]
                != not_processed(ids, processed)[j]),
    decreases ids.len(),
{
    if ids.len() > 0 {
        let pre = ids.drop_last();
        lemma_not_processed(pre, processed);
        let p = not_processed(pre, processed);
        let last = ids.last();
        assert forall|x: Seq<char>|
            not_processed(ids, processed).contains(x) <==> (ids.contains(x) && !processed.contains(
                x,
            )) by {
            if ids.contains(x) {
                let k = choose|k: int| 0 <= k < ids.len() && ids[k] == x;
                if k < ids.len() - 1 {
                    assert(pre[k] == x);
                }
            }
            if pre.contains(x) {
                let k = choose|k: int| 0 <= k < pre.len() && pre[k] == x;
                assert(ids[k] == x);
            }
            if !processed.contains(last) {
                assert(p.push(last)[p.len() as int] == last);
                if p.push(last).contains(x) {
                    let k = choose|k: int| 0 <= k < p.push(last).len() && p.push(last)[k] == x;
                    if k < p.len() {
                        assert(p[k] == x);
                    }
                }
                if p.contains(x) {
                    let k = choose|k: int| 0 <= k < p.len() && p[k] == x;
                    assert(p.push(last)[k] == x);
                }
            }
        }
        if forall|i: int, j: int| 0 <= i < j < ids.len() ==> ids[i] != ids[j] {
            assert forall|i: int, j: int| 0 <= i < j < pre.len() implies pre[i] != pre[j] by {
                assert(pre[i] == ids[i] && pre[j] == ids[j]);
            }
            if !processed.contains(last) {
                assert(!pre.contains(last)) by {
                    if pre.contains(last) {
                        let k = choose|k: int| 0 <= k < pre.len() && pre[k] == last;
                        assert(ids[k] == ids[ids.len() - 1]);
                    }
                }
                assert(!p.contains(last));
                let q = p.push(last);
                assert forall|i: int, j: int| 0 <= i < j < q.len() implies q[i] != q[j] by {
                    if j == p.len() {
                        assert(q[i] == p[i]);
                        assert(p.contains(p[i]));
                    } else {
                        assert(q[i] == p[i] && q[j] == p[j]);
                    }
                }
            }
        }
    }
}

/// Law: the IDs to fetch hold no ID twice, and hold exactly the IDs of the
/// file that have no folder yet.
pub proof fn law_pending_ids(all: Seq<Seq<char>>, processed: Seq<Seq<char>>)
    ensures
        forall|i: int, j: int|
            0 <= i < j < spec_pending_ids(all, processed).len() ==> spec_pending_ids(
                all,
                processed,
            )[i] != spec_pending_ids(all, processed)[j],
        forall|x: Seq<char>|
            spec_pending_ids(all, processed).contains(x) <==> (all.contains(x)
                && !processed.contains(x)),
{
    law_unique_in_order(all);
    lemma_not_processed(unique_in_order(all), processed);
}


/// Law: the default number of tabs is between 1 and 4, and never above the
/// largest number offered, which is at least 4.
pub proof fn law_tab_settings(available: usize)
    ensures
        1 <= spec_default_tabs(available) <= 4 <= spec_max_tabs(available),
        spec_default_tabs(available) <= spec_max_tabs(available),
        spec_max_tabs(available) >= available,
{
}

proof fn lemma_line_pieces_no_newline(s: Seq<char>)
    ensures
        forall|i: int, j: int|
            0 <= i < line_pieces(s).len() && 0 <= j < line_pieces(s)[i].len() ==> line_pieces(
                s,
            )[i][j] != '\n',
    decreases s.len(),
{
    if s.len() > 0 {
        lemma_line_pieces_no_newline(s.drop_last());
        lemma_line_pieces_nonempty(s.drop_last());
        let prev = line_pieces(s.drop_last());
        if s.last() != '\n' {
            let q = prev.update(prev.len() - 1, prev.last().push(s.last()));
            assert forall|i: int, j: int| 0 <= i < q.len() && 0 <= j < q[i].len() implies q[i][j]
                != '\n' by {
                if i == prev.len() - 1 && j < prev.last().len() {
                    assert(q[i][j] == prev[i][j]);
                } else if i < prev.len() - 1 {
                    assert(q[i] == prev[i]);
                }
            }
        } else {
            let q = prev.push(Seq::<char>::empty());
            assert forall|i: int, j: int| 0 <= i < q.len() && 0 <= j < q[i].len() implies q[i][j]
                != '\n' by {
                if i < prev.len() {
                    assert(q[i] == prev[i]);
                }
            }
        }
    }
}

proof fn lemma_nonempty_trimmed(pieces: Seq<Seq<char>>)
    requires
        forall|i: int, j: int|
            0 <= i < pieces.len() && 0 <= j < pieces[i].len() ==> pieces[i][j] != '\n',
    ensures
        forall|k: int|
            0 <= k < nonempty_trimmed(pieces).len() ==> {
                let id = #[trigger] nonempty_trimmed(pieces)[k];
                &&& id.len() > 0
                &&& trim(id) == id
                &&& forall|j: int| 0 <= j < id.len() ==> id[j] != '\n'
            },
    decreases pieces.len(),
{
    if pieces.len() > 0 {
        let pre = pieces.drop_last();
        assert forall|i: int, j: int|
            0 <= i < pre.len() && 0 <= j < pre[i].len() implies pre[i][j] != '\n' by {
            assert(pre[i] == pieces[i]);
        }
        lemma_nonempty_trimmed(pre);
        let last = pieces.last();
        lemma_trim_facts(last);
        let t = trim(last);
        let (a, b) = choose|a: int, b: int| 0 <= a <= b <= last.len() && t == last.subrange(a, b);
        assert forall|j: int| 0 <= j < t.len() implies t[j] != '\n' by {
            assert(t[j] == last[a + j]);
            assert(last == pieces[pieces.len() - 1]);
        }
        let prev = nonempty_trimmed(pre);
        if t.len() > 0 {
            assert forall|k: int| 0 <= k < prev.push(t).len() implies {
                let id = #[trigger] prev.push(t)[k];
                &&& id.len() > 0
                &&& trim(id) == id
                &&& forall|j: int| 0 <= j < id.len() ==> id[j] != '\n'
            } by {
                if k < prev.len() {
                    assert(prev.push(t)[k] == prev[k]);
                }
            }
        }
    }
}

/// Law: every item ID read from a file is non-empty, has no whitespace at
/// either end, and lies within one line.
pub proof fn law_item_ids_clean(content: Seq<char>)
    ensures
        forall|k: int|
            0 <= k < spec_item_ids(content).len() ==> {
                let id = #[trigger] spec_item_ids(content)[k];
                &&& id.len() > 0
                &&& trim(id) == id
                &&& forall|j: int| 0 <= j < id.len() ==> id[j] != '\n'
            },
{
    lemma_line_pieces_no_newline(content);
    lemma_nonempty_trimmed(line_pieces(content));
}


/// How a chosen path is shown: as it is when its UTF-8 form is at most 50
/// bytes, otherwise `"..."` and its last 47 bytes.
pub open spec fn spec_display_path(path: Seq<char>) -> Seq<char> {
    let bytes = vstd::utf8::encode_utf8(path);
    if bytes.len() > 50 {
        "..."@ + vstd::utf8::decode_utf8(bytes.subrange(bytes.len() - 47, bytes.len() as int))
    } else {
        path
    }
}

/// Shows a chosen path in at most 50 bytes (plus the `"..."` mark).
pub fn display_path(path: &str) -> (r: String)
    requires
        vstd::utf8::encode_utf8(path@).len() <= usize::MAX,
        vstd::utf8::encode_utf8(path@).len() > 50 ==> vstd::utf8::is_char_boundary(
            vstd::utf8::encode_utf8(path@),
            vstd::utf8::encode_utf8(path@).len() - 47,
        ),
    ensures
        r@ == spec_display_path(path@),
{
    let len = path.len();
    if len > 50 {
        let (_, tail) = path.split_at(len - 47);
        proof {
            vstd::utf8::encode_utf8_decode_utf8(tail@);
        }
        let mut r = String::new();
        r.append("...");
        r.append(tail);
        r
    } else {
        let mut r = String::new();
        r.append(path);
        r
    }
}


proof fn lemma_join_extend_last(q: Seq<Seq<char>>, sep: Seq<char>, c: char)
    requires
        q.len() > 0,
    ensures
        join(q.update(q.len() - 1, q.last().push(c)), sep) == join(q, sep).push(c),
{
    let r = q.update(q.len() - 1, q.last().push(c));
    if q.len() > 1 {
        assert(r.drop_last() == q.drop_last());
        assert(r.last() == q.last().push(c));
    }
}

/// Law: the lines of a text are the pieces between its newlines: no piece
/// holds a newline, and joining the pieces with newlines gives back the text.
pub proof fn law_lines_rebuild_text(s: Seq<char>)
    ensures
        join(line_pieces(s), seq!['\n']) == s,
        forall|i: int, j: int|
            0 <= i < line_pieces(s).len() && 0 <= j < line_pieces(s)[i].len() ==> line_pieces(
                s,
            )[i][j] != '\n',
    decreases s.len(),
{
    lemma_line_pieces_no_newline(s);
    if s.len() > 0 {
        let pre = s.drop_last();
        law_lines_rebuild_text(pre);
        lemma_line_pieces_nonempty(pre);
        let p = line_pieces(pre);
        if s.last() == '\n' {
            let q = p.push(Seq::<char>::empty());
            assert(q.drop_last() == p);
            assert(join(q, seq!['\n']) == join(p, seq!['\n']) + seq!['\n'] + Seq::<char>::empty());
            assert(s == pre.push('\n'));
        } else {
            lemma_join_extend_last(p, seq!['\n'], s.last());
            assert(s == pre.push(s.last()));
        }
    } else {
        assert(join(seq![Seq::<char>::empty()], seq!['\n']) == Seq::<char>::empty());
    }
}

proof fn lemma_nonempty_trimmed_filter(pieces: Seq<Seq<char>>)
    ensures
        nonempty_trimmed(pieces) == pieces.map_values(|p: Seq<char>| trim(p)).filter(
            |t: Seq<char>| t.len() > 0,
        ),
    decreases pieces.len(),
{
    reveal_with_fuel(Seq::<Seq<char>>::filter, 1);
    if pieces.len() > 0 {
        lemma_nonempty_trimmed_filter(pieces.drop_last());
        let m = pieces.map_values(|p: Seq<char>| trim(p));
        assert(m.drop_last() == pieces.drop_last().map_values(|p: Seq<char>| trim(p)));
        assert(m.last() == trim(pieces.last()));
    }
}

/// Law: the IDs read from a file are exactly its lines (see
/// `law_lines_rebuild_text`) trimmed, with the empty ones left out, in order:
/// every line that is not blank gives an ID, whatever its length.
pub proof fn law_item_ids_are_nonblank_lines(content: Seq<char>)
    ensures
        spec_item_ids(content) == line_pieces(content).map_values(|p: Seq<char>| trim(p)).filter(
            |t: Seq<char>| t.len() > 0,
        ),
        forall|i: int|
            0 <= i < line_pieces(content).len() && trim(#[trigger] line_pieces(content)[i]).len()
                > 0 ==> spec_item_ids(content).contains(trim(line_pieces(content)[i])),
{
    let pieces = line_pieces(content);
    lemma_nonempty_trimmed_filter(pieces);
    let m = pieces.map_values(|p: Seq<char>| trim(p));
    let pred = |t: Seq<char>| t.len() > 0;
    assert forall|i: int| 0 <= i < pieces.len() && trim(#[trigger] pieces[i]).len() > 0 implies m.filter(
        pred,
    ).contains(trim(pieces[i])) by {
        assert(m[i] == trim(pieces[i]));
        m.filter_lemma(pred);
        assert(m.contains(m[i]));
    }
}

} // verus!
