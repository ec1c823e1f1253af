//! The change log: one operation per line, oldest first. Lines that cannot be
//! read are kept as they are, so rewriting the log never loses them.
use vstd::prelude::*;
use crate::model::{KindView, Operation, Timestamp};

verus! {

/// An operation as the log sees it.
pub type OpView = (Seq<char>, KindView, Timestamp);

/// One line of the log.
#[derive(Debug)]
pub enum LogLine {
    /// A recorded operation.
    Entry(Operation),
    /// A line that does not read as an operation, kept verbatim.
    Unreadable(String),
}

impl View for LogLine {
    type V = Result<OpView, Seq<char>>;

    open spec fn view(&self) -> Result<OpView, Seq<char>> {
        match self {
            LogLine::Entry(op) => Ok(op@),
            LogLine::Unreadable(t) => Err(t@),
        }
    }
}

/// The views of some log lines.
pub open spec fn line_views(lines: Seq<LogLine>) -> Seq<Result<OpView, Seq<char>>> {
    lines.map_values(|l: LogLine| l@)
}

/// The operations a log holds, oldest first.
pub open spec fn entries_of(lines: Seq<Result<OpView, Seq<char>>>) -> Seq<OpView>
    decreases lines.len(),
{
    if lines.len() == 0 {
        Seq::empty()
    } else {
        entries_of(lines.drop_last()) + match lines.last() {
            Ok(op) => seq![op],
            Err(_) => Seq::empty(),
        }
    }
}

/// The index of the last line that holds an operation, or -1.
pub open spec fn last_entry(lines: Seq<Result<OpView, Seq<char>>>) -> int
    decreases lines.len(),
{
    if lines.len() == 0 {
        -1
    } else if lines.last() is Ok {
        lines.len() - 1
    } else {
        last_entry(lines.drop_last())
    }
}

/// `last_entry` finds the newest operation, and there is one exactly when the
/// log holds any.
pub proof fn lemma_last_entry(lines: Seq<Result<OpView, Seq<char>>>)
    ensures
        -1 <= last_entry(lines) < lines.len(),
        (last_entry(lines) >= 0) == (entries_of(lines).len() > 0),
        last_entry(lines) >= 0 ==> lines[last_entry(lines)] == Ok::<OpView, Seq<char>>(
            entries_of(lines).last(),
        ),
        forall|i: int| last_entry(lines) < i < lines.len() ==> (#[trigger] lines[i]) is Err,
    decreases lines.len(),
{
    if lines.len() > 0 {
        lemma_last_entry(lines.drop_last());
        if lines.last() is Err {
            assert forall|i: int| last_entry(lines) < i < lines.len() implies (
            #[trigger] lines[i]) is Err by {
                if i < lines.len() - 1 {
                    assert(lines.drop_last()[i] == lines[i]);
                }
            }
        }
    }
}

/// Taking out the newest operation's line takes out the newest operation and
/// nothing else.
pub proof fn lemma_remove_last_entry(lines: Seq<Result<OpView, Seq<char>>>)
    requires
        last_entry(lines) >= 0,
    ensures
        entries_of(lines.remove(last_entry(lines))) == entries_of(lines).drop_last(),
    decreases lines.len(),
{
    let k = last_entry(lines);
    let rest = lines.drop_last();
    lemma_last_entry(rest);
    if lines.last() is Ok {
        assert(lines.remove(k) =~= rest);
    } else {
        lemma_remove_last_entry(rest);
        let shorter = lines.remove(k);
        assert(shorter.drop_last() =~= rest.remove(k));
        assert(shorter.last() == lines.last());
    }
}

/// The operations of a list, as views.
pub open spec fn op_views(ops: Seq<Operation>) -> Seq<OpView> {
    ops.map_values(|o: Operation| o@)
}

/// A log file's path and what it holds.
pub struct History {
    path: String,
    lines: Vec<LogLine>,
}

impl View for History {
    type V = (Seq<char>, Seq<Result<OpView, Seq<char>>>);

    closed spec fn view(&self) -> (Seq<char>, Seq<Result<OpView, Seq<char>>>) {
        (self.path@, line_views(self.lines@))
    }
}

impl History {
    /// The operations this log holds, oldest first.
    pub open spec fn entries(&self) -> Seq<OpView> {
        entries_of(self@.1)
    }

    /// An empty log kept at `path`.
    pub fn new(path: String) -> (h: History)
        ensures
            h@.0 == path@,
            h@.1 == Seq::<Result<OpView, Seq<char>>>::empty(),
    {
        let h = History { path, lines: Vec::new() };
        assert(line_views(h.lines@) =~= Seq::<Result<OpView, Seq<char>>>::empty());
        h
    }

    /// The log kept at `path`, holding `lines` as read from it.
    pub fn loaded(path: String, lines: Vec<LogLine>) -> (h: History)
        ensures
            h@.0 == path@,
            h@.1 == line_views(lines@),
    {
        History { path, lines }
    }

    /// Where the log is kept.
    pub fn path(&self) -> (p: &String)
        ensures
            p@ == self@.0,
    {
        &self.path
    }

    /// Every line, in order, as it is to be written back.
    pub fn lines(&self) -> (l: &Vec<LogLine>)
        ensures
            line_views(l@) == self@.1,
    {
        &self.lines
    }

    /// How many operations the log holds.
    pub fn len(&self) -> (n: usize)
        ensures
            n == self.entries().len(),
    {
        let mut n: usize = 0;
        let mut i: usize = 0;
        while i < self.lines.len()
            invariant
                i <= self.lines.len(),
                n == entries_of(line_views(self.lines@).take(i as int)).len(),
                n <= i,
            decreases self.lines.len() - i,
        {
            let ghost lv = line_views(self.lines@);
            assert(lv.take(i + 1).drop_last() =~= lv.take(i as int));
            match &self.lines[i] {
                LogLine::Entry(_) => {
                    n = n + 1;
                },
                LogLine::Unreadable(_) => {},
            }
            i = i + 1;
        }
        assert(line_views(self.lines@).take(self.lines.len() as int) =~= line_views(
            self.lines@,
        ));
        n
    }

    /// The operations from the `from`-th line on, oldest first, skipping the first `skip` of them.
    fn collect_from(&self, skip: usize) -> (ops: Vec<Operation>)
        requires
            skip <= self.entries().len(),
        ensures
            op_views(ops@) == self.entries().skip(skip as int),
    {
        let ghost lv = line_views(self.lines@);
        let mut ops: Vec<Operation> = Vec::new();
        let mut seen: usize = 0;
        let mut i: usize = 0;
        while i < self.lines.len()
            invariant
                i <= self.lines.len(),
                lv == line_views(self.lines@),
                skip <= entries_of(lv).len(),
                seen == entries_of(lv.take(i as int)).len(),
                seen <= i,
                op_views(ops@) == if seen <= skip {
                    Seq::<OpView>::empty()
                } else {
                    entries_of(lv.take(i as int)).skip(skip as int)
                },
            decreases self.lines.len() - i,
        {
            assert(lv.take(i + 1).drop_last() =~= lv.take(i as int));
            proof {
                lemma_entries_prefix(lv, i + 1);
            }
            match &self.lines[i] {
                LogLine::Entry(op) => {
                    let ghost before = ops@;
                    if seen >= skip {
                        ops.push(op.copy());
                        assert(op_views(ops@) =~= op_views(before).push(op@));
                    }
                    seen = seen + 1;
                    assert(entries_of(lv.take(i + 1)) =~= entries_of(lv.take(i as int)).push(
                        op@,
                    ));
                    if seen > skip {
                        assert(op_views(ops@) =~= entries_of(lv.take(i + 1)).skip(skip as int));
                    }
                },
                LogLine::Unreadable(_) => {},
            }
            i = i + 1;
        }
        assert(lv.take(self.lines.len() as int) =~= lv);
        if seen <= skip {
            assert(self.entries().skip(skip as int) =~= Seq::<OpView>::empty());
        }
        ops
    }

    /// Every operation, oldest first.
    pub fn read_all(&self) -> (ops: Vec<Operation>)
        ensures
            op_views(ops@) == self.entries(),
    {
        let ops = self.collect_from(0);
        assert(self.entries().skip(0) =~= self.entries());
        ops
    }

    /// The newest `n` operations (all of them if there are fewer), oldest first.
    pub fn read_recent(&self, n: usize) -> (ops: Vec<Operation>)
        ensures
            op_views(ops@) == self.entries().skip(
                self.entries().len() - if n < self.entries().len() {
                    n as int
                } else {
                    self.entries().len() as int
                },
            ),
    {
        let total = self.len();
        let skip = if n < total {
            total - n
        } else {
            0
        };
        self.collect_from(skip)
    }

    /// The newest operation, if any.
    pub fn last(&self) -> (op: Option<Operation>)
        ensures
            op is Some == (self.entries().len() > 0),
            op matches Some(o) ==> o@ == self.entries().last(),
    {
        proof {
            lemma_last_entry(self@.1);
        }
        let mut i = self.lines.len();
        while i > 0
            invariant
                i <= self.lines.len(),
                forall|q: int| i <= q < self.lines.len() ==> (#[trigger] self@.1[q]) is Err,
            decreases i,
        {
            match &self.lines[i - 1] {
                LogLine::Entry(op) => {
                    proof {
                        lemma_last_entry(self@.1);
                        assert(self@.1[i - 1] is Ok);
                        assert(last_entry(self@.1) == i - 1);
                    }
                    return Some(op.copy());
                },
                LogLine::Unreadable(_) => {},
            }
            i = i - 1;
        }
        None
    }

    /// Adds `op` as the newest line.
    pub fn append(&mut self, op: Operation)
        ensures
            final(self)@.0 == old(self)@.0,
            final(self)@.1 == old(self)@.1.push(Ok::<OpView, Seq<char>>(op@)),
    {
        let ghost v = op@;
        self.lines.push(LogLine::Entry(op));
        assert(line_views(self.lines@) =~= line_views(old(self).lines@).push(Ok(v)));
    }

    /// Takes out the newest operation's line and gives the operation back;
    /// every other line stays, unreadable ones included.
    pub fn pop(&mut self) -> (op: Option<Operation>)
        ensures
            final(self)@.0 == old(self)@.0,
            op is Some == (old(self).entries().len() > 0),
            op is None ==> final(self)@ == old(self)@,
            op matches Some(o) ==> {
                &&& o@ == old(self).entries().last()
                &&& final(self)@.1 == old(self)@.1.remove(last_entry(old(self)@.1))
            },
    {
        proof {
            lemma_last_entry(self@.1);
        }
        let mut i = self.lines.len();
        while i > 0
            invariant
                i <= self.lines.len(),
                self.lines@ == old(self).lines@,
                self.path == old(self).path,
                forall|q: int| i <= q < self.lines.len() ==> (#[trigger] self@.1[q]) is Err,
            decreases i,
        {
            let is_entry = match &self.lines[i - 1] {
                LogLine::Entry(_) => true,
                LogLine::Unreadable(_) => false,
            };
            if is_entry {
                proof {
                    lemma_last_entry(self@.1);
                    assert(self@.1[i - 1] is Ok);
                    assert(last_entry(self@.1) == i - 1);
                }
                let line = self.lines.remove(i - 1);
                assert(line_views(self.lines@) =~= line_views(old(self).lines@).remove(i - 1));
                match line {
                    LogLine::Entry(op) => {
                        return Some(op);
                    },
                    LogLine::Unreadable(_) => {
                        return None;
                    },
                }
            }
            i = i - 1;
        }
        proof {
            lemma_last_entry(self@.1);
            if last_entry(self@.1) >= 0 {
                assert(self@.1[last_entry(self@.1)] is Err);
            }
        }
        None
    }

    /// Removes every line.
    pub fn clear(&mut self)
        ensures
            final(self)@.0 == old(self)@.0,
            final(self)@.1 == Seq::<Result<OpView, Seq<char>>>::empty(),
    {
        self.lines = Vec::new();
        assert(line_views(self.lines@) =~= Seq::<Result<OpView, Seq<char>>>::empty());
    }
}

/// The operations of a prefix grow one line at a time.
proof fn lemma_entries_prefix(lines: Seq<Result<OpView, Seq<char>>>, m: int)
    requires
        0 < m <= lines.len(),
    ensures
        entries_of(lines.take(m)) == entries_of(lines.take(m - 1)) + match lines[m - 1] {
            Ok(op) => seq![op],
            Err(_) => Seq::<OpView>::empty(),
        },
{
    assert(lines.take(m).drop_last() =~= lines.take(m - 1));
    assert(lines.take(m).last() == lines[m - 1]);
}

/// What a read gives back of a write: the newest operation after an append is
/// the one appended, and taking it out again leaves the operations as they were.
pub proof fn lemma_append_then_pop(lines: Seq<Result<OpView, Seq<char>>>, op: OpView)
    ensures
        entries_of(lines.push(Ok(op))) == entries_of(lines).push(op),
        last_entry(lines.push(Ok(op))) == lines.len(),
        lines.push(Ok::<OpView, Seq<char>>(op)).remove(lines.len() as int) == lines,
{
    assert(lines.push(Ok::<OpView, Seq<char>>(op)).drop_last() =~= lines);
    assert(lines.push(Ok::<OpView, Seq<char>>(op)).remove(lines.len() as int) =~= lines);
}

/// Taking out the newest operation leaves every other operation, in order,
/// and every unreadable line.
pub proof fn lemma_pop_keeps_the_rest(lines: Seq<Result<OpView, Seq<char>>>)
    requires
        entries_of(lines).len() > 0,
    ensures
        entries_of(lines.remove(last_entry(lines))) == entries_of(lines).drop_last(),
        forall|i: int|
            0 <= i < lines.len() && (#[trigger] lines[i]) is Err ==> lines.remove(
                last_entry(lines),
            ).contains(lines[i]),
{
    lemma_last_entry(lines);
    lemma_remove_last_entry(lines);
    let k = last_entry(lines);
    assert forall|i: int|
        0 <= i < lines.len() && (#[trigger] lines[i]) is Err implies lines.remove(k).contains(
        lines[i]) by {
        if i < k {
            assert(lines.remove(k)[i] == lines[i]);
        } else {
            assert(lines.remove(k)[i - 1] == lines[i]);
        }
    }
}

/// The newest `k` operations end at the newest one.
pub proof fn lemma_recent_ends_at_newest(ops: Seq<OpView>, k: int)
    requires
        0 < k <= ops.len(),
    ensures
        ops.skip(ops.len() - k).len() == k,
        ops.skip(ops.len() - k).last() == ops.last(),
{
}

} // verus!
