//! Overlays numbered lines onto a base sequence of lines in one linear pass:
//! a numbered line replaces the base line at its number, and numbers past
//! the end of the base are reached with blank lines.

use vstd::prelude::*;

verus! {

/// What a list of numbered lines says for each line number; where a number
/// occurs more than once, the later entry wins.
pub open spec fn entries_map(es: Seq<(usize, String)>) -> Map<int, Seq<char>>
    decreases es.len(),
{
    if es.len() == 0 {
        Map::<int, Seq<char>>::empty()
    } else {
        entries_map(es.drop_last()).insert(es.last().0 as int, es.last().1@)
    }
}

/// One past the largest line number in a list of numbered lines (0 if empty).
pub open spec fn entries_end(es: Seq<(usize, String)>) -> int
    decreases es.len(),
{
    if es.len() == 0 {
        0
    } else {
        let prev = entries_end(es.drop_last());
        let here = es.last().0 + 1;
        if prev < here {
            here
        } else {
            prev
        }
    }
}

/// Whether line numbers strictly increase.
pub open spec fn strictly_sorted(es: Seq<(usize, String)>) -> bool {
    forall|i: int, j: int| 0 <= i < j < es.len() ==> es[i].0 < es[j].0
}

/// Line `i` of the merge of `base` with the numbered lines `m`.
pub open spec fn merged_line(base: Seq<Seq<char>>, m: Map<int, Seq<char>>, i: int) -> Seq<char> {
    if m.contains_key(i) {
        m[i]
    } else if i < base.len() {
        base[i]
    } else {
        Seq::<char>::empty()
    }
}

/// The number of lines in the merge: the base's length, or one past the
/// largest line number if that is further.
pub open spec fn merged_len(base_len: int, end: int) -> int {
    if base_len < end {
        end
    } else {
        base_len
    }
}

/// Numbered lines waiting to be injected, in increasing line order.
#[derive(Debug)]
pub struct Injection {
    entries: Vec<(usize, String)>,
    pos: usize,
}

impl Injection {
    /// The entries not yet injected.
    pub closed spec fn pending(&self) -> Seq<(usize, String)> {
        self.entries@.skip(self.pos as int)
    }

    /// Well-formed: line numbers strictly increase, and none is `usize::MAX`.
    pub closed spec fn wf(&self) -> bool {
        &&& self.pos <= self.entries@.len()
        &&& strictly_sorted(self.entries@)
        &&& forall|i: int| 0 <= i < self.entries@.len() ==> (#[trigger] self.entries@[i]).0
            < usize::MAX
    }

    /// Builds an injection from numbered lines in any order.
    pub fn new(numbered_lines: Vec<(usize, String)>) -> (r: Self)
        requires
            forall|i: int|
                0 <= i < numbered_lines@.len() ==> (#[trigger] numbered_lines@[i]).0 < usize::MAX,
        ensures
            r.wf(),
            strictly_sorted(r.pending()),
            entries_map(r.pending()) == entries_map(numbered_lines@),
            r.pending().len() == 0 <==> numbered_lines@.len() == 0,
            r.pending().len() > 0 ==> r.pending().last().0 + 1 == entries_end(numbered_lines@),
    {
        let mut entries: Vec<(usize, String)> = Vec::new();
        let mut i: usize = 0;
        while i < numbered_lines.len()
            invariant
                i <= numbered_lines.len(),
                forall|j: int|
                    0 <= j < numbered_lines@.len() ==> (#[trigger] numbered_lines@[j]).0
                        < usize::MAX,
                strictly_sorted(entries@),
                forall|j: int| 0 <= j < entries@.len() ==> (#[trigger] entries@[j]).0 < usize::MAX,
                entries_map(entries@) == entries_map(numbered_lines@.take(i as int)),
                entries@.len() == 0 <==> i == 0,
                entries@.len() > 0 ==> entries@.last().0 + 1 == entries_end(
                    numbered_lines@.take(i as int),
                ),
            decreases numbered_lines.len() - i,
        {
            let key = numbered_lines[i].0;
            let line = numbered_lines[i].1.clone();
            let ghost old_entries = entries@;
            assert(numbered_lines@.take(i + 1).drop_last() == numbered_lines@.take(i as int));
            assert(numbered_lines@.take(i + 1).last() == numbered_lines@[i as int]);
            let mut p: usize = 0;
            while p < entries.len() && entries[p].0 < key
                invariant
                    p <= entries.len(),
                    forall|j: int| 0 <= j < p ==> (#[trigger] entries@[j]).0 < key,
                decreases entries.len() - p,
            {
                p = p + 1;
            }
            proof {
                lemma_entries_map_distinct(old_entries);
            }
            if p < entries.len() && entries[p].0 == key {
                entries.set(p, (key, line));
                proof {
                    lemma_map_after_replace(old_entries, p as int, key, entries@[p as int].1);
                    assert(entries@ == old_entries.update(p as int, entries@[p as int]));
                    if (p as int) < old_entries.len() - 1 {
                        assert(old_entries[p as int].0 < old_entries[old_entries.len() - 1].0);
                    }
                    assert(entries@.last().0 == old_entries.last().0);
                    assert(old_entries.last().0 >= key);
                }
            } else {
                entries.insert(p, (key, line));
                assert(strictly_sorted(entries@)) by {
                    assert forall|a: int, b: int| 0 <= a < b < entries@.len() implies entries@[a].0
                        < entries@[b].0 by {
                        if b == p as int {
                            assert(entries@[a] == old_entries[a]);
                        } else if a == p as int {
                            assert(entries@[b] == old_entries[b - 1]);
                        }
                    }
                }
                proof {
                    assert forall|j: int| 0 <= j < old_entries.len() implies old_entries[j].0
                        != key by {
                        if j >= p {
                            assert(old_entries[j].0 >= old_entries[p as int].0);
                        }
                    }
                    lemma_map_after_insert(old_entries, p as int, entries@[p as int]);
                    if (p as int) == old_entries.len() {
                        assert(entries@.last().0 == key);
                    } else {
                        assert(entries@.last() == old_entries.last());
                        assert(old_entries[p as int].0 <= old_entries[old_entries.len() - 1].0);
                        assert(old_entries.last().0 > key);
                    }
                }
            }
            proof {
                let prev = numbered_lines@.take(i as int);
                let next = numbered_lines@.take(i + 1);
                if old_entries.len() == 0 {
                    assert(prev.len() == 0);
                    assert(entries_end(prev) == 0);
                }
                assert(entries_end(next) == if entries_end(prev) < key + 1 {
                    key + 1
                } else {
                    entries_end(prev)
                });
            }
            i = i + 1;
        }
        assert(numbered_lines@.take(numbered_lines.len() as int) == numbered_lines@);
        let r = Injection { entries, pos: 0 };
        assert(r.pending() == entries@);
        r
    }

    /// The line number of the next pending entry.
    pub fn next_line_num(&self) -> (r: Option<usize>)
        requires
            self.wf(),
        ensures
            self.pending().len() == 0 ==> r.is_none(),
            self.pending().len() > 0 ==> r == Some(self.pending()[0].0),
    {
        if self.pos < self.entries.len() {
            Some(self.entries[self.pos].0)
        } else {
            None
        }
    }

    /// Takes the next pending entry's line.
    pub fn pop_next_line(&mut self) -> (r: Option<String>)
        requires
            old(self).wf(),
        ensures
            final(self).wf(),
            old(self).pending().len() == 0 ==> r.is_none() && final(self).pending() == old(
                self,
            ).pending(),
            old(self).pending().len() > 0 ==> (r matches Some(s) && s@ == old(
                self,
            ).pending()[0].1@) && final(self).pending() == old(self).pending().skip(1),
    {
        if self.pos < self.entries.len() {
            let line = self.entries[self.pos].1.clone();
            self.prepare();
            assert(self.entries@.skip(self.pos as int) == old(self).entries@.skip(
                old(self).pos as int,
            ).skip(1));
            Some(line)
        } else {
            None
        }
    }

    /// Moves past the entry that was just taken.
    fn prepare(&mut self)
        requires
            old(self).wf(),
            old(self).pos < old(self).entries@.len(),
        ensures
            final(self).wf(),
            final(self).entries@ == old(self).entries@,
            final(self).pos == old(self).pos + 1,
    {
        let n = self.entries.len();
        assert(self.pos < n);
        self.pos = self.pos + 1;
    }
}

/// For distinct line numbers, the map holds exactly the entries' lines.
pub proof fn lemma_entries_map_distinct(es: Seq<(usize, String)>)
    requires
        forall|i: int, j: int| 0 <= i < j < es.len() ==> es[i].0 != es[j].0,
    ensures
        forall|k: int| #[trigger]
            entries_map(es).contains_key(k) <==> exists|i: int| 0 <= i < es.len() && es[i].0 == k,
        forall|i: int| 0 <= i < es.len() ==> #[trigger] entries_map(es)[es[i].0 as int] == es[i].1@,
    decreases es.len(),
{
    if es.len() > 0 {
        let init = es.drop_last();
        assert(forall|i: int| 0 <= i < init.len() ==> init[i] == es[i]);
        lemma_entries_map_distinct(init);
        let m = entries_map(es);
        assert forall|k: int| #[trigger] m.contains_key(k) implies exists|i: int|
            0 <= i < es.len() && es[i].0 == k by {
            if k != es.last().0 {
                assert(entries_map(init).contains_key(k));
                let i = choose|i: int| 0 <= i < init.len() && init[i].0 == k;
                assert(es[i].0 == k);
            } else {
                assert(es[es.len() - 1].0 == k);
            }
        }
        assert forall|k: int| (exists|i: int| 0 <= i < es.len() && es[i].0 == k) implies #[trigger]
            m.contains_key(k) by {
            let i = choose|i: int| 0 <= i < es.len() && es[i].0 == k;
            if i < es.len() - 1 {
                assert(init[i].0 == k);
            }
        }
        assert forall|i: int| 0 <= i < es.len() implies #[trigger] m[es[i].0 as int]
            == es[i].1@ by {
            if i < es.len() - 1 {
                assert(init[i] == es[i]);
                assert(es[i].0 != es[es.len() - 1].0);
            }
        }
    }
}

/// Replacing the entry of a line number replaces that number's line.
pub proof fn lemma_map_after_replace(
    es: Seq<(usize, String)>,
    p: int,
    key: usize,
    line: String,
)
    requires
        strictly_sorted(es),
        0 <= p < es.len(),
        es[p].0 == key,
    ensures
        entries_map(es.update(p, (key, line))) == entries_map(es).insert(key as int, line@),
{
    let ns = es.update(p, (key, line));
    lemma_entries_map_distinct(es);
    lemma_entries_map_distinct(ns);
    let a = entries_map(ns);
    let b = entries_map(es).insert(key as int, line@);
    assert forall|k: int| a.contains_key(k) <==> b.contains_key(k) by {
        if a.contains_key(k) {
            let i = choose|i: int| 0 <= i < ns.len() && ns[i].0 == k;
            if i != p {
                assert(es[i].0 == k);
            }
        }
        if b.contains_key(k) && k != key {
            let i = choose|i: int| 0 <= i < es.len() && es[i].0 == k;
            assert(ns[i].0 == k);
        }
        if k == key {
            assert(ns[p].0 == k);
        }
    }
    assert forall|k: int| a.contains_key(k) implies a[k] == b[k] by {
        let i = choose|i: int| 0 <= i < ns.len() && ns[i].0 == k;
        assert(a[ns[i].0 as int] == ns[i].1@);
        if i != p {
            assert(ns[i] == es[i]);
            assert(entries_map(es)[es[i].0 as int] == es[i].1@);
        }
    }
    assert(a =~= b);
}

/// Inserting an entry for a new line number adds that number's line.
pub proof fn lemma_map_after_insert(es: Seq<(usize, String)>, p: int, e: (usize, String))
    requires
        strictly_sorted(es.insert(p, e)),
        0 <= p <= es.len(),
        forall|j: int| 0 <= j < es.len() ==> es[j].0 != e.0,
    ensures
        entries_map(es.insert(p, e)) == entries_map(es).insert(e.0 as int, e.1@),
{
    let ns = es.insert(p, e);
    assert(strictly_sorted(es)) by {
        assert forall|i: int, j: int| 0 <= i < j < es.len() implies es[i].0 < es[j].0 by {
            if j < p {
                assert(ns[i] == es[i] && ns[j] == es[j]);
            } else if i >= p {
                assert(ns[i + 1] == es[i] && ns[j + 1] == es[j]);
            } else {
                assert(ns[i] == es[i] && ns[j + 1] == es[j]);
            }
        }
    }
    lemma_entries_map_distinct(es);
    lemma_entries_map_distinct(ns);
    let a = entries_map(ns);
    let b = entries_map(es).insert(e.0 as int, e.1@);
    assert forall|k: int| a.contains_key(k) <==> b.contains_key(k) by {
        if a.contains_key(k) {
            let i = choose|i: int| 0 <= i < ns.len() && ns[i].0 == k;
            if i < p {
                assert(es[i].0 == k);
            } else if i > p {
                assert(es[i - 1].0 == k);
            }
        }
        if b.contains_key(k) && k != e.0 {
            let i = choose|i: int| 0 <= i < es.len() && es[i].0 == k;
            if i < p {
                assert(ns[i].0 == k);
            } else {
                assert(ns[i + 1].0 == k);
            }
        }
        if k == e.0 {
            assert(ns[p].0 == k);
        }
    }
    assert forall|k: int| a.contains_key(k) implies a[k] == b[k] by {
        let i = choose|i: int| 0 <= i < ns.len() && ns[i].0 == k;
        assert(a[ns[i].0 as int] == ns[i].1@);
        if i < p {
            assert(ns[i] == es[i]);
            assert(entries_map(es)[es[i].0 as int] == es[i].1@);
        } else if i > p {
            assert(ns[i] == es[i - 1]);
            assert(entries_map(es)[es[i - 1].0 as int] == es[i - 1].1@);
        }
    }
    assert(a =~= b);
}

/// The pending entries of a well-formed injection are strictly sorted.
proof fn lemma_pending_sorted(inj: &Injection)
    requires
        inj.wf(),
    ensures
        strictly_sorted(inj.pending()),
        forall|i: int| 0 <= i < inj.pending().len() ==> (#[trigger] inj.pending()[i]).0 < usize::MAX,
{
    let p = inj.pending();
    assert forall|i: int, j: int| 0 <= i < j < p.len() implies p[i].0 < p[j].0 by {
        assert(p[i] == inj.entries@[inj.pos + i]);
        assert(p[j] == inj.entries@[inj.pos + j]);
    }
    assert forall|i: int| 0 <= i < p.len() implies (#[trigger] p[i]).0 < usize::MAX by {
        assert(p[i] == inj.entries@[inj.pos + i]);
    }
}

/// Whether the plan and the pending entries say the same for every line
/// number from `n` on.
pub open spec fn agrees_from(plan: Map<int, Seq<char>>, pending: Seq<(usize, String)>, n: int) -> bool {
    forall|k: int|
        k >= n ==> (#[trigger] plan.contains_key(k) == entries_map(pending).contains_key(k) && (
        plan.contains_key(k) ==> plan[k] == entries_map(pending)[k]))
}

/// Merges a base sequence of lines with an injection, one line at a time.
pub struct LineInjector {
    base: Vec<String>,
    injection: Injection,
    line_num: usize,
    plan: Ghost<Map<int, Seq<char>>>,
    end: Ghost<int>,
}

impl LineInjector {
    /// The base lines.
    pub closed spec fn base_lines(&self) -> Seq<Seq<char>> {
        self.base@.map_values(|s: String| s@)
    }

    /// The numbered lines to inject, as they were when the merge began.
    pub closed spec fn plan(&self) -> Map<int, Seq<char>> {
        self.plan@
    }

    /// The number of lines that the merge yields.
    pub closed spec fn total(&self) -> int {
        merged_len(self.base@.len() as int, self.end@)
    }

    /// The number of lines yielded so far.
    pub closed spec fn position(&self) -> int {
        self.line_num as int
    }

    pub closed spec fn wf(&self) -> bool {
        &&& self.injection.wf()
        &&& agrees_from(self.plan@, self.injection.pending(), self.line_num as int)
        &&& self.line_num <= self.total()
        &&& self.total() <= usize::MAX
        &&& forall|i: int| 0 <= i < self.injection.pending().len() ==> self.line_num
            <= #[trigger] self.injection.pending()[i].0
        &&& self.injection.pending().len() > 0 ==> self.end@ == self.injection.pending().last().0
            + 1
        &&& self.injection.pending().len() == 0 ==> self.end@ <= self.line_num || self.end@ == 0
    }

    pub fn new(base: Vec<String>, injection: Injection) -> (r: Self)
        requires
            injection.wf(),
        ensures
            r.wf(),
            r.base_lines() == base@.map_values(|s: String| s@),
            r.plan() == entries_map(injection.pending()),
            r.position() == 0,
            r.total() == merged_len(
                base@.len() as int,
                if injection.pending().len() == 0 {
                    0
                } else {
                    injection.pending().last().0 + 1
                },
            ),
    {
        let base_len = base.len();
        let ghost pending = injection.pending();
        let ghost end: int = if pending.len() == 0 {
            0
        } else {
            pending.last().0 + 1
        };
        proof {
            lemma_pending_sorted(&injection);
            if pending.len() > 0 {
                assert(pending.last() == pending[pending.len() - 1]);
                assert(pending[pending.len() - 1].0 < usize::MAX);
            }
            lemma_entries_map_distinct(pending);
        }
        let r = LineInjector {
            base,
            injection,
            line_num: 0,
            plan: Ghost(entries_map(pending)),
            end: Ghost(end),
        };
        assert(r.injection.pending() == pending);
        assert(agrees_from(r.plan@, pending, 0));
        assert(r.total() <= usize::MAX);
        r
    }

    fn increment_line_num(&mut self)
        requires
            old(self).line_num < usize::MAX,
        ensures
            final(self).line_num == old(self).line_num + 1,
            final(self).base == old(self).base,
            final(self).injection == old(self).injection,
            final(self).plan == old(self).plan,
            final(self).end == old(self).end,
    {
        self.line_num = self.line_num + 1;
    }

    /// The line at the current position, taking the injected line where
    /// one is due.
    fn next_inner(&mut self) -> (r: String)
        requires
            old(self).wf(),
            old(self).line_num < old(self).total(),
        ensures
            r@ == merged_line(old(self).base_lines(), old(self).plan@, old(self).line_num as int),
            final(self).injection.wf(),
            final(self).base == old(self).base,
            final(self).line_num == old(self).line_num,
            final(self).plan == old(self).plan,
            final(self).end == old(self).end,
            final(self).injection.pending() == if old(self).plan@.contains_key(
                old(self).line_num as int,
            ) {
                old(self).injection.pending().skip(1)
            } else {
                old(self).injection.pending()
            },
            old(self).plan@.contains_key(old(self).line_num as int) ==> old(
                self,
            ).injection.pending().len() > 0 && old(self).injection.pending()[0].0
                == old(self).line_num,
    {
        let ghost pending = self.injection.pending();
        let ghost n = self.line_num as int;
        proof {
            lemma_pending_sorted(&self.injection);
            lemma_entries_map_distinct(pending);
        }
        let due = match self.injection.next_line_num() {
            Some(k) => k == self.line_num,
            None => false,
        };
        if due {
            assert(entries_map(pending).contains_key(pending[0].0 as int));
            assert(entries_map(pending)[pending[0].0 as int] == pending[0].1@);
            match self.injection.pop_next_line() {
                Some(line) => line,
                None => String::new(),
            }
        } else {
            assert(!entries_map(pending).contains_key(n)) by {
                if entries_map(pending).contains_key(n) {
                    let i = choose|i: int| 0 <= i < pending.len() && pending[i].0 == n;
                    assert(n <= pending[0].0);
                    if i > 0 {
                        assert(pending[0].0 < pending[i].0);
                    }
                }
            }
            if self.line_num < self.base.len() {
                self.base[self.line_num].clone()
            } else {
                String::new()
            }
        }
    }

    /// The next line of the merge, if any remain.
    pub fn next_line(&mut self) -> (r: Option<String>)
        requires
            old(self).wf(),
        ensures
            final(self).wf(),
            final(self).base_lines() == old(self).base_lines(),
            final(self).plan() == old(self).plan(),
            final(self).total() == old(self).total(),
            old(self).position() < old(self).total() ==> (r matches Some(s) && s@ == merged_line(
                old(self).base_lines(),
                old(self).plan(),
                old(self).position(),
            )) && final(self).position() == old(self).position() + 1,
            old(self).position() >= old(self).total() ==> r.is_none() && final(self).position()
                == old(self).position(),
    {
        if self.line_num >= self.total_exec() {
            return None;
        }
        let ghost before = self.injection.pending();
        let ghost n = self.line_num as int;
        proof {
            lemma_pending_sorted(&self.injection);
            lemma_entries_map_distinct(before);
        }
        let line = self.next_inner();
        self.increment_line_num();
        proof {
            let p = self.injection.pending();
            let popped = self.plan@.contains_key(n);
            lemma_pending_sorted(&self.injection);
            lemma_entries_map_distinct(p);
            if popped {
                assert(forall|i: int| 0 <= i < p.len() ==> p[i] == before[i + 1]);
            }
            assert forall|i: int| 0 <= i < p.len() implies self.line_num <= #[trigger] p[i].0 by {
                if popped {
                    assert(p[i] == before[i + 1]);
                    assert(before[0].0 < before[i + 1].0);
                } else {
                    assert(p[i] == before[i]);
                    if p[i].0 == n {
                        assert(entries_map(before).contains_key(n));
                    }
                }
            }
            if p.len() > 0 {
                assert(p.last() == before.last());
            }
            assert forall|k: int| k >= self.line_num implies (#[trigger] self.plan@.contains_key(k)
                == entries_map(p).contains_key(k) && (self.plan@.contains_key(k)
                ==> self.plan@[k] == entries_map(p)[k])) by {
                assert(self.plan@.contains_key(k) == entries_map(before).contains_key(k));
                if entries_map(before).contains_key(k) {
                    let i = choose|i: int| 0 <= i < before.len() && before[i].0 == k;
                    assert(entries_map(before)[before[i].0 as int] == before[i].1@);
                    if popped {
                        assert(i != 0);
                        assert(p[i - 1] == before[i]);
                        assert(entries_map(p)[p[i - 1].0 as int] == p[i - 1].1@);
                    } else {
                        assert(p[i] == before[i]);
                        assert(entries_map(p)[p[i].0 as int] == p[i].1@);
                    }
                }
                if entries_map(p).contains_key(k) {
                    let j = choose|j: int| 0 <= j < p.len() && p[j].0 == k;
                    if popped {
                        assert(p[j] == before[j + 1]);
                    } else {
                        assert(p[j] == before[j]);
                    }
                }
            }
            if p.len() == 0 && before.len() > 0 {
                assert(before.len() == 1);
                assert(before.last() == before[0]);
            }
        }
        Some(line)
    }

    fn total_exec(&self) -> (r: usize)
        requires
            self.wf(),
        ensures
            r == self.total(),
    {
        let n = self.base.len();
        if self.injection.pos < self.injection.entries.len() {
            let end = self.injection.entries[self.injection.entries.len() - 1].0 + 1;
            proof {
                let p = self.injection.pending();
                assert(p.last() == self.injection.entries@[self.injection.entries@.len() - 1]);
            }
            if n < end {
                end
            } else {
                n
            }
        } else {
            self.total_when_done()
        }
    }

    fn total_when_done(&self) -> (r: usize)
        requires
            self.wf(),
            self.injection.pending().len() == 0,
        ensures
            r == self.total(),
    {
        let n = self.base.len();
        if n >= self.line_num {
            proof {
                assert(self.end@ <= n);
            }
            n
        } else {
            self.line_num
        }
    }

    /// All remaining lines of the merge, in order.
    pub fn collect_lines(self) -> (r: Vec<String>)
        requires
            self.wf(),
        ensures
            r@.len() == self.total() - self.position(),
            forall|i: int|
                0 <= i < r@.len() ==> (#[trigger] r@[i])@ == merged_line(
                    self.base_lines(),
                    self.plan(),
                    self.position() + i,
                ),
    {
        let mut it = self;
        let ghost start = it.position();
        let ghost total = it.total();
        let ghost base = it.base_lines();
        let ghost plan = it.plan();
        let mut out: Vec<String> = Vec::new();
        while it.line_num < it.total_exec()
            invariant
                it.wf(),
                it.base_lines() == base,
                it.plan() == plan,
                it.total() == total,
                start <= it.position() <= total,
                out@.len() == it.position() - start,
                forall|i: int|
                    0 <= i < out@.len() ==> (#[trigger] out@[i])@ == merged_line(
                        base,
                        plan,
                        start + i,
                    ),
            decreases total - it.position(),
        {
            match it.next_line() {
                Some(line) => {
                    out.push(line);
                },
                None => {},
            }
        }
        out
    }
}

} // verus!
