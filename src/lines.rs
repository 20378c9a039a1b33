//! A table file as lines, and the line-level mutations: keyed insert,
//! keyed delete and append.

use vstd::prelude::*;

use crate::codec::{encode_row, row_line, row_view, Value};
use crate::error::StoreError;
use crate::line_injector::{entries_map, entries_end, merged_line, merged_len, Injection, LineInjector};
use crate::text::{push_char, push_str, split_on, split_str, views};

verus! {

/// The lines of a text: its pieces between newlines, without the empty
/// piece after a final newline.
pub open spec fn lines_of(text: Seq<char>) -> Seq<Seq<char>> {
    let p = split_on(text, '\n');
    if p.last().len() == 0 {
        p.drop_last()
    } else {
        p
    }
}

/// The text of lines, each followed by a newline.
pub open spec fn text_of(lines: Seq<Seq<char>>) -> Seq<char>
    decreases lines.len(),
{
    if lines.len() == 0 {
        Seq::<char>::empty()
    } else {
        text_of(lines.drop_last()) + lines.last().push('\n')
    }
}

/// The lines of a text.
pub fn split_lines(text: &str) -> (r: Vec<String>)
    ensures
        views(r@) == lines_of(text@),
{
    let mut pieces = split_str(text, '\n');
    proof {
        crate::text::lemma_split_nonempty(text@, '\n');
    }
    let n = pieces.len();
    if crate::text::chars_of(pieces[n - 1].as_str()).len() == 0 {
        let ghost before = views(pieces@);
        pieces.pop();
        assert(views(pieces@) == before.drop_last());
    }
    pieces
}

/// The text of lines, each followed by a newline.
pub fn join_lines(lines: &Vec<String>) -> (r: String)
    ensures
        r@ == text_of(views(lines@)),
{
    let mut r = String::new();
    let mut i: usize = 0;
    while i < lines.len()
        invariant
            i <= lines.len(),
            r@ == text_of(views(lines@).take(i as int)),
        decreases lines.len() - i,
    {
        assert(views(lines@).take(i + 1).drop_last() == views(lines@).take(i as int));
        push_str(&mut r, lines[i].as_str());
        push_char(&mut r, '\n');
        i = i + 1;
        assert(views(lines@).take(i as int).last() == lines@[i - 1]@);
    }
    assert(views(lines@).take(lines.len() as int) == views(lines@));
    r
}

/// A key that addresses a row by its ordinal.
#[derive(Debug, Clone, Copy, PartialEq, Eq, Structural)]
pub enum Key {
    I32(i32),
    /// A key of any other kind.
    Other,
}

/// The row ordinal that a key denotes: a non-negative 32-bit integer.
pub open spec fn key_ordinal(key: Key) -> Option<int> {
    match key {
        Key::I32(x) => if x >= 0 {
            Some(x as int)
        } else {
            None
        },
        Key::Other => None,
    }
}

/// The row ordinal that a key denotes.
pub fn get_row_num(key: &Key) -> (r: Result<usize, StoreError>)
    ensures
        match r {
            Ok(n) => key_ordinal(*key) == Some(n as int),
            Err(e) => key_ordinal(*key).is_none() && e == StoreError::InvalidKey,
        },
{
    match key {
        Key::I32(x) => if *x >= 0 {
            Ok(*x as usize)
        } else {
            Err(StoreError::InvalidKey)
        },
        Key::Other => Err(StoreError::InvalidKey),
    }
}

/// Whether every key of keyed rows denotes a row ordinal.
pub open spec fn keys_valid(rows: Seq<(Key, Vec<Value>)>) -> bool {
    forall|i: int| 0 <= i < rows.len() ==> (#[trigger] key_ordinal(rows[i].0)).is_some()
}

/// Whether every row of keyed rows has a line.
pub open spec fn keyed_rows_encode(rows: Seq<(Key, Vec<Value>)>) -> bool {
    forall|i: int| 0 <= i < rows.len() ==> (#[trigger] row_line(row_view(rows[i].1@))) is Ok
}

/// Whether keyed rows can be inserted: every key is an ordinal and every
/// row has a line.
pub open spec fn insert_ok(rows: Seq<(Key, Vec<Value>)>) -> bool {
    keys_valid(rows) && keyed_rows_encode(rows)
}

/// Why keyed rows cannot be inserted: an invalid key, else the failure of
/// a row that has no line.
pub open spec fn insert_fails_with(rows: Seq<(Key, Vec<Value>)>, e: StoreError) -> bool {
    if !keys_valid(rows) {
        e == StoreError::InvalidKey
    } else {
        exists|j: int|
            0 <= j < rows.len() && #[trigger] row_line(row_view(rows[j].1@)) == Err::<
                Seq<char>,
                StoreError,
            >(e)
    }
}

/// The numbered lines that keyed rows become: each row's line at its
/// ordinal plus one, past the header.
pub open spec fn injection_of(rows: Seq<(Key, Vec<Value>)>) -> Map<int, Seq<char>>
    decreases rows.len(),
{
    if rows.len() == 0 {
        Map::<int, Seq<char>>::empty()
    } else {
        let r = rows.last();
        injection_of(rows.drop_last()).insert(
            key_ordinal(r.0)->Some_0 + 1,
            row_line(row_view(r.1@))->Ok_0,
        )
    }
}

/// One past the largest line number that keyed rows go to.
pub open spec fn injection_end(rows: Seq<(Key, Vec<Value>)>) -> int
    decreases rows.len(),
{
    if rows.len() == 0 {
        0
    } else {
        let prev = injection_end(rows.drop_last());
        let here = key_ordinal(rows.last().0)->Some_0 + 2;
        if prev < here {
            here
        } else {
            prev
        }
    }
}

/// The lines of a table after keyed rows are written over it.
pub open spec fn inserted_lines(base: Seq<Seq<char>>, rows: Seq<(Key, Vec<Value>)>) -> Seq<
    Seq<char>,
> {
    let m = injection_of(rows);
    Seq::new(
        merged_len(base.len() as int, injection_end(rows)) as nat,
        |i: int| merged_line(base, m, i),
    )
}

/// Writes keyed rows over the lines of a table in one merge pass: each row
/// replaces the line of its ordinal (the header is line 0), ordinals past
/// the end are reached with blank lines, and where two rows share an
/// ordinal the later one wins.
pub fn insert_lines(base: Vec<String>, rows: &Vec<(Key, Vec<Value>)>) -> (r: Result<
    Vec<String>,
    StoreError,
>)
    ensures
        match r {
            Ok(out) => insert_ok(rows@) && views(out@) == inserted_lines(views(base@), rows@),
            Err(e) => !insert_ok(rows@) && insert_fails_with(rows@, e),
        },
{
    let mut ordinals: Vec<usize> = Vec::new();
    let mut k: usize = 0;
    while k < rows.len()
        invariant
            k <= rows.len(),
            ordinals@.len() == k,
            forall|j: int|
                0 <= j < k ==> key_ordinal(rows@[j].0) == Some(#[trigger] ordinals@[j] as int),
        decreases rows.len() - k,
    {
        match get_row_num(&rows[k].0) {
            Ok(n) => {
                ordinals.push(n);
            },
            Err(e) => {
                assert(key_ordinal(rows@[k as int].0).is_none());
                return Err(e);
            },
        }
        k = k + 1;
    }
    assert(keys_valid(rows@)) by {
        assert forall|j: int| 0 <= j < rows@.len() implies (#[trigger] key_ordinal(
            rows@[j].0,
        )).is_some() by {
            assert(key_ordinal(rows@[j].0) == Some(ordinals@[j] as int));
        }
    }
    let mut numbered: Vec<(usize, String)> = Vec::new();
    let mut i: usize = 0;
    while i < rows.len()
        invariant
            i <= rows.len(),
            keys_valid(rows@),
            ordinals@.len() == rows@.len(),
            forall|j: int|
                0 <= j < rows@.len() ==> key_ordinal(rows@[j].0) == Some(
                    #[trigger] ordinals@[j] as int,
                ),
            keyed_rows_encode(rows@.take(i as int)),
            numbered@.len() == i,
            forall|j: int| 0 <= j < i ==> (#[trigger] numbered@[j]).0 < usize::MAX,
            entries_map(numbered@) == injection_of(rows@.take(i as int)),
            entries_end(numbered@) == injection_end(rows@.take(i as int)),
        decreases rows.len() - i,
    {
        let ghost prev = rows@.take(i as int);
        let ghost next = rows@.take(i + 1);
        assert(next.drop_last() == prev);
        assert(next.last() == rows@[i as int]);
        let n = ordinals[i];
        assert(n as int == key_ordinal(rows@[i as int].0)->Some_0);
        assert(n <= i32::MAX) by {
            assert(key_ordinal(rows@[i as int].0) == Some(n as int));
        }
        let line = match encode_row(&rows[i].1) {
            Ok(l) => l,
            Err(e) => {
                assert(row_line(row_view(rows@[i as int].1@)) == Err::<Seq<char>, StoreError>(e));
                return Err(e);
            },
        };
        let ghost before = numbered@;
        numbered.push((n + 1, line));
        assert(numbered@.drop_last() == before);
        assert(keyed_rows_encode(next)) by {
            assert forall|j: int| 0 <= j < next.len() implies (#[trigger] row_line(
                row_view(next[j].1@),
            )) is Ok by {
                if j < i {
                    assert(next[j] == prev[j]);
                }
            }
        }
        i = i + 1;
    }
    assert(rows@.take(rows.len() as int) == rows@);
    let injection = Injection::new(numbered);
    let injector = LineInjector::new(base, injection);
    let out = injector.collect_lines();
    assert(views(out@) == inserted_lines(views(base@), rows@));
    Ok(out)
}

/// Whether every key of a list denotes a row ordinal.
pub open spec fn all_keys_valid(keys: Seq<Key>) -> bool {
    forall|i: int| 0 <= i < keys.len() ==> (#[trigger] key_ordinal(keys[i])).is_some()
}

/// Whether line `i` of a table (line 0 is the header) holds a row that
/// one of the keys addresses.
pub open spec fn targeted(keys: Seq<Key>, i: int) -> bool {
    i >= 1 && exists|j: int| 0 <= j < keys.len() && key_ordinal(#[trigger] keys[j]) == Some(i - 1)
}

/// The lines of a table that no key addresses, in order.
pub open spec fn surviving(lines: Seq<Seq<char>>, keys: Seq<Key>) -> Seq<Seq<char>>
    decreases lines.len(),
{
    if lines.len() == 0 {
        lines
    } else {
        let prev = surviving(lines.drop_last(), keys);
        if targeted(keys, lines.len() - 1) {
            prev
        } else {
            prev.push(lines.last())
        }
    }
}

/// The positions of the lines that survive, in increasing order.
pub open spec fn survivors(n: nat, keys: Seq<Key>) -> Seq<int>
    decreases n,
{
    if n == 0 {
        Seq::<int>::empty()
    } else {
        let prev = survivors((n - 1) as nat, keys);
        if targeted(keys, n - 1) {
            prev
        } else {
            prev.push(n - 1)
        }
    }
}

/// Removes the rows that the keys address from the lines of a table; the
/// header and every other line are kept, in order.
pub fn delete_lines(lines: Vec<String>, keys: &Vec<Key>) -> (r: Result<Vec<String>, StoreError>)
    ensures
        match r {
            Ok(out) => all_keys_valid(keys@) && views(out@) == surviving(views(lines@), keys@),
            Err(e) => !all_keys_valid(keys@) && e == StoreError::InvalidKey,
        },
{
    let mut targets: Vec<usize> = Vec::new();
    let mut k: usize = 0;
    while k < keys.len()
        invariant
            k <= keys.len(),
            targets@.len() == k,
            forall|j: int| 0 <= j < k ==> key_ordinal(keys@[j]) == Some(#[trigger] targets@[j] as int),
        decreases keys.len() - k,
    {
        match get_row_num(&keys[k]) {
            Ok(n) => {
                targets.push(n);
            },
            Err(e) => {
                assert(key_ordinal(keys@[k as int]).is_none());
                return Err(e);
            },
        }
        k = k + 1;
    }
    let mut out: Vec<String> = Vec::new();
    let ghost lv = views(lines@);
    let mut i: usize = 0;
    assert(lv.take(0) == Seq::<Seq<char>>::empty());
    while i < lines.len()
        invariant
            i <= lines.len(),
            lv == views(lines@),
            targets@.len() == keys@.len(),
            forall|j: int|
                0 <= j < keys@.len() ==> key_ordinal(keys@[j]) == Some(#[trigger] targets@[j] as int),
            views(out@) == surviving(lv.take(i as int), keys@),
        decreases lines.len() - i,
    {
        assert(lv.take(i + 1).drop_last() == lv.take(i as int));
        assert(lv.take(i + 1).last() == lines@[i as int]@);
        let mut hit = false;
        if i >= 1 {
            let mut t: usize = 0;
            while t < targets.len()
                invariant
                    1 <= i,
                    t <= targets.len(),
                    targets@.len() == keys@.len(),
                    forall|j: int|
                        0 <= j < keys@.len() ==> key_ordinal(keys@[j]) == Some(
                            #[trigger] targets@[j] as int,
                        ),
                    hit == exists|j: int| 0 <= j < t && targets@[j] == i - 1,
                decreases targets.len() - t,
            {
                if targets[t] == i - 1 {
                    hit = true;
                }
                t = t + 1;
            }
            assert(hit == targeted(keys@, i as int)) by {
                if hit {
                    let j = choose|j: int| 0 <= j < t && targets@[j] == i - 1;
                    assert(key_ordinal(keys@[j]) == Some(i - 1));
                }
                if targeted(keys@, i as int) {
                    let j = choose|j: int|
                        0 <= j < keys@.len() && key_ordinal(#[trigger] keys@[j]) == Some(i - 1);
                    assert(targets@[j] == i - 1);
                }
            }
        }
        if !hit {
            let ghost before = views(out@);
            out.push(lines[i].clone());
            assert(views(out@) == before.push(lines@[i as int]@));
        }
        i = i + 1;
    }
    assert(lv.take(lines.len() as int) == lv);
    assert(all_keys_valid(keys@)) by {
        assert forall|j: int| 0 <= j < keys@.len() implies (#[trigger] key_ordinal(keys@[j])).is_some() by {
            assert(key_ordinal(keys@[j]) == Some(targets@[j] as int));
        }
    }
    Ok(out)
}

/// Whether every row has a line.
pub open spec fn rows_encode(rows: Seq<Vec<Value>>) -> bool {
    forall|i: int| 0 <= i < rows.len() ==> (#[trigger] row_line(row_view(rows[i]@))) is Ok
}

/// The lines of rows.
pub open spec fn rows_lines(rows: Seq<Vec<Value>>) -> Seq<Seq<char>> {
    Seq::new(rows.len(), |i: int| row_line(row_view(rows[i]@))->Ok_0)
}

/// The text that appending rows adds to a table's file: one line per row,
/// in order.
pub fn append_text(rows: &Vec<Vec<Value>>) -> (r: Result<String, StoreError>)
    ensures
        match r {
            Ok(t) => rows_encode(rows@) && t@ == text_of(rows_lines(rows@)),
            Err(e) => exists|j: int|
                0 <= j < rows@.len() && #[trigger] row_line(row_view(rows@[j]@)) == Err::<
                    Seq<char>,
                    StoreError,
                >(e),
        },
{
    let mut lines: Vec<String> = Vec::new();
    let mut i: usize = 0;
    while i < rows.len()
        invariant
            i <= rows.len(),
            lines@.len() == i,
            forall|j: int|
                0 <= j < i ==> row_line(row_view(rows@[j]@)) == Ok::<Seq<char>, StoreError>(
                    (#[trigger] lines@[j])@,
                ),
        decreases rows.len() - i,
    {
        match encode_row(&rows[i]) {
            Ok(l) => {
                lines.push(l);
            },
            Err(e) => {
                return Err(e);
            },
        }
        i = i + 1;
    }
    assert(views(lines@) == rows_lines(rows@));
    assert(rows_encode(rows@)) by {
        assert forall|j: int| 0 <= j < rows@.len() implies (#[trigger] row_line(
            row_view(rows@[j]@),
        )) is Ok by {
            assert(row_line(row_view(rows@[j]@)) == Ok::<Seq<char>, StoreError>(lines@[j]@));
        }
    }
    Ok(join_lines(&lines))
}

/// Splitting the text of lines (none holding a newline) followed by more
/// text gives the lines, then the pieces of that text.
pub proof fn lemma_split_text_of(ls: Seq<Seq<char>>, t: Seq<char>)
    requires
        forall|i: int| 0 <= i < ls.len() ==> !(#[trigger] ls[i]).contains('\n'),
    ensures
        split_on(text_of(ls) + t, '\n') == ls + split_on(t, '\n'),
    decreases ls.len(),
{
    if ls.len() == 0 {
        assert(text_of(ls) + t == t);
        assert(ls + split_on(t, '\n') == split_on(t, '\n'));
    } else {
        let init = ls.drop_last();
        let l = ls.last();
        assert(forall|i: int| 0 <= i < init.len() ==> init[i] == ls[i]);
        assert(!l.contains('\n')) by {
            assert(l == ls[ls.len() - 1]);
        }
        let rest = l + seq!['\n'] + t;
        assert(text_of(ls) + t == text_of(init) + rest);
        lemma_split_text_of(init, rest);
        crate::text::lemma_split_concat(l, t, '\n');
        crate::text::lemma_split_single(l, '\n');
        assert(init + (seq![l] + split_on(t, '\n')) == ls + split_on(t, '\n'));
    }
}

/// The lines of the text of lines (none holding a newline) are those lines.
pub proof fn lemma_lines_of_text(ls: Seq<Seq<char>>)
    requires
        forall|i: int| 0 <= i < ls.len() ==> !(#[trigger] ls[i]).contains('\n'),
    ensures
        lines_of(text_of(ls)) == ls,
{
    lemma_split_text_of(ls, Seq::<char>::empty());
    assert(text_of(ls) + Seq::<char>::empty() == text_of(ls));
    assert(split_on(Seq::<char>::empty(), '\n') == seq![Seq::<char>::empty()]);
    assert((ls + seq![Seq::<char>::empty()]).drop_last() == ls);
}

/// The text of two runs of lines is the text of the first followed by the
/// text of the second.
pub proof fn lemma_text_of_concat(a: Seq<Seq<char>>, b: Seq<Seq<char>>)
    ensures
        text_of(a + b) == text_of(a) + text_of(b),
    decreases b.len(),
{
    if b.len() == 0 {
        assert(a + b == a);
        assert(text_of(a) + text_of(b) == text_of(a));
    } else {
        assert((a + b).drop_last() == a + b.drop_last());
        assert((a + b).last() == b.last());
        lemma_text_of_concat(a, b.drop_last());
    }
}

/// Appending lines to a table's file: the file's lines afterwards are the
/// lines it had, followed by the appended lines in order.
pub proof fn lemma_append_then_lines(prev: Seq<Seq<char>>, new: Seq<Seq<char>>)
    requires
        forall|i: int| 0 <= i < prev.len() ==> !(#[trigger] prev[i]).contains('\n'),
        forall|i: int| 0 <= i < new.len() ==> !(#[trigger] new[i]).contains('\n'),
    ensures
        lines_of(text_of(prev) + text_of(new)) == prev + new,
{
    lemma_text_of_concat(prev, new);
    let all = prev + new;
    assert forall|i: int| 0 <= i < all.len() implies !(#[trigger] all[i]).contains('\n') by {
        if i < prev.len() {
            assert(all[i] == prev[i]);
        } else {
            assert(all[i] == new[i - prev.len()]);
        }
    }
    lemma_lines_of_text(all);
}

/// Writing one row at an ordinal within the table replaces only that row's
/// line; at an ordinal past the end, the rows in between become blank.
pub proof fn lemma_insert_one(base: Seq<Seq<char>>, key: Key, row: Vec<Value>)
    requires
        key_ordinal(key).is_some(),
        row_line(row_view(row@)) is Ok,
        base.len() >= 1,
    ensures
        ({
            let k = key_ordinal(key)->Some_0 + 1;
            let line = row_line(row_view(row@))->Ok_0;
            let out = inserted_lines(base, seq![(key, row)]);
            &&& k < base.len() ==> out.len() == base.len()
            &&& k >= base.len() ==> out.len() == k + 1
            &&& out[k] == line
            &&& forall|i: int| 0 <= i < base.len() && i != k ==> out[i] == base[i]
            &&& forall|i: int| base.len() <= i < k ==> out[i] == Seq::<char>::empty()
        }),
{
    let rows = seq![(key, row)];
    let k = key_ordinal(key)->Some_0 + 1;
    let line = row_line(row_view(row@))->Ok_0;
    assert(rows.drop_last() == Seq::<(Key, Vec<Value>)>::empty());
    assert(rows.last() == (key, row));
    assert(injection_of(rows.drop_last()) == Map::<int, Seq<char>>::empty());
    assert(injection_end(rows.drop_last()) == 0);
    let m = injection_of(rows);
    assert(m == Map::<int, Seq<char>>::empty().insert(k, line));
    assert(injection_end(rows) == k + 1);
    let out = inserted_lines(base, rows);
    assert(out[k] == merged_line(base, m, k));
    assert forall|i: int| 0 <= i < base.len() && i != k implies out[i] == base[i] by {
        assert(out[i] == merged_line(base, m, i));
    }
    assert forall|i: int| base.len() <= i < k implies out[i] == Seq::<char>::empty() by {
        assert(out[i] == merged_line(base, m, i));
    }
}

/// Deleting rows keeps exactly the lines that no key addresses, in their
/// original order: the `j`-th remaining line is the line at the `j`-th
/// surviving position, and the surviving positions increase.
pub proof fn lemma_delete_keeps_order(lines: Seq<Seq<char>>, keys: Seq<Key>)
    ensures
        surviving(lines, keys).len() == survivors(lines.len(), keys).len(),
        forall|j: int|
            0 <= j < surviving(lines, keys).len() ==> #[trigger] surviving(lines, keys)[j]
                == lines[survivors(lines.len(), keys)[j]],
        forall|a: int, b: int|
            0 <= a < b < survivors(lines.len(), keys).len() ==> survivors(lines.len(), keys)[a]
                < survivors(lines.len(), keys)[b],
        forall|i: int|
            0 <= i < lines.len() ==> (!targeted(keys, i) <==> survivors(lines.len(), keys).contains(
                i,
            )),
        forall|j: int|
            0 <= j < survivors(lines.len(), keys).len() ==> 0 <= #[trigger] survivors(
                lines.len(),
                keys,
            )[j] < lines.len(),
    decreases lines.len(),
{
    if lines.len() > 0 {
        let init = lines.drop_last();
        lemma_delete_keeps_order(init, keys);
        let n = lines.len();
        let ps = survivors((n - 1) as nat, keys);
        assert(init.len() == n - 1);
        assert forall|j: int| 0 <= j < surviving(init, keys).len() implies #[trigger] surviving(init, keys)[j]
            == lines[ps[j]] by {
            assert(init[ps[j]] == lines[ps[j]]);
        }
        if !targeted(keys, n - 1) {
            assert(survivors(n as nat, keys) == ps.push(n - 1));
            assert forall|i: int| 0 <= i < n implies (!targeted(keys, i) <==> survivors(
                n as nat,
                keys,
            ).contains(i)) by {
                if i < n - 1 {
                    if ps.contains(i) {
                        let j = choose|j: int| 0 <= j < ps.len() && ps[j] == i;
                        assert(survivors(n as nat, keys)[j] == i);
                    }
                    if survivors(n as nat, keys).contains(i) {
                        let j = choose|j: int|
                            0 <= j < survivors(n as nat, keys).len() && survivors(n as nat, keys)[j]
                                == i;
                        if j < ps.len() {
                            assert(ps[j] == i);
                        }
                    }
                } else {
                    assert(survivors(n as nat, keys)[ps.len() as int] == n - 1);
                }
            }
        } else {
            assert forall|i: int| 0 <= i < n implies (!targeted(keys, i) <==> survivors(
                n as nat,
                keys,
            ).contains(i)) by {
                if i == n - 1 {
                    if ps.contains(i) {
                        let j = choose|j: int| 0 <= j < ps.len() && ps[j] == i;
                    }
                }
            }
        }
    }
}

} // verus!
