//! Table identity in three equivalent forms: a hierarchical name, the
//! identifier used in SQL statements, and the path of the backing file.
//!
//! Paths are `/`-separated text. A path's components are its pieces between
//! separators, without empty pieces and without `.`.

use vstd::prelude::*;
use vstd::string::*;

use crate::error::StoreError;
use crate::text::{join_strs, join_with, push_str, same_text, split_on, split_str, views};
use crate::text::{lemma_split_concat, lemma_split_join};

verus! {

/// Whether a piece of a path is a component.
pub open spec fn keep_piece(c: Seq<char>) -> bool {
    c.len() > 0 && c != seq!['.']
}

/// The pieces that are components, in order.
pub open spec fn kept(pieces: Seq<Seq<char>>) -> Seq<Seq<char>>
    decreases pieces.len(),
{
    if pieces.len() == 0 {
        pieces
    } else {
        let sub = kept(pieces.drop_last());
        if keep_piece(pieces.last()) {
            sub.push(pieces.last())
        } else {
            sub
        }
    }
}

/// The components of a path.
pub open spec fn components(p: Seq<char>) -> Seq<Seq<char>> {
    kept(split_on(p, '/'))
}

/// Whether a path starts at the filesystem root.
pub open spec fn is_absolute(p: Seq<char>) -> bool {
    p.len() > 0 && p[0] == '/'
}

/// Whether a file name has an extension: a dot after its first character.
pub open spec fn has_inner_dot(c: Seq<char>) -> bool {
    exists|i: int| 0 < i < c.len() && c[i] == '.'
}

/// Whether a file name's extension is `csv`.
pub open spec fn is_csv_name(c: Seq<char>) -> bool {
    c.len() > 4 && c.subrange(c.len() - 4, c.len() as int) == seq!['.', 'c', 's', 'v']
}

/// Whether a file name carries an extension other than `csv`.
pub open spec fn bad_extension(c: Seq<char>) -> bool {
    c != seq!['.', '.'] && has_inner_dot(c) && !is_csv_name(c)
}

/// A file name without its `.csv` extension.
pub open spec fn strip_csv(c: Seq<char>) -> Seq<char> {
    if is_csv_name(c) {
        c.take(c.len() - 4)
    } else {
        c
    }
}

/// The table path that a filesystem path denotes: whether it is absolute,
/// and its components with the last one's `.csv` extension taken off.
pub open spec fn table_path_of(p: Seq<char>) -> Result<(bool, Seq<Seq<char>>), StoreError> {
    let comps = components(p);
    if comps.len() == 0 {
        Ok((is_absolute(p), comps))
    } else if bad_extension(comps.last()) {
        Err(StoreError::InvalidExtension)
    } else {
        Ok((is_absolute(p), comps.update(comps.len() - 1, strip_csv(comps.last()))))
    }
}

/// The text of a path from whether it is absolute and its components.
pub open spec fn path_text(absolute: bool, parts: Seq<Seq<char>>) -> Seq<char> {
    if absolute {
        seq!['/'] + join_with(parts, '/')
    } else {
        join_with(parts, '/')
    }
}

/// The path that a table name's components make under the root.
pub open spec fn name_path_text(root: Seq<char>, parts: Seq<Seq<char>>) -> Seq<char> {
    if parts.len() == 0 {
        root
    } else if root.len() == 0 {
        join_with(parts, '/')
    } else {
        root + seq!['/'] + join_with(parts, '/')
    }
}

/// The name components of a table path under the root, or why it has none.
pub open spec fn name_parts_of(absolute: bool, parts: Seq<Seq<char>>, root: Seq<char>) -> Result<
    Seq<Seq<char>>,
    StoreError,
> {
    let rc = components(root);
    if absolute != is_absolute(root) || rc.len() > parts.len() || parts.take(rc.len() as int)
        != rc {
        Err(StoreError::PathEscapesRoot)
    } else if exists|i: int|
        rc.len() <= i < parts.len() && #[trigger] parts[i] == seq!['.', '.'] {
        Err(StoreError::PathEscapesRoot)
    } else {
        Ok(parts.skip(rc.len() as int))
    }
}

/// Path of a table's backing file, or of a namespace directory: the
/// components of the path without the `.csv` extension.
#[derive(Debug, Clone)]
pub struct TablePath {
    pub absolute: bool,
    pub parts: Vec<String>,
    pub root: String,
}

/// A table's name as used in SQL statements: components joined by `/`.
#[derive(Debug, Clone)]
pub struct TableIdentifier {
    pub name: String,
    pub root: String,
}

/// A hierarchical table name: its components, in order.
#[derive(Debug, Clone)]
pub struct TableName {
    pub parts: Vec<String>,
    pub root: String,
}

impl TableName {
    pub fn new(parts: Vec<String>, root: String) -> (r: Self)
        ensures
            r.parts@ == parts@,
            r.root@ == root@,
    {
        TableName { parts, root }
    }

    /// The last component of the table name, if any.
    pub fn last(&self) -> (r: Option<String>)
        ensures
            self.parts@.len() == 0 ==> r.is_none(),
            self.parts@.len() > 0 ==> (r matches Some(s) && s@ == self.parts@.last()@),
    {
        if self.parts.len() == 0 {
            None
        } else {
            let s = self.parts[self.parts.len() - 1].clone();
            Some(s)
        }
    }

    /// The name of a table path under its root.
    pub fn try_from_path(path: TablePath) -> (r: Result<TableName, StoreError>)
        ensures
            match r {
                Ok(n) => name_parts_of(path.absolute, views(path.parts@), path.root@) == Ok::<
                    Seq<Seq<char>>,
                    StoreError,
                >(views(n.parts@)) && n.root@ == path.root@,
                Err(e) => name_parts_of(path.absolute, views(path.parts@), path.root@) == Err::<
                    Seq<Seq<char>>,
                    StoreError,
                >(e),
            },
    {
        let rc = components_of(path.root.as_str());
        let ghost ps = views(path.parts@);
        let ghost rcv = views(rc@);
        if path.absolute != starts_with_slash(path.root.as_str()) || rc.len() > path.parts.len() {
            return Err(StoreError::PathEscapesRoot);
        }
        let mut i: usize = 0;
        while i < rc.len()
            invariant
                i <= rc.len() <= path.parts.len(),
                path.absolute == is_absolute(path.root@),
                rcv == components(path.root@),
                ps == views(path.parts@),
                rcv == views(rc@),
                forall|j: int| 0 <= j < i ==> ps[j] == rcv[j],
            decreases rc.len() - i,
        {
            assert(ps[i as int] == path.parts@[i as int]@);
            assert(rcv[i as int] == rc@[i as int]@);
            if !same_text(path.parts[i].as_str(), rc[i].as_str()) {
                assert(ps.take(rc.len() as int)[i as int] != rcv[i as int]);
                assert(ps.take(rc.len() as int) != rcv);
                return Err(StoreError::PathEscapesRoot);
            }
            i = i + 1;
        }
        assert(ps.take(rc.len() as int) == rcv);
        let mut rel: Vec<String> = Vec::new();
        let mut k: usize = rc.len();
        while k < path.parts.len()
            invariant
                rc.len() <= k <= path.parts.len(),
                path.absolute == is_absolute(path.root@),
                rcv == components(path.root@),
                ps == views(path.parts@),
                ps.take(rc.len() as int) == rcv,
                rcv == views(rc@),
                views(rel@) == ps.subrange(rc.len() as int, k as int),
                forall|j: int| rc.len() <= j < k ==> ps[j] != seq!['.', '.'],
            decreases path.parts.len() - k,
        {
            assert(ps[k as int] == path.parts@[k as int]@);
            if is_parent_dir(path.parts[k].as_str()) {
                assert(ps[k as int] == seq!['.', '.']);
                return Err(StoreError::PathEscapesRoot);
            }
            let ghost before = views(rel@);
            rel.push(path.parts[k].clone());
            assert(views(rel@) == before.push(ps[k as int]));
            k = k + 1;
        }
        Ok(TableName { parts: rel, root: path.root })
    }

    /// The name that an identifier denotes: its pieces between `/`.
    pub fn from_identifier(id: TableIdentifier) -> (r: TableName)
        ensures
            views(r.parts@) == split_on(id.name@, '/'),
            r.root@ == id.root@,
    {
        let parts = split_str(id.name.as_str(), '/');
        TableName { parts, root: id.root }
    }
}

impl TablePath {
    /// The table path that `path` denotes under `root`; fails where the file
    /// name has an extension other than `csv`.
    pub fn try_new(path: String, root: String) -> (r: Result<TablePath, StoreError>)
        ensures
            match r {
                Ok(tp) => table_path_of(path@) == Ok::<(bool, Seq<Seq<char>>), StoreError>(
                    (tp.absolute, views(tp.parts@)),
                ) && tp.root@ == root@,
                Err(e) => table_path_of(path@) == Err::<(bool, Seq<Seq<char>>), StoreError>(e),
            },
    {
        let absolute = starts_with_slash(path.as_str());
        let mut parts = components_of(path.as_str());
        let n = parts.len();
        if n == 0 {
            return Ok(TablePath { absolute, parts, root });
        }
        let last = parts[n - 1].clone();
        let lv = chars_of_string(&last);
        if !is_dot_dot(&lv) && inner_dot(&lv) && !csv_suffix(&lv) {
            return Err(StoreError::InvalidExtension);
        }
        if csv_suffix(&lv) {
            let stem = crate::text::string_of(&lv, 0, lv.len() - 4);
            let ghost before = views(parts@);
            parts.set(n - 1, stem);
            assert(views(parts@) == before.update(n - 1, strip_csv(before.last())));
        } else {
            assert(views(parts@) == views(parts@).update(n - 1, strip_csv(views(parts@).last())));
        }
        Ok(TablePath { absolute, parts, root })
    }

    /// The path of the namespace directory.
    pub fn as_dir(self) -> (r: String)
        ensures
            r@ == path_text(self.absolute, views(self.parts@)),
    {
        let mut r = String::new();
        if self.absolute {
            crate::text::push_char(&mut r, '/');
        }
        let body = join_strs(&self.parts, '/');
        push_str(&mut r, body.as_str());
        r
    }

    /// The path of the backing file: the directory path with `.csv` added,
    /// where the path has a file name.
    pub fn as_csv(self) -> (r: String)
        ensures
            self.parts@.len() == 0 ==> r@ == path_text(self.absolute, views(self.parts@)),
            self.parts@.len() > 0 ==> r@ == path_text(self.absolute, views(self.parts@)) + seq![
                '.',
                'c',
                's',
                'v',
            ],
    {
        let n = self.parts.len();
        let mut r = self.as_dir();
        if n > 0 {
            crate::text::push_char(&mut r, '.');
            crate::text::push_char(&mut r, 'c');
            crate::text::push_char(&mut r, 's');
            crate::text::push_char(&mut r, 'v');
        }
        r
    }

    /// The path of a table name: the root followed by the name's components.
    pub fn try_from_name(name: TableName) -> (r: Result<TablePath, StoreError>)
        ensures
            match r {
                Ok(tp) => table_path_of(name_path_text(name.root@, views(name.parts@))) == Ok::<
                    (bool, Seq<Seq<char>>),
                    StoreError,
                >((tp.absolute, views(tp.parts@))) && tp.root@ == name.root@,
                Err(e) => table_path_of(name_path_text(name.root@, views(name.parts@))) == Err::<
                    (bool, Seq<Seq<char>>),
                    StoreError,
                >(e),
            },
    {
        let mut text = String::new();
        if name.parts.len() == 0 {
            push_str(&mut text, name.root.as_str());
            assert(text@ == name.root@);
        } else {
            let joined = join_strs(&name.parts, '/');
            if chars_of_string(&name.root).len() > 0 {
                push_str(&mut text, name.root.as_str());
                crate::text::push_char(&mut text, '/');
                push_str(&mut text, joined.as_str());
                assert(text@ == name.root@ + seq!['/'] + joined@);
            } else {
                push_str(&mut text, joined.as_str());
                assert(text@ == joined@);
            }
        }
        assert(text@ == name_path_text(name.root@, views(name.parts@)));
        TablePath::try_new(text, name.root)
    }

    /// The path of a table identifier.
    pub fn try_from_identifier(id: TableIdentifier) -> (r: Result<TablePath, StoreError>)
        ensures
            match r {
                Ok(tp) => table_path_of(name_path_text(id.root@, split_on(id.name@, '/'))) == Ok::<
                    (bool, Seq<Seq<char>>),
                    StoreError,
                >((tp.absolute, views(tp.parts@))) && tp.root@ == id.root@,
                Err(e) => table_path_of(name_path_text(id.root@, split_on(id.name@, '/')))
                    == Err::<(bool, Seq<Seq<char>>), StoreError>(e),
            },
    {
        TablePath::try_from_name(TableName::from_identifier(id))
    }
}

impl TableIdentifier {
    pub fn new(name: String, root: String) -> (r: Self)
        ensures
            r.name@ == name@,
            r.root@ == root@,
    {
        TableIdentifier { name, root }
    }

    /// The identifier as text.
    pub fn as_str(&self) -> (r: &str)
        ensures
            r@ == self.name@,
    {
        self.name.as_str()
    }

    /// The identifier of a table name: its components joined by `/`.
    pub fn from_name(name: TableName) -> (r: TableIdentifier)
        ensures
            r.name@ == join_with(views(name.parts@), '/'),
            r.root@ == name.root@,
    {
        let joined = join_strs(&name.parts, '/');
        TableIdentifier { name: joined, root: name.root }
    }

    /// The identifier of a table path under its root.
    pub fn try_from_path(path: TablePath) -> (r: Result<TableIdentifier, StoreError>)
        ensures
            match r {
                Ok(id) => name_parts_of(path.absolute, views(path.parts@), path.root@) matches Ok(
                    ps,
                ) && id.name@ == join_with(ps, '/') && id.root@ == path.root@,
                Err(e) => name_parts_of(path.absolute, views(path.parts@), path.root@) == Err::<
                    Seq<Seq<char>>,
                    StoreError,
                >(e),
            },
    {
        match TableName::try_from_path(path) {
            Ok(n) => Ok(TableIdentifier::from_name(n)),
            Err(e) => Err(e),
        }
    }
}

fn chars_of_string(s: &String) -> (r: Vec<char>)
    ensures
        r@ == s@,
{
    crate::text::chars_of(s.as_str())
}

fn starts_with_slash(s: &str) -> (r: bool)
    ensures
        r == is_absolute(s@),
{
    let cs = crate::text::chars_of(s);
    cs.len() > 0 && cs[0] == '/'
}

fn is_parent_dir(s: &str) -> (r: bool)
    ensures
        r == (s@ == seq!['.', '.']),
{
    let cs = crate::text::chars_of(s);
    let r = is_dot_dot(&cs);
    r
}

fn is_dot_dot(cs: &Vec<char>) -> (r: bool)
    ensures
        r == (cs@ == seq!['.', '.']),
{
    let r = cs.len() == 2 && cs[0] == '.' && cs[1] == '.';
    if cs.len() == 2 && !r {
        assert(cs@[0] != '.' || cs@[1] != '.');
        assert(cs@ != seq!['.', '.']) by {
            if cs@ == seq!['.', '.'] {
                assert(cs@[0] == '.' && cs@[1] == '.');
            }
        }
    }
    if r {
        assert(cs@ == seq!['.', '.']);
    }
    r
}

fn inner_dot(cs: &Vec<char>) -> (r: bool)
    ensures
        r == has_inner_dot(cs@),
{
    let mut i: usize = 1;
    while i < cs.len()
        invariant
            1 <= i,
            forall|j: int| 0 < j < i && j < cs@.len() ==> cs@[j] != '.',
        decreases cs.len() - i,
    {
        if cs[i] == '.' {
            return true;
        }
        i = i + 1;
    }
    false
}

pub(crate) fn csv_suffix(cs: &Vec<char>) -> (r: bool)
    ensures
        r == is_csv_name(cs@),
{
    let n = cs.len();
    if n <= 4 {
        return false;
    }
    let r = cs[n - 4] == '.' && cs[n - 3] == 'c' && cs[n - 2] == 's' && cs[n - 1] == 'v';
    let ghost tail = cs@.subrange(n - 4, n as int);
    assert(tail[0] == cs@[n - 4] && tail[1] == cs@[n - 3] && tail[2] == cs@[n - 2] && tail[3]
        == cs@[n - 1]);
    if r {
        assert(tail == seq!['.', 'c', 's', 'v']);
    } else {
        assert(tail != seq!['.', 'c', 's', 'v']) by {
            if tail == seq!['.', 'c', 's', 'v'] {
                assert(tail[0] == '.' && tail[1] == 'c' && tail[2] == 's' && tail[3] == 'v');
            }
        }
    }
    r
}

fn is_dot(s: &str) -> (r: bool)
    ensures
        r == (s@ == seq!['.']),
{
    let cs = crate::text::chars_of(s);
    let r = cs.len() == 1 && cs[0] == '.';
    if r {
        assert(cs@ == seq!['.']);
    } else if cs.len() == 1 {
        assert(cs@ != seq!['.']) by {
            if cs@ == seq!['.'] {
                assert(cs@[0] == '.');
            }
        }
    }
    r
}

/// The components of a path.
pub fn components_of(p: &str) -> (r: Vec<String>)
    ensures
        views(r@) == components(p@),
{
    let pieces = split_str(p, '/');
    let ghost pv = views(pieces@);
    let mut r: Vec<String> = Vec::new();
    let mut i: usize = 0;
    assert(pv.take(0) == Seq::<Seq<char>>::empty());
    assert(views(r@) == Seq::<Seq<char>>::empty());
    while i < pieces.len()
        invariant
            i <= pieces.len(),
            pv == views(pieces@),
            views(r@) == kept(pv.take(i as int)),
        decreases pieces.len() - i,
    {
        assert(pv.take(i + 1).drop_last() == pv.take(i as int));
        assert(pv.take(i + 1).last() == pieces@[i as int]@);
        let keep = chars_of_string(&pieces[i]).len() > 0 && !is_dot(pieces[i].as_str());
        if keep {
            let ghost before = views(r@);
            r.push(pieces[i].clone());
            assert(views(r@) == before.push(pieces@[i as int]@));
        }
        i = i + 1;
    }
    assert(pv.take(pieces.len() as int) == pv);
    r
}

/// Components kept from two sequences of pieces are kept from each.
pub proof fn lemma_kept_concat(x: Seq<Seq<char>>, y: Seq<Seq<char>>)
    ensures
        kept(x + y) == kept(x) + kept(y),
    decreases y.len(),
{
    if y.len() == 0 {
        assert(x + y == x);
    } else {
        assert((x + y).drop_last() == x + y.drop_last());
        assert((x + y).last() == y.last());
        lemma_kept_concat(x, y.drop_last());
        if keep_piece(y.last()) {
            assert((kept(x) + kept(y.drop_last())).push(y.last()) == kept(x) + kept(
                y.drop_last(),
            ).push(y.last()));
        }
    }
}

/// Pieces that are all components are kept whole.
pub proof fn lemma_kept_all(x: Seq<Seq<char>>)
    requires
        forall|i: int| 0 <= i < x.len() ==> keep_piece(#[trigger] x[i]),
    ensures
        kept(x) == x,
    decreases x.len(),
{
    if x.len() > 0 {
        let init = x.drop_last();
        assert(forall|i: int| 0 <= i < init.len() ==> init[i] == x[i]);
        lemma_kept_all(init);
        assert(keep_piece(x[x.len() - 1]));
        assert(init.push(x.last()) == x);
    }
}

/// A component of a valid table name: not empty, without `/`, and neither
/// `.` nor `..`.
pub open spec fn valid_part(c: Seq<char>) -> bool {
    c.len() > 0 && !c.contains('/') && c != seq!['.'] && c != seq!['.', '.']
}

/// A valid table name: valid components, and a last component without an
/// extension. The empty name is valid under a root whose last component
/// has no extension.
pub open spec fn valid_name(root: Seq<char>, parts: Seq<Seq<char>>) -> bool {
    &&& forall|i: int| 0 <= i < parts.len() ==> valid_part(#[trigger] parts[i])
    &&& parts.len() > 0 ==> !has_inner_dot(parts.last())
    &&& parts.len() == 0 ==> components(root).len() == 0 || !has_inner_dot(
        components(root).last(),
    )
}

/// A valid table name, taken to its path and back, is the same name.
pub proof fn lemma_name_path_round_trip(root: Seq<char>, parts: Seq<Seq<char>>)
    requires
        valid_name(root, parts),
    ensures
        table_path_of(name_path_text(root, parts)) matches Ok(tp) && name_parts_of(
            tp.0,
            tp.1,
            root,
        ) == Ok::<Seq<Seq<char>>, StoreError>(parts),
{
    let text = name_path_text(root, parts);
    let rc = components(root);
    assert(forall|i: int| 0 <= i < parts.len() ==> keep_piece(#[trigger] parts[i])) by {
        assert forall|i: int| 0 <= i < parts.len() implies keep_piece(#[trigger] parts[i]) by {
            assert(valid_part(parts[i]));
        }
    }
    if parts.len() > 0 {
        lemma_split_join(parts, '/');
        lemma_kept_all(parts);
        if root.len() == 0 {
            let pcs = split_on(root, '/');
            assert(pcs == seq![Seq::<char>::empty()]);
            assert(rc == Seq::<Seq<char>>::empty()) by {
                assert(pcs.drop_last() == Seq::<Seq<char>>::empty());
                assert(!keep_piece(pcs.last()));
                assert(kept(pcs) == kept(pcs.drop_last()));
            }
            assert(components(text) == parts);
            assert(!is_absolute(text)) by {
                if is_absolute(text) {
                    assert(parts[0].len() > 0);
                    lemma_join_first(parts, '/');
                    assert(valid_part(parts[0]));
                    assert(parts[0].contains('/')) by {
                        assert(parts[0][0] == '/');
                    }
                }
            }
        } else {
            lemma_split_concat(root, join_with(parts, '/'), '/');
            lemma_kept_concat(split_on(root, '/'), parts);
            assert(components(text) == rc + parts);
            assert(is_absolute(text) == is_absolute(root)) by {
                assert(text[0] == root[0]);
            }
        }
        let comps = components(text);
        assert(comps.last() == parts.last());
        assert(!bad_extension(comps.last()));
        assert(!is_csv_name(comps.last())) by {
            if is_csv_name(comps.last()) {
                let c = comps.last();
                assert(c.subrange(c.len() - 4, c.len() as int)[0] == '.');
                assert(c[c.len() - 4] == '.');
            }
        }
        assert(comps.update(comps.len() - 1, strip_csv(comps.last())) == comps);
        assert(comps.take(rc.len() as int) == rc);
        assert(comps.skip(rc.len() as int) == parts);
        assert(!exists|i: int|
            rc.len() <= i < comps.len() && #[trigger] comps[i] == seq!['.', '.']) by {
            assert forall|i: int| rc.len() <= i < comps.len() implies comps[i] != seq![
                '.',
                '.',
            ] by {
                assert(comps[i] == parts[i - rc.len()]);
                assert(valid_part(parts[i - rc.len()]));
            }
        }
    } else {
        assert(text == root);
        if rc.len() > 0 {
            assert(!bad_extension(rc.last()));
            assert(!is_csv_name(rc.last())) by {
                if is_csv_name(rc.last()) {
                    let c = rc.last();
                    assert(c.subrange(c.len() - 4, c.len() as int)[0] == '.');
                    assert(c[c.len() - 4] == '.');
                }
            }
            assert(rc.update(rc.len() - 1, strip_csv(rc.last())) == rc);
        }
        assert(rc.take(rc.len() as int) == rc);
        assert(rc.skip(rc.len() as int) == parts);
    }
}

/// A joined sequence starts with the first piece's first character.
pub proof fn lemma_join_first(parts: Seq<Seq<char>>, sep: char)
    requires
        parts.len() > 0,
        parts[0].len() > 0,
    ensures
        join_with(parts, sep).len() > 0,
        join_with(parts, sep)[0] == parts[0][0],
    decreases parts.len(),
{
    if parts.len() > 1 {
        let init = parts.drop_last();
        assert(init[0] == parts[0]);
        lemma_join_first(init, sep);
    }
}

} // verus!
