//! The storage engine: table paths under the data directory, directory
//! listings with ignore patterns, and the table operations. The engine
//! works on file contents; reading and writing the files is the caller's.

use vstd::prelude::*;
use vstd::string::*;

use crate::codec::{
    csv_record, csv_rows, parse_records, read_csv_record, record_decodes, record_values,
    row_view, write_csv_record, Value, ValueView,
};
use crate::error::StoreError;
use crate::lines::{
    append_text, delete_lines, insert_lines, join_lines, split_lines, all_keys_valid, get_row_num,
    inserted_lines, insert_fails_with, insert_ok, key_ordinal, lines_of, rows_encode, rows_lines,
    surviving, text_of, Key,
};
use crate::names::{
    csv_suffix, is_csv_name, name_parts_of, name_path_text, path_text, table_path_of, TableIdentifier,
    TableName, TablePath,
};
use crate::schema::{
    data_of, determine_column_types, header_of, inferred_columns, inferred_types, records_view,
    schema_from_records, ColumnType, Schema,
};
use crate::text::{chars_of, join_strs, join_with, push_char, push_str, split_on, views};

verus! {

/// Where the tables live and which file names listings leave out.
#[derive(Debug, Clone)]
pub struct Config {
    /// Data directory for CSV storage; a leading `~` stands for the home
    /// directory.
    pub data_dir: String,
    /// Glob patterns of file names to leave out of listings.
    pub ignores: Vec<String>,
}

impl Default for Config {
    fn default() -> (r: Config)
        ensures
            r.data_dir@ == seq!['~', '/', 'f', 'e', 'e', 't'],
            views(r.ignores@) == seq![seq!['.', 'g', 'i', 't']],
    {
        let data_dir = String::from_str("~/feet");
        let git = String::from_str(".git");
        proof {
            reveal_strlit("~/feet");
            reveal_strlit(".git");
        }
        let mut ignores: Vec<String> = Vec::new();
        ignores.push(git);
        assert(ignores@[0]@ == seq!['.', 'g', 'i', 't']);
        assert(views(ignores@) =~= seq![ignores@[0]@]);
        Config { data_dir, ignores }
    }
}

/// Whether a glob pattern matches a file name, or `None` where the pattern
/// is not a valid glob.
pub uninterp spec fn glob_match(pattern: Seq<char>, name: Seq<char>) -> Option<bool>;

/// Relies on `globset::Glob::new` and `GlobMatcher::is_match`: compiles the
/// pattern and matches the file name against it.
#[verifier::external_body]
fn glob_is_match(pattern: &str, file_name: &str) -> (r: Option<bool>)
    ensures
        r == glob_match(pattern@, file_name@),
{
    match globset::Glob::new(pattern) {
        Ok(glob) => Some(glob.compile_matcher().is_match(file_name)),
        Err(_) => None,
    }
}

/// Relies on `shellexpand::tilde`: a leading `~` alone or before `/`
/// becomes the home directory where one is known; other text is kept.
#[verifier::external_body]
fn expand_tilde(s: &str) -> (r: String)
    ensures
        !(s@.len() > 0 && s@[0] == '~') ==> r@ == s@,
        s@.len() > 0 && s@[0] == '~' ==> r@.len() >= s@.len() - 1 && r@.skip(
            r@.len() - (s@.len() - 1),
        ) == s@.skip(1),
{
    shellexpand::tilde(s).into_owned()
}

/// Whether the ignore patterns leave out a file name: `Err` where a
/// pattern is not a valid glob, else whether any pattern matches.
pub open spec fn ignore_result(ignores: Seq<Seq<char>>, name: Seq<char>) -> Result<bool, StoreError> {
    if exists|i: int| 0 <= i < ignores.len() && (#[trigger] glob_match(ignores[i], name)).is_none() {
        Err(StoreError::InvalidPattern)
    } else {
        Ok(exists|i: int| 0 <= i < ignores.len() && #[trigger] glob_match(ignores[i], name) == Some(true))
    }
}

/// The table path that an identifier denotes under the root.
pub open spec fn table_path_for(root: Seq<char>, name: Seq<char>) -> Result<(bool, Seq<Seq<char>>), StoreError> {
    table_path_of(name_path_text(root, split_on(name, '/')))
}

/// The text of a table path's backing file.
pub open spec fn csv_text(absolute: bool, parts: Seq<Seq<char>>) -> Seq<char> {
    if parts.len() == 0 {
        path_text(absolute, parts)
    } else {
        path_text(absolute, parts) + seq!['.', 'c', 's', 'v']
    }
}

/// The backing file of the table that an identifier denotes.
pub open spec fn csv_path_for(root: Seq<char>, name: Seq<char>) -> Result<Seq<char>, StoreError> {
    match table_path_for(root, name) {
        Ok(tp) => Ok(csv_text(tp.0, tp.1)),
        Err(e) => Err(e),
    }
}

/// The schema of a table file's text, given the table's path: its
/// identifier and its inferred columns.
pub open spec fn schema_result(
    absolute: bool,
    parts: Seq<Seq<char>>,
    root: Seq<char>,
    text: Seq<char>,
) -> Result<(Seq<char>, Seq<(Seq<char>, ColumnType)>), StoreError> {
    match csv_rows(text) {
        None => Err(StoreError::MalformedRecord),
        Some(rows) => match name_parts_of(absolute, parts, root) {
            Err(e) => Err(e),
            Ok(np) => Ok((join_with(np, '/'), inferred_columns(rows))),
        },
    }
}

/// The row at an ordinal of a table file's text, if the table has one.
pub open spec fn fetch_result(ordinal: int, text: Seq<char>) -> Result<Option<Seq<ValueView>>, StoreError> {
    match csv_rows(text) {
        None => Err(StoreError::MalformedRecord),
        Some(rows) => {
            let data = data_of(rows);
            let types = inferred_types(rows);
            if ordinal < data.len() {
                if record_decodes(data[ordinal], types) {
                    Ok(Some(record_values(data[ordinal], types)))
                } else {
                    Err(StoreError::ValueParseError)
                }
            } else {
                Ok(None)
            }
        },
    }
}

/// Whether every data record of parsed CSV rows decodes.
pub open spec fn all_decode(rows: Seq<Seq<Seq<char>>>) -> bool {
    forall|i: int|
        0 <= i < data_of(rows).len() ==> #[trigger] record_decodes(data_of(rows)[i], inferred_types(rows))
}

/// Whether a scan's output holds every data record of parsed CSV rows,
/// decoded, with its ordinal.
pub open spec fn scanned(out: Seq<(usize, Vec<Value>)>, rows: Seq<Seq<Seq<char>>>) -> bool {
    &&& out.len() == data_of(rows).len()
    &&& all_decode(rows)
    &&& forall|i: int|
        0 <= i < out.len() ==> (#[trigger] out[i]).0 == i && row_view(out[i].1@) == record_values(
            data_of(rows)[i],
            inferred_types(rows),
        )
}

/// A directory entry's kind.
#[derive(Debug, Clone, Copy, PartialEq, Eq, Structural)]
pub enum EntryKind {
    Directory,
    File,
    /// Neither a directory nor a regular file.
    Other,
}

/// An entry of a namespace directory, with the text of the file for a
/// table file (empty otherwise).
#[derive(Debug, Clone)]
pub struct DirEntry {
    pub file_name: String,
    pub kind: EntryKind,
    pub content: String,
}

/// What a directory entry is: a table with its schema, or a namespace.
#[derive(Debug, Clone)]
pub enum TableData {
    Table(Schema),
    Dir,
}

/// A directory entry classified as a table or a namespace.
#[derive(Debug, Clone)]
pub struct TableNode {
    pub name: TableName,
    pub data: TableData,
}

/// A listed entry as a mathematical object: its name's components, and
/// for a table its identifier and columns.
pub struct NodeView {
    pub parts: Seq<Seq<char>>,
    pub table: Option<(Seq<char>, Seq<(Seq<char>, ColumnType)>)>,
}

impl TableNode {
    pub open spec fn node_view(&self) -> NodeView {
        NodeView {
            parts: views(self.name.parts@),
            table: match self.data {
                TableData::Table(s) => Some((s.table_name@, s.columns_view())),
                TableData::Dir => None,
            },
        }
    }
}

/// The path of an entry of a directory.
pub open spec fn entry_path_text(dir: Seq<char>, name: Seq<char>) -> Seq<char> {
    if dir.len() == 0 {
        name
    } else {
        dir + seq!['/'] + name
    }
}

/// What listing makes of one directory entry: left out (`None`), a node,
/// or the error that aborts the listing.
pub open spec fn entry_outcome(
    ignores: Seq<Seq<char>>,
    root: Seq<char>,
    dir: Seq<char>,
    name: Seq<char>,
    kind: EntryKind,
    content: Seq<char>,
) -> Result<Option<NodeView>, StoreError> {
    match ignore_result(ignores, name) {
        Err(e) => Err(e),
        Ok(true) => Ok(None),
        Ok(false) => match table_path_of(entry_path_text(dir, name)) {
            Err(e) => Err(e),
            Ok(tp) => match name_parts_of(tp.0, tp.1, root) {
                Err(e) => Err(e),
                Ok(np) => if kind == EntryKind::Directory {
                    Ok(Some(NodeView { parts: np, table: None }))
                } else if kind == EntryKind::File && is_csv_name(name) {
                    match csv_rows(content) {
                        None => Err(StoreError::MalformedRecord),
                        Some(rows) => Ok(
                            Some(
                                NodeView {
                                    parts: np,
                                    table: Some((join_with(np, '/'), inferred_columns(rows))),
                                },
                            ),
                        ),
                    }
                } else {
                    Err(StoreError::NotFileOrDirectory)
                },
            },
        },
    }
}

/// What listing makes of a directory's entries: the nodes of the entries
/// that are not left out, in order, or the first entry's error.
pub open spec fn listing(
    ignores: Seq<Seq<char>>,
    root: Seq<char>,
    dir: Seq<char>,
    entries: Seq<DirEntry>,
) -> Result<Seq<NodeView>, StoreError>
    decreases entries.len(),
{
    if entries.len() == 0 {
        Ok(Seq::<NodeView>::empty())
    } else {
        match listing(ignores, root, dir, entries.drop_last()) {
            Err(e) => Err(e),
            Ok(nodes) => {
                let e = entries.last();
                match entry_outcome(ignores, root, dir, e.file_name@, e.kind, e.content@) {
                    Err(err) => Err(err),
                    Ok(None) => Ok(nodes),
                    Ok(Some(n)) => Ok(nodes.push(n)),
                }
            },
        }
    }
}

/// The views of listed nodes.
pub open spec fn nodes_view(nodes: Seq<TableNode>) -> Seq<NodeView> {
    nodes.map_values(|n: TableNode| n.node_view())
}

/// The engine: tables are CSV files under `data_dir`.
#[derive(Debug, Clone)]
pub struct CsvStore {
    pub data_dir: String,
    pub ignores: Vec<String>,
}

impl CsvStore {
    /// A store for a configuration, with `~` in the data directory expanded.
    pub fn new(config: Config) -> (r: Self)
        ensures
            r.ignores@ == config.ignores@,
            !(config.data_dir@.len() > 0 && config.data_dir@[0] == '~') ==> r.data_dir@
                == config.data_dir@,
            config.data_dir@.len() > 0 && config.data_dir@[0] == '~' ==> r.data_dir@.len()
                >= config.data_dir@.len() - 1 && r.data_dir@.skip(
                r.data_dir@.len() - (config.data_dir@.len() - 1),
            ) == config.data_dir@.skip(1),
    {
        let data_dir = expand_tilde(config.data_dir.as_str());
        CsvStore { data_dir, ignores: config.ignores }
    }

    /// Whether the ignore patterns leave out a file name.
    pub fn should_ignore(&self, filename: &str) -> (r: Result<bool, StoreError>)
        ensures
            r == ignore_result(views(self.ignores@), filename@),
    {
        let ghost ig = views(self.ignores@);
        let mut matched = false;
        let mut i: usize = 0;
        while i < self.ignores.len()
            invariant
                i <= self.ignores.len(),
                ig == views(self.ignores@),
                forall|j: int| 0 <= j < i ==> (#[trigger] glob_match(ig[j], filename@)).is_some(),
                matched == exists|j: int| 0 <= j < i && #[trigger] glob_match(ig[j], filename@) == Some(true),
            decreases self.ignores.len() - i,
        {
            assert(ig[i as int] == self.ignores@[i as int]@);
            match glob_is_match(self.ignores[i].as_str(), filename) {
                Some(m) => {
                    matched = matched || m;
                },
                None => {
                    assert(glob_match(ig[i as int], filename@).is_none());
                    return Err(StoreError::InvalidPattern);
                },
            }
            i = i + 1;
        }
        Ok(matched)
    }

    /// The path of the table that an identifier names.
    pub fn table_path(&self, table_name: &str) -> (r: Result<TablePath, StoreError>)
        ensures
            match r {
                Ok(tp) => table_path_for(self.data_dir@, table_name@) == Ok::<(bool, Seq<Seq<char>>), StoreError>(
                    (tp.absolute, views(tp.parts@)),
                ) && tp.root@ == self.data_dir@,
                Err(e) => table_path_for(self.data_dir@, table_name@) == Err::<(bool, Seq<Seq<char>>), StoreError>(e),
            },
    {
        let id = TableIdentifier::new(table_name.to_owned(), self.data_dir.clone());
        TablePath::try_from_identifier(id)
    }

    /// The backing file of the table that an identifier names.
    pub fn csv_path(&self, table_name: &str) -> (r: Result<String, StoreError>)
        ensures
            match r {
                Ok(p) => csv_path_for(self.data_dir@, table_name@) == Ok::<Seq<char>, StoreError>(p@),
                Err(e) => csv_path_for(self.data_dir@, table_name@) == Err::<Seq<char>, StoreError>(e),
            },
    {
        match self.table_path(table_name) {
            Ok(tp) => Ok(tp.as_csv()),
            Err(e) => Err(e),
        }
    }

    /// The schema of a table whose file holds `text`: the header names the
    /// columns and every data record decides their types.
    pub fn read_schema(path: TablePath, text: &str) -> (r: Result<Schema, StoreError>)
        ensures
            match r {
                Ok(s) => schema_result(path.absolute, views(path.parts@), path.root@, text@) == Ok::<
                    (Seq<char>, Seq<(Seq<char>, ColumnType)>),
                    StoreError,
                >((s.table_name@, s.columns_view())),
                Err(e) => schema_result(path.absolute, views(path.parts@), path.root@, text@) == Err::<
                    (Seq<char>, Seq<(Seq<char>, ColumnType)>),
                    StoreError,
                >(e),
            },
    {
        let rows = match parse_records(text) {
            Ok(rows) => rows,
            Err(e) => return Err(e),
        };
        match TableIdentifier::try_from_path(path) {
            Ok(id) => Ok(schema_from_records(id.name, &rows)),
            Err(e) => Err(e),
        }
    }

    /// The schema of a table, given its file's text, or `None` where the
    /// file does not exist.
    pub fn fetch_schema(&self, table_name: &str, content: Option<&str>) -> (r: Result<Option<Schema>, StoreError>)
        ensures
            table_path_for(self.data_dir@, table_name@) matches Err(e) ==> r == Err::<Option<Schema>, StoreError>(e),
            table_path_for(self.data_dir@, table_name@) matches Ok(tp) ==> match content {
                None => r matches Ok(None),
                Some(text) => match r {
                    Ok(Some(s)) => schema_result(tp.0, tp.1, self.data_dir@, text@) == Ok::<
                        (Seq<char>, Seq<(Seq<char>, ColumnType)>),
                        StoreError,
                    >((s.table_name@, s.columns_view())),
                    Ok(None) => false,
                    Err(e) => schema_result(tp.0, tp.1, self.data_dir@, text@) == Err::<
                        (Seq<char>, Seq<(Seq<char>, ColumnType)>),
                        StoreError,
                    >(e),
                },
            },
    {
        let path = match self.table_path(table_name) {
            Ok(p) => p,
            Err(e) => return Err(e),
        };
        match content {
            None => Ok(None),
            Some(text) => match CsvStore::read_schema(path, text) {
                Ok(s) => Ok(Some(s)),
                Err(e) => Err(e),
            },
        }
    }

    /// The row at a key's ordinal in a table whose file holds `content`,
    /// or `None` where the table is shorter.
    pub fn fetch_data(&self, key: &Key, content: &str) -> (r: Result<Option<Vec<Value>>, StoreError>)
        ensures
            key_ordinal(*key).is_none() ==> r == Err::<Option<Vec<Value>>, StoreError>(StoreError::InvalidKey),
            key_ordinal(*key) matches Some(n) ==> match r {
                Ok(Some(row)) => fetch_result(n, content@) == Ok::<Option<Seq<ValueView>>, StoreError>(Some(row_view(row@))),
                Ok(None) => fetch_result(n, content@) == Ok::<Option<Seq<ValueView>>, StoreError>(None),
                Err(e) => fetch_result(n, content@) == Err::<Option<Seq<ValueView>>, StoreError>(e),
            },
    {
        let nskip = match get_row_num(key) {
            Ok(n) => n,
            Err(e) => return Err(e),
        };
        let rows = match parse_records(content) {
            Ok(rows) => rows,
            Err(e) => return Err(e),
        };
        let ghost rv = records_view(rows@);
        if rows.len() == 0 {
            return Ok(None);
        }
        let types = determine_column_types(&rows, 1, rows[0].len());
        assert(header_of(rv) == views(rows@[0]@));
        assert(data_of(rv) == rv.skip(1));
        if nskip < rows.len() - 1 {
            assert(data_of(rv)[nskip as int] == views(rows@[nskip + 1]@));
            match read_csv_record(&rows[nskip + 1], &types) {
                Ok(row) => Ok(Some(row)),
                Err(e) => Err(e),
            }
        } else {
            Ok(None)
        }
    }

    /// Every row of a table whose file holds `content`, with its ordinal,
    /// in file order.
    pub fn scan_data(&self, content: &str) -> (r: Result<Vec<(usize, Vec<Value>)>, StoreError>)
        ensures
            csv_rows(content@).is_none() ==> r == Err::<Vec<(usize, Vec<Value>)>, StoreError>(
                StoreError::MalformedRecord,
            ),
            csv_rows(content@) matches Some(rows) ==> match r {
                Ok(out) => scanned(out@, rows),
                Err(e) => e == StoreError::ValueParseError && !all_decode(rows),
            },
    {
        let rows = match parse_records(content) {
            Ok(rows) => rows,
            Err(e) => return Err(e),
        };
        let ghost rv = records_view(rows@);
        let mut out: Vec<(usize, Vec<Value>)> = Vec::new();
        if rows.len() == 0 {
            assert(data_of(rv).len() == 0);
            return Ok(out);
        }
        let types = determine_column_types(&rows, 1, rows[0].len());
        assert(header_of(rv) == views(rows@[0]@));
        assert(data_of(rv) == rv.skip(1));
        let ghost data = data_of(rv);
        let mut i: usize = 1;
        while i < rows.len()
            invariant
                1 <= i <= rows.len(),
                rv == records_view(rows@),
                csv_rows(content@) == Some(rv),
                data == rv.skip(1),
                data == data_of(rv),
                types@ == inferred_types(rv),
                out@.len() == i - 1,
                forall|j: int|
                    0 <= j < out@.len() ==> (#[trigger] out@[j]).0 == j && record_decodes(
                        data[j],
                        types@,
                    ) && row_view(out@[j].1@) == record_values(data[j], types@),
            decreases rows.len() - i,
        {
            assert(data[i - 1] == views(rows@[i as int]@));
            match read_csv_record(&rows[i], &types) {
                Ok(row) => {
                    out.push((i - 1, row));
                },
                Err(e) => {
                    assert(!record_decodes(data[i - 1], types@));
                    assert(!record_decodes(data_of(rv)[i - 1], inferred_types(rv)));
                    assert(!all_decode(rv));
                    return Err(e);
                },
            }
            i = i + 1;
        }
        assert(data.len() == rows@.len() - 1);
        assert(all_decode(rv)) by {
            assert forall|j: int| 0 <= j < data_of(rv).len() implies #[trigger] record_decodes(
                data_of(rv)[j],
                inferred_types(rv),
            ) by {
                assert(out@[j].0 == j);
            }
        }
        assert(scanned(out@, rv));
        Ok(out)
    }

    /// The backing file of a new table and its text: the header record of
    /// the schema's column names. Parent namespaces are the caller's to
    /// create.
    pub fn insert_schema(&self, schema: &Schema) -> (r: Result<(String, String), StoreError>)
        ensures
            match r {
                Ok((p, t)) => csv_path_for(self.data_dir@, schema.table_name@) == Ok::<Seq<char>, StoreError>(p@)
                    && csv_record(schema.columns_view().map_values(|c: (Seq<char>, ColumnType)| c.0)) == Some(t@),
                Err(e) => csv_path_for(self.data_dir@, schema.table_name@) == Err::<Seq<char>, StoreError>(e)
                    || (csv_path_for(self.data_dir@, schema.table_name@) is Ok && csv_record(
                    schema.columns_view().map_values(|c: (Seq<char>, ColumnType)| c.0),
                ).is_none() && e == StoreError::IOError),
            },
    {
        let path = match self.csv_path(schema.table_name.as_str()) {
            Ok(p) => p,
            Err(e) => return Err(e),
        };
        let mut names: Vec<String> = Vec::new();
        let mut i: usize = 0;
        while i < schema.columns.len()
            invariant
                i <= schema.columns.len(),
                names@.len() == i,
                forall|j: int| 0 <= j < i ==> (#[trigger] names@[j])@ == schema.columns@[j].0@,
            decreases schema.columns.len() - i,
        {
            names.push(schema.columns[i].0.clone());
            i = i + 1;
        }
        assert(views(names@) == schema.columns_view().map_values(|c: (Seq<char>, ColumnType)| c.0));
        match write_csv_record(&names) {
            Some(t) => Ok((path, t)),
            None => Err(StoreError::IOError),
        }
    }

    /// The backing file to remove when a table is dropped.
    pub fn delete_schema(&self, table_name: &str) -> (r: Result<String, StoreError>)
        ensures
            match r {
                Ok(p) => csv_path_for(self.data_dir@, table_name@) == Ok::<Seq<char>, StoreError>(p@),
                Err(e) => csv_path_for(self.data_dir@, table_name@) == Err::<Seq<char>, StoreError>(e),
            },
    {
        self.csv_path(table_name)
    }

    /// The text to add at the end of a table's file to append rows: one
    /// line per row, in order.
    pub fn append_data(&self, rows: &Vec<Vec<Value>>) -> (r: Result<String, StoreError>)
        ensures
            match r {
                Ok(t) => rows_encode(rows@) && t@ == text_of(rows_lines(rows@)),
                Err(e) => !rows_encode(rows@),
            },
    {
        let r = append_text(rows);
        proof {
            if let Err(e) = r {
                let j = choose|j: int|
                    0 <= j < rows@.len() && #[trigger] crate::codec::row_line(row_view(rows@[j]@))
                        == Err::<Seq<char>, StoreError>(e);
            }
        }
        r
    }

    /// The new text of a table's file after keyed rows are written over
    /// the rows at their ordinals.
    pub fn insert_data(&self, content: &str, rows: &Vec<(Key, Vec<Value>)>) -> (r: Result<String, StoreError>)
        ensures
            match r {
                Ok(t) => insert_ok(rows@) && t@ == text_of(inserted_lines(lines_of(content@), rows@)),
                Err(e) => !insert_ok(rows@) && insert_fails_with(rows@, e),
            },
    {
        let base = split_lines(content);
        match insert_lines(base, rows) {
            Ok(out) => Ok(join_lines(&out)),
            Err(e) => Err(e),
        }
    }

    /// The new text of a table's file after the rows that the keys address
    /// are removed.
    pub fn delete_data(&self, content: &str, keys: &Vec<Key>) -> (r: Result<String, StoreError>)
        ensures
            match r {
                Ok(t) => all_keys_valid(keys@) && t@ == text_of(surviving(lines_of(content@), keys@)),
                Err(e) => !all_keys_valid(keys@) && e == StoreError::InvalidKey,
            },
    {
        let lines = split_lines(content);
        match delete_lines(lines, keys) {
            Ok(out) => Ok(join_lines(&out)),
            Err(e) => Err(e),
        }
    }
}

impl CsvStore {
    /// What listing makes of one entry of the directory whose path is
    /// `dir`: left out where an ignore pattern matches its name, a
    /// namespace for a directory, a table with its inferred schema for a
    /// `.csv` file, and an error for anything else.
    pub fn table_node(&self, dir: &str, entry: &DirEntry) -> (r: Result<Option<TableNode>, StoreError>)
        ensures
            match r {
                Ok(None) => entry_outcome(
                    views(self.ignores@),
                    self.data_dir@,
                    dir@,
                    entry.file_name@,
                    entry.kind,
                    entry.content@,
                ) == Ok::<Option<NodeView>, StoreError>(None),
                Ok(Some(n)) => entry_outcome(
                    views(self.ignores@),
                    self.data_dir@,
                    dir@,
                    entry.file_name@,
                    entry.kind,
                    entry.content@,
                ) == Ok::<Option<NodeView>, StoreError>(Some(n.node_view())),
                Err(e) => entry_outcome(
                    views(self.ignores@),
                    self.data_dir@,
                    dir@,
                    entry.file_name@,
                    entry.kind,
                    entry.content@,
                ) == Err::<Option<NodeView>, StoreError>(e),
            },
    {
        match self.should_ignore(entry.file_name.as_str()) {
            Err(e) => {
                return Err(e);
            },
            Ok(true) => {
                return Ok(None);
            },
            Ok(false) => {},
        }
        let mut text = String::new();
        if chars_of(dir).len() > 0 {
            push_str(&mut text, dir);
            push_char(&mut text, '/');
        }
        push_str(&mut text, entry.file_name.as_str());
        assert(text@ == entry_path_text(dir@, entry.file_name@));
        let tp = match TablePath::try_new(text, self.data_dir.clone()) {
            Ok(tp) => tp,
            Err(e) => {
                return Err(e);
            },
        };
        let name = match TableName::try_from_path(tp) {
            Ok(n) => n,
            Err(e) => {
                return Err(e);
            },
        };
        let is_csv = csv_suffix(&chars_of(entry.file_name.as_str()));
        match entry.kind {
            EntryKind::Directory => Ok(Some(TableNode { name, data: TableData::Dir })),
            EntryKind::File => {
                if !is_csv {
                    return Err(StoreError::NotFileOrDirectory);
                }
                let rows = match parse_records(entry.content.as_str()) {
                    Ok(rows) => rows,
                    Err(e) => {
                        return Err(e);
                    },
                };
                let id = join_strs(&name.parts, '/');
                let schema = schema_from_records(id, &rows);
                Ok(Some(TableNode { name, data: TableData::Table(schema) }))
            },
            EntryKind::Other => Err(StoreError::NotFileOrDirectory),
        }
    }

    /// The tables and namespaces directly under the namespace `dir`, given
    /// its entries in the order the filesystem gives them. Any entry that
    /// is neither ignored, a directory, nor a `.csv` file fails the whole
    /// listing.
    pub fn list_tables(&self, dir: TableName, entries: &Vec<DirEntry>) -> (r: Result<Vec<TableNode>, StoreError>)
        ensures
            table_path_of(name_path_text(dir.root@, views(dir.parts@))) matches Err(e) ==> r == Err::<
                Vec<TableNode>,
                StoreError,
            >(e),
            table_path_of(name_path_text(dir.root@, views(dir.parts@))) matches Ok(tp) ==> match r {
                Ok(nodes) => listing(views(self.ignores@), self.data_dir@, path_text(tp.0, tp.1), entries@)
                    == Ok::<Seq<NodeView>, StoreError>(nodes_view(nodes@)),
                Err(e) => listing(views(self.ignores@), self.data_dir@, path_text(tp.0, tp.1), entries@)
                    == Err::<Seq<NodeView>, StoreError>(e),
            },
    {
        let ghost dtp = table_path_of(name_path_text(dir.root@, views(dir.parts@)));
        let dir_path = match TablePath::try_from_name(dir) {
            Ok(p) => p,
            Err(e) => {
                return Err(e);
            },
        };
        let ghost dabs = dir_path.absolute;
        let ghost dparts = views(dir_path.parts@);
        let dir_text = dir_path.as_dir();
        let ghost ig = views(self.ignores@);
        let mut nodes: Vec<TableNode> = Vec::new();
        let mut i: usize = 0;
        assert(entries@.take(0) == Seq::<DirEntry>::empty());
        assert(nodes_view(nodes@) == Seq::<NodeView>::empty());
        while i < entries.len()
            invariant
                i <= entries.len(),
                ig == views(self.ignores@),
                dtp == Ok::<(bool, Seq<Seq<char>>), StoreError>((dabs, dparts)),
                dtp == table_path_of(name_path_text(dir.root@, views(dir.parts@))),
                dir_text@ == path_text(dabs, dparts),
                listing(ig, self.data_dir@, dir_text@, entries@.take(i as int)) == Ok::<
                    Seq<NodeView>,
                    StoreError,
                >(nodes_view(nodes@)),
            decreases entries.len() - i,
        {
            let ghost prev = entries@.take(i as int);
            assert(entries@.take(i + 1).drop_last() == prev);
            assert(entries@.take(i + 1).last() == entries@[i as int]);
            match self.table_node(dir_text.as_str(), &entries[i]) {
                Ok(Some(n)) => {
                    let ghost before = nodes_view(nodes@);
                    nodes.push(n);
                    assert(nodes_view(nodes@) == before.push(nodes@.last().node_view()));
                },
                Ok(None) => {},
                Err(e) => {
                    proof {
                        lemma_listing_fails(ig, self.data_dir@, dir_text@, entries@, i as int, e);
                    }
                    return Err(e);
                },
            }
            i = i + 1;
        }
        assert(entries@.take(entries.len() as int) == entries@);
        Ok(nodes)
    }
}

/// Once an entry fails, the listing fails with that entry's error.
proof fn lemma_listing_fails(
    ig: Seq<Seq<char>>,
    root: Seq<char>,
    dir: Seq<char>,
    entries: Seq<DirEntry>,
    i: int,
    e: StoreError,
)
    requires
        0 <= i < entries.len(),
        listing(ig, root, dir, entries.take(i)) is Ok,
        entry_outcome(ig, root, dir, entries[i].file_name@, entries[i].kind, entries[i].content@)
            == Err::<Option<NodeView>, StoreError>(e),
    ensures
        listing(ig, root, dir, entries) == Err::<Seq<NodeView>, StoreError>(e),
    decreases entries.len() - i,
{
    let k = i + 1;
    assert(entries.take(k).drop_last() == entries.take(i));
    assert(entries.take(k).last() == entries[i]);
    lemma_listing_stays_failed(ig, root, dir, entries, k, e);
}

/// A failed listing stays failed as more entries follow.
proof fn lemma_listing_stays_failed(
    ig: Seq<Seq<char>>,
    root: Seq<char>,
    dir: Seq<char>,
    entries: Seq<DirEntry>,
    k: int,
    e: StoreError,
)
    requires
        0 <= k <= entries.len(),
        listing(ig, root, dir, entries.take(k)) == Err::<Seq<NodeView>, StoreError>(e),
    ensures
        listing(ig, root, dir, entries) == Err::<Seq<NodeView>, StoreError>(e),
    decreases entries.len() - k,
{
    if k == entries.len() {
        assert(entries.take(k) == entries);
    } else {
        assert(entries.take(k + 1).drop_last() == entries.take(k));
        lemma_listing_stays_failed(ig, root, dir, entries, k + 1, e);
    }
}

/// Inferring a table's schema twice from an unchanged file gives the same
/// schema: the result depends on the table's path and the file's text alone.
pub proof fn lemma_schema_inference_idempotent(
    absolute: bool,
    parts: Seq<Seq<char>>,
    root: Seq<char>,
    text: Seq<char>,
    first: Result<(Seq<char>, Seq<(Seq<char>, ColumnType)>), StoreError>,
    second: Result<(Seq<char>, Seq<(Seq<char>, ColumnType)>), StoreError>,
)
    requires
        first == schema_result(absolute, parts, root, text),
        second == schema_result(absolute, parts, root, text),
    ensures
        first == second,
{
}

} // verus!
