//! The catalog of users, databases and tables: the rules by which entries
//! are added, found and removed, and the order in which the storage of a
//! table is checked. Reading and writing the catalog's files is the caller's
//! work; these functions decide on what was read.

use vstd::prelude::*;
use vstd::string::StringExecFns;

verus! {

/// Why a catalog operation failed.
#[derive(Debug, Clone, Copy, PartialEq, Eq)]
pub enum FileError {
    Io,
    BaseDirNotExists,
    UsernamesJsonNotExists,
    UsernameExists,
    UsernameNotExists,
    UsernameDirNotExists,
    DbsJsonNotExists,
    DbExists,
    DbNotExists,
    DbDirNotExists,
    TablesJsonNotExists,
    TableExists,
    TableNotExists,
    TableTsvNotExists,
    JsonParse,
}

impl FileError {
    /// The message of the error.
    pub open spec fn text(self) -> Seq<char> {
        match self {
            FileError::Io => "No such file or directory."@,
            FileError::BaseDirNotExists => "Base data directory not exists. All data lost."@,
            FileError::UsernamesJsonNotExists => "The file `usernames.json` is lost"@,
            FileError::UsernameExists => "User name already exists and cannot be created again."@,
            FileError::UsernameNotExists => "Specified user name not exists. Please create this username first."@,
            FileError::UsernameDirNotExists => "Username exists but corresponding data folder is lost."@,
            FileError::DbsJsonNotExists => "The `dbs.json` of the username is lost"@,
            FileError::DbExists => "DB already exists and cannot be created again."@,
            FileError::DbNotExists => "DB not exists. Please create DB first."@,
            FileError::DbDirNotExists => "DB exists but correspoding data folder is lost."@,
            FileError::TablesJsonNotExists => "The `tables.json` of the DB is lost."@,
            FileError::TableExists => "Table already exists and cannot be created again."@,
            FileError::TableNotExists => "Table not exists. Please create table first."@,
            FileError::TableTsvNotExists => "Table exists but correspoding tsv file is lost."@,
            FileError::JsonParse => "JSON parsing error."@,
        }
    }

    /// The message of the error.
    pub fn message(&self) -> (s: String)
        ensures
            s@ == self.text(),
    {
        match self {
            FileError::Io => "No such file or directory.".to_owned(),
            FileError::BaseDirNotExists => "Base data directory not exists. All data lost.".to_owned(),
            FileError::UsernamesJsonNotExists => "The file `usernames.json` is lost".to_owned(),
            FileError::UsernameExists => "User name already exists and cannot be created again.".to_owned(),
            FileError::UsernameNotExists => "Specified user name not exists. Please create this username first.".to_owned(),
            FileError::UsernameDirNotExists => "Username exists but corresponding data folder is lost.".to_owned(),
            FileError::DbsJsonNotExists => "The `dbs.json` of the username is lost".to_owned(),
            FileError::DbExists => "DB already exists and cannot be created again.".to_owned(),
            FileError::DbNotExists => "DB not exists. Please create DB first.".to_owned(),
            FileError::DbDirNotExists => "DB exists but correspoding data folder is lost.".to_owned(),
            FileError::TablesJsonNotExists => "The `tables.json` of the DB is lost.".to_owned(),
            FileError::TableExists => "Table already exists and cannot be created again.".to_owned(),
            FileError::TableNotExists => "Table not exists. Please create table first.".to_owned(),
            FileError::TableTsvNotExists => "Table exists but correspoding tsv file is lost.".to_owned(),
            FileError::JsonParse => "JSON parsing error.".to_owned(),
        }
    }
}

/// An entry of a catalog list, known by its name.
pub trait Named {
    /// The name of the entry.
    spec fn name_text(&self) -> Seq<char>;

    /// Whether the entry has the name `key`.
    fn is_named(&self, key: &String) -> (b: bool)
        ensures
            b == (self.name_text() == key@),
    ;

    /// A copy of the name of the entry.
    fn name_copy(&self) -> (name: String)
        ensures
            name@ == self.name_text(),
    ;
}

/// A user in the list of users.
#[derive(Debug, Clone, PartialEq, Eq)]
pub struct UsernameInfo {
    pub name: String,
    /// The directory of the user, relative to the base directory.
    pub path: String,
}

/// A database in a user's list of databases.
#[derive(Debug, Clone, PartialEq, Eq)]
pub struct DbInfo {
    pub name: String,
    /// The directory of the database, relative to the user's directory.
    pub path: String,
}

/// An attribute of a table: its name and, as text, how it is defined.
#[derive(Debug, Clone, PartialEq, Eq)]
pub struct Attribute {
    pub name: String,
    pub definition: String,
}

/// A table in a database's list of tables.
#[derive(Debug, Clone, PartialEq, Eq)]
pub struct TableInfo {
    pub name: String,
    pub path_tsv: String,
    pub path_bin: String,
    pub primary_key: Vec<String>,
    pub foreign_key: Vec<String>,
    pub reference_table: Option<String>,
    /// The order of the attributes in the table's files.
    pub attrs_order: Vec<String>,
    pub attrs: Vec<Attribute>,
    /// The row number that was given out last.
    pub last_rid: u32,
}

/// What a new table is made from.
#[derive(Debug, Clone, PartialEq, Eq)]
pub struct Table {
    pub name: String,
    pub primary_key: Vec<String>,
    pub foreign_key: Vec<String>,
    pub reference_table: Option<String>,
    pub fields: Vec<Attribute>,
}

impl Named for Attribute {
    open spec fn name_text(&self) -> Seq<char> {
        self.name@
    }

    fn is_named(&self, key: &String) -> (b: bool) {
        self.name == *key
    }

    fn name_copy(&self) -> (name: String) {
        self.name.clone()
    }
}

impl Named for UsernameInfo {
    open spec fn name_text(&self) -> Seq<char> {
        self.name@
    }

    fn is_named(&self, key: &String) -> (b: bool) {
        self.name == *key
    }

    fn name_copy(&self) -> (name: String) {
        self.name.clone()
    }
}

impl Named for DbInfo {
    open spec fn name_text(&self) -> Seq<char> {
        self.name@
    }

    fn is_named(&self, key: &String) -> (b: bool) {
        self.name == *key
    }

    fn name_copy(&self) -> (name: String) {
        self.name.clone()
    }
}

impl Named for TableInfo {
    open spec fn name_text(&self) -> Seq<char> {
        self.name@
    }

    fn is_named(&self, key: &String) -> (b: bool) {
        self.name == *key
    }

    fn name_copy(&self) -> (name: String) {
        self.name.clone()
    }
}

/// The names of the entries of a list, in order.
pub open spec fn names_of<T: Named>(list: Seq<T>) -> Seq<Seq<char>> {
    list.map_values(|e: T| e.name_text())
}

/// The texts of a list of strings, in order.
pub open spec fn texts(list: Seq<String>) -> Seq<Seq<char>> {
    list.map_values(|s: String| s@)
}

/// The place of the first entry named `key`; the length of the list if
/// there is none.
pub open spec fn first_named(names: Seq<Seq<char>>, key: Seq<char>) -> int
    decreases names.len(),
{
    if names.len() == 0 || names[0] == key {
        0
    } else {
        1 + first_named(names.drop_first(), key)
    }
}

/// Where the first entry named `key` stands.
pub proof fn lemma_first_named(names: Seq<Seq<char>>, key: Seq<char>)
    ensures
        0 <= first_named(names, key) <= names.len(),
        forall|j: int| 0 <= j < first_named(names, key) ==> names[j] != key,
        first_named(names, key) < names.len() ==> names[first_named(names, key)] == key,
        first_named(names, key) < names.len() <==> names.contains(key),
    decreases names.len(),
{
    if names.len() == 0 || names[0] == key {
        if names.len() > 0 {
            assert(names.contains(key));
        }
    } else {
        let rest = names.drop_first();
        lemma_first_named(rest, key);
        let p = first_named(rest, key);
        assert forall|j: int| 0 <= j < p + 1 implies names[j] != key by {
            if j > 0 {
                assert(names[j] == rest[j - 1]);
            }
        }
        if p < rest.len() {
            assert(names[p + 1] == rest[p]);
            assert(names.contains(key));
        }
        if names.contains(key) {
            let i = choose|i: int| 0 <= i < names.len() && names[i] == key;
            assert(rest[i - 1] == key);
            assert(rest.contains(key));
        }
    }
}

/// The attributes of a table in the order in which its files hold them: the
/// row number, then the primary key, then the other attributes as given.
pub open spec fn attrs_order_of(primary_key: Seq<Seq<char>>, fields: Seq<Seq<char>>) -> Seq<
    Seq<char>,
> {
    seq!["__rid__"@] + primary_key + fields.filter(|f: Seq<char>| !primary_key.contains(f))
}

/// The place of the first entry of `list` named `key`.
fn position<T: Named>(list: &Vec<T>, key: &String) -> (r: Option<usize>)
    ensures
        r is Some <==> names_of(list@).contains(key@),
        r matches Some(i) ==> i < list@.len() && i == first_named(names_of(list@), key@),
{
    let mut i: usize = 0;
    while i < list.len()
        invariant
            i <= list.len(),
            forall|j: int| 0 <= j < i ==> names_of(list@)[j] != key@,
        decreases list.len() - i,
    {
        if list[i].is_named(key) {
            proof {
                lemma_first_named(names_of(list@), key@);
                assert(names_of(list@)[i as int] == key@);
            }
            return Some(i);
        }
        i += 1;
    }
    None
}

/// Whether `list` holds a string with the text of `key`.
fn holds(list: &Vec<String>, key: &String) -> (b: bool)
    ensures
        b == texts(list@).contains(key@),
{
    let mut i: usize = 0;
    while i < list.len()
        invariant
            i <= list.len(),
            forall|j: int| 0 <= j < i ==> texts(list@)[j] != key@,
        decreases list.len() - i,
    {
        if list[i] == *key {
            assert(texts(list@)[i as int] == key@);
            return true;
        }
        i += 1;
    }
    false
}

/// A copy of a list of attributes.
fn copy_attributes(list: &Vec<Attribute>) -> (out: Vec<Attribute>)
    ensures
        out@ == list@,
{
    let mut out: Vec<Attribute> = Vec::new();
    let mut i: usize = 0;
    while i < list.len()
        invariant
            i <= list.len(),
            out@ == list@.take(i as int),
        decreases list.len() - i,
    {
        out.push(Attribute { name: list[i].name.clone(), definition: list[i].definition.clone() });
        assert(out@ =~= list@.take(i + 1));
        i += 1;
    }
    assert(list@.take(i as int) =~= list@);
    out
}

/// A copy of a list of strings.
fn copy_strings(list: &Vec<String>) -> (out: Vec<String>)
    ensures
        out@ == list@,
{
    let mut out: Vec<String> = Vec::new();
    let mut i: usize = 0;
    while i < list.len()
        invariant
            i <= list.len(),
            out@ == list@.take(i as int),
        decreases list.len() - i,
    {
        out.push(list[i].clone());
        assert(out@ =~= list@.take(i + 1));
        i += 1;
    }
    assert(list@.take(i as int) =~= list@);
    out
}

/// The names of the entries of `list`, in order.
fn names<T: Named>(list: &Vec<T>) -> (out: Vec<String>)
    ensures
        texts(out@) == names_of(list@),
{
    let mut out: Vec<String> = Vec::new();
    let mut i: usize = 0;
    while i < list.len()
        invariant
            i <= list.len(),
            out@.len() == i,
            forall|j: int| 0 <= j < i ==> (#[trigger] out@[j])@ == names_of(list@)[j],
        decreases list.len() - i,
    {
        out.push(list[i].name_copy());
        i += 1;
    }
    assert(texts(out@) =~= names_of(list@));
    out
}

/// A step in checking that the storage of a user, a database or a table is
/// in place: what to look for on disk.
#[derive(Debug, Clone, Copy, PartialEq, Eq)]
pub enum Probe {
    /// Is the base directory there?
    BaseDir,
    /// Is the list of users there?
    UsernamesJson,
    /// Is the user in the list of users?
    UsernameListed,
    /// Is the directory of the user there?
    UsernameDir,
    /// Is the user's list of databases there?
    DbsJson,
    /// Is the database in the list of databases?
    DbListed,
    /// Is the directory of the database there?
    DbDir,
    /// Is the database's list of tables there?
    TablesJson,
    /// Is the table in the list of tables?
    TableListed,
    /// Is the file of the table there?
    TableTsv,
}

/// What follows a step of the check.
#[derive(Debug, Clone, Copy, PartialEq, Eq)]
pub enum Verdict {
    /// Everything that was asked for is in place.
    Passed,
    /// Look for this next.
    Next(Probe),
    /// The check failed.
    Failed(FileError),
}

impl Probe {
    /// The error for what the probe did not find.
    pub open spec fn failure(self) -> FileError {
        match self {
            Probe::BaseDir => FileError::BaseDirNotExists,
            Probe::UsernamesJson => FileError::UsernamesJsonNotExists,
            Probe::UsernameListed => FileError::UsernameNotExists,
            Probe::UsernameDir => FileError::UsernameDirNotExists,
            Probe::DbsJson => FileError::DbsJsonNotExists,
            Probe::DbListed => FileError::DbNotExists,
            Probe::DbDir => FileError::DbDirNotExists,
            Probe::TablesJson => FileError::TablesJsonNotExists,
            Probe::TableListed => FileError::TableNotExists,
            Probe::TableTsv => FileError::TableTsvNotExists,
        }
    }

    /// The probe that follows this one; the last has none.
    pub open spec fn following(self) -> Option<Probe> {
        match self {
            Probe::BaseDir => Some(Probe::UsernamesJson),
            Probe::UsernamesJson => Some(Probe::UsernameListed),
            Probe::UsernameListed => Some(Probe::UsernameDir),
            Probe::UsernameDir => Some(Probe::DbsJson),
            Probe::DbsJson => Some(Probe::DbListed),
            Probe::DbListed => Some(Probe::DbDir),
            Probe::DbDir => Some(Probe::TablesJson),
            Probe::TablesJson => Some(Probe::TableListed),
            Probe::TableListed => Some(Probe::TableTsv),
            Probe::TableTsv => None,
        }
    }

    /// The check ends with this probe when it is about the base directory
    /// alone (`depth` 0), a user (1), a database (2) or a table (3).
    pub open spec fn ends_check(self, depth: int) -> bool {
        match self {
            Probe::UsernamesJson => depth <= 0,
            Probe::DbsJson => depth <= 1,
            Probe::TablesJson => depth <= 2,
            Probe::TableTsv => true,
            _ => false,
        }
    }
}

/// How far a check goes: 0 without a user, 1 with a user and no database, 2
/// with a database and no table, 3 with a table.
pub open spec fn check_depth(username: bool, db_name: bool, table_name: bool) -> int {
    if !username {
        0
    } else if !db_name {
        1
    } else if !table_name {
        2
    } else {
        3
    }
}

/// The catalog's rules. The type holds nothing.
#[derive(Debug, Clone, Copy)]
pub struct File {}

impl File {
    /// Adds the user `username` to the list of users, with the directory of
    /// the same name. Fails, and changes nothing, if the list has a user of
    /// that name.
    pub fn create_username(usernames: &mut Vec<UsernameInfo>, username: &str) -> (r: Result<
        (),
        FileError,
    >)
        ensures
            r is Err <==> names_of(old(usernames)@).contains(username@),
            r is Err ==> r == Err::<(), FileError>(FileError::UsernameExists)
                && final(usernames)@ == old(usernames)@,
            r is Ok ==> final(usernames)@.len() == old(usernames)@.len() + 1
                && final(usernames)@.drop_last() == old(usernames)@
                && final(usernames)@.last().name@ == username@
                && final(usernames)@.last().path@ == username@,
    {
        let key = username.to_owned();
        match position(usernames, &key) {
            Some(_) => Err(FileError::UsernameExists),
            None => {
                usernames.push(UsernameInfo { name: key, path: username.to_owned() });
                assert(usernames@.drop_last() =~= old(usernames)@);
                Ok(())
            },
        }
    }

    /// The names of the users, in the order of the list.
    pub fn get_usernames(usernames: &Vec<UsernameInfo>) -> (names: Vec<String>)
        ensures
            texts(names@) == names_of(usernames@),
    {
        names(usernames)
    }

    /// Removes the first user named `username` from the list of users.
    /// Fails, and changes nothing, if there is none.
    pub fn remove_username(usernames: &mut Vec<UsernameInfo>, username: &str) -> (r: Result<
        (),
        FileError,
    >)
        ensures
            r is Ok <==> names_of(old(usernames)@).contains(username@),
            r is Err ==> r == Err::<(), FileError>(FileError::UsernameNotExists)
                && final(usernames)@ == old(usernames)@,
            r is Ok ==> final(usernames)@ == old(usernames)@.remove(
                first_named(names_of(old(usernames)@), username@),
            ),
    {
        let key = username.to_owned();
        match position(usernames, &key) {
            None => Err(FileError::UsernameNotExists),
            Some(i) => {
                usernames.remove(i);
                Ok(())
            },
        }
    }

    /// Adds the database `db_name` to a user's list of databases, with the
    /// directory of the same name. Fails, and changes nothing, if the list
    /// has a database of that name.
    pub fn create_db(dbs: &mut Vec<DbInfo>, db_name: &str) -> (r: Result<(), FileError>)
        ensures
            r is Err <==> names_of(old(dbs)@).contains(db_name@),
            r is Err ==> r == Err::<(), FileError>(FileError::DbExists) && final(dbs)@ == old(
                dbs,
            )@,
            r is Ok ==> final(dbs)@.len() == old(dbs)@.len() + 1 && final(dbs)@.drop_last() == old(
                dbs,
            )@ && final(dbs)@.last().name@ == db_name@ && final(dbs)@.last().path@ == db_name@,
    {
        let key = db_name.to_owned();
        match position(dbs, &key) {
            Some(_) => Err(FileError::DbExists),
            None => {
                dbs.push(DbInfo { name: key, path: db_name.to_owned() });
                assert(dbs@.drop_last() =~= old(dbs)@);
                Ok(())
            },
        }
    }

    /// The names of the databases, in the order of the list.
    pub fn get_dbs(dbs: &Vec<DbInfo>) -> (names: Vec<String>)
        ensures
            texts(names@) == names_of(dbs@),
    {
        names(dbs)
    }

    /// Removes the first database named `db_name` from a user's list of
    /// databases. Fails, and changes nothing, if there is none.
    pub fn remove_db(dbs: &mut Vec<DbInfo>, db_name: &str) -> (r: Result<(), FileError>)
        ensures
            r is Ok <==> names_of(old(dbs)@).contains(db_name@),
            r is Err ==> r == Err::<(), FileError>(FileError::DbNotExists) && final(dbs)@ == old(
                dbs,
            )@,
            r is Ok ==> final(dbs)@ == old(dbs)@.remove(
                first_named(names_of(old(dbs)@), db_name@),
            ),
    {
        let key = db_name.to_owned();
        match position(dbs, &key) {
            None => Err(FileError::DbNotExists),
            Some(i) => {
                dbs.remove(i);
                Ok(())
            },
        }
    }

    /// Adds a table to a database's list of tables. Its files are named
    /// after it, its attributes are ordered with the row number first, then
    /// the primary key, then the others as `table` gives them, and it has no
    /// rows yet. Fails, and changes nothing, if the list has a table of that
    /// name.
    pub fn create_table(tables: &mut Vec<TableInfo>, table: &Table) -> (r: Result<(), FileError>)
        ensures
            r is Err <==> names_of(old(tables)@).contains(table.name@),
            r is Err ==> r == Err::<(), FileError>(FileError::TableExists)
                && final(tables)@ == old(tables)@,
            r is Ok ==> final(tables)@.len() == old(tables)@.len() + 1
                && final(tables)@.drop_last() == old(tables)@ && ({
                let info = final(tables)@.last();
                &&& info.name@ == table.name@
                &&& info.path_tsv@ == table.name@ + ".tsv"@
                &&& info.path_bin@ == table.name@ + ".bin"@
                &&& info.primary_key@ == table.primary_key@
                &&& info.foreign_key@ == table.foreign_key@
                &&& info.reference_table == table.reference_table
                &&& texts(info.attrs_order@) == attrs_order_of(
                    texts(table.primary_key@),
                    names_of(table.fields@),
                )
                &&& info.attrs@ == table.fields@
                &&& info.last_rid == 0
            }),
    {
        match position(tables, &table.name) {
            Some(_) => Err(FileError::TableExists),
            None => {
                let info = TableInfo {
                    name: table.name.clone(),
                    path_tsv: table.name.clone().concat(".tsv"),
                    path_bin: table.name.clone().concat(".bin"),
                    primary_key: copy_strings(&table.primary_key),
                    foreign_key: copy_strings(&table.foreign_key),
                    reference_table: match &table.reference_table {
                        Some(name) => Some(name.clone()),
                        None => None,
                    },
                    attrs_order: File::attrs_order(&table.primary_key, &table.fields),
                    attrs: copy_attributes(&table.fields),
                    last_rid: 0,
                };
                tables.push(info);
                assert(tables@.drop_last() =~= old(tables)@);
                Ok(())
            },
        }
    }

    /// The order of the attributes in the files of a table: the row number,
    /// then the primary key, then the other attributes as given.
    pub fn attrs_order(primary_key: &Vec<String>, fields: &Vec<Attribute>) -> (order: Vec<String>)
        ensures
            texts(order@) == attrs_order_of(texts(primary_key@), names_of(fields@)),
    {
        let ghost keys = texts(primary_key@);
        let ghost others = |f: Seq<char>| !keys.contains(f);
        let mut order: Vec<String> = Vec::new();
        order.push("__rid__".to_owned());
        let mut i: usize = 0;
        while i < primary_key.len()
            invariant
                i <= primary_key.len(),
                keys == texts(primary_key@),
                texts(order@) == seq!["__rid__"@] + keys.take(i as int),
            decreases primary_key.len() - i,
        {
            let ghost before = texts(order@);
            order.push(primary_key[i].clone());
            assert(texts(order@) =~= before.push(primary_key[i as int]@));
            assert(texts(order@) =~= seq!["__rid__"@] + keys.take(i + 1));
            i += 1;
        }
        assert(keys.take(i as int) =~= keys);
        let mut k: usize = 0;
        assert(names_of(fields@).take(0).filter(others) =~= Seq::<Seq<char>>::empty()) by {
            reveal(Seq::filter);
        }
        while k < fields.len()
            invariant
                k <= fields.len(),
                keys == texts(primary_key@),
                others == |f: Seq<char>| !keys.contains(f),
                texts(order@) == seq!["__rid__"@] + keys + names_of(fields@).take(k as int).filter(
                    others,
                ),
            decreases fields.len() - k,
        {
            let ghost before = texts(order@);
            if !holds(primary_key, &fields[k].name) {
                order.push(fields[k].name.clone());
            }
            proof {
                reveal(Seq::filter);
                let done = names_of(fields@).take(k + 1);
                let prev = names_of(fields@).take(k as int);
                assert(done.drop_last() =~= prev);
                assert(done.last() == fields[k as int].name@);
                assert(others(done.last()) == !keys.contains(fields[k as int].name@));
                if others(done.last()) {
                    assert(texts(order@) =~= before.push(fields[k as int].name@));
                    assert(done.filter(others) == prev.filter(others).push(done.last()));
                } else {
                    assert(texts(order@) =~= before);
                    assert(done.filter(others) == prev.filter(others));
                }
                assert(texts(order@) =~= seq!["__rid__"@] + keys + done.filter(others));
            }
            k += 1;
        }
        assert(names_of(fields@).take(k as int) =~= names_of(fields@));
        order
    }

    /// Whether `list` has an entry named `name`.
    pub fn is_listed<T: Named>(list: &Vec<T>, name: &str) -> (b: bool)
        ensures
            b == names_of(list@).contains(name@),
    {
        let key = name.to_owned();
        position(list, &key).is_some()
    }

    /// Removes the first table named `table_name` from a database's list of
    /// tables. Fails, and changes nothing, if there is none.
    pub fn drop_table(tables: &mut Vec<TableInfo>, table_name: &str) -> (r: Result<(), FileError>)
        ensures
            r is Ok <==> names_of(old(tables)@).contains(table_name@),
            r is Err ==> r == Err::<(), FileError>(FileError::TableNotExists)
                && final(tables)@ == old(tables)@,
            r is Ok ==> final(tables)@ == old(tables)@.remove(
                first_named(names_of(old(tables)@), table_name@),
            ),
    {
        let key = table_name.to_owned();
        match position(tables, &key) {
            None => Err(FileError::TableNotExists),
            Some(i) => {
                tables.remove(i);
                Ok(())
            },
        }
    }

    /// One step of checking that the storage is in place, from the base
    /// directory down to the user, the database and the table that are
    /// given. The check starts with [`Probe::BaseDir`]; the caller looks for
    /// what a probe names and reports in `found` whether it is there. A
    /// probe that found nothing fails the check with its own error. The check
    /// has passed when the last list that concerns it was found.
    pub fn storage_hierarchy_check(
        probe: Probe,
        found: bool,
        username: Option<&str>,
        db_name: Option<&str>,
        table_name: Option<&str>,
    ) -> (verdict: Verdict)
        ensures
            !found ==> verdict == Verdict::Failed(probe.failure()),
            found && probe.ends_check(
                check_depth(username is Some, db_name is Some, table_name is Some),
            ) ==> verdict == Verdict::Passed,
            found && !probe.ends_check(
                check_depth(username is Some, db_name is Some, table_name is Some),
            ) ==> verdict is Next && probe.following() == Some(verdict->Next_0),
    {
        if !found {
            let error = match probe {
                Probe::BaseDir => FileError::BaseDirNotExists,
                Probe::UsernamesJson => FileError::UsernamesJsonNotExists,
                Probe::UsernameListed => FileError::UsernameNotExists,
                Probe::UsernameDir => FileError::UsernameDirNotExists,
                Probe::DbsJson => FileError::DbsJsonNotExists,
                Probe::DbListed => FileError::DbNotExists,
                Probe::DbDir => FileError::DbDirNotExists,
                Probe::TablesJson => FileError::TablesJsonNotExists,
                Probe::TableListed => FileError::TableNotExists,
                Probe::TableTsv => FileError::TableTsvNotExists,
            };
            return Verdict::Failed(error);
        }
        let depth: u8 = if username.is_none() {
            0
        } else if db_name.is_none() {
            1
        } else if table_name.is_none() {
            2
        } else {
            3
        };
        match probe {
            Probe::BaseDir => Verdict::Next(Probe::UsernamesJson),
            Probe::UsernamesJson => if depth == 0 {
                Verdict::Passed
            } else {
                Verdict::Next(Probe::UsernameListed)
            },
            Probe::UsernameListed => Verdict::Next(Probe::UsernameDir),
            Probe::UsernameDir => Verdict::Next(Probe::DbsJson),
            Probe::DbsJson => if depth <= 1 {
                Verdict::Passed
            } else {
                Verdict::Next(Probe::DbListed)
            },
            Probe::DbListed => Verdict::Next(Probe::DbDir),
            Probe::DbDir => Verdict::Next(Probe::TablesJson),
            Probe::TablesJson => if depth <= 2 {
                Verdict::Passed
            } else {
                Verdict::Next(Probe::TableListed)
            },
            Probe::TableListed => Verdict::Next(Probe::TableTsv),
            Probe::TableTsv => Verdict::Passed,
        }
    }
}

} // verus!
