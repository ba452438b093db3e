//! The environment: the tables of a database and what it was opened with.

use vstd::prelude::*;
use crate::dups::KeyLayout;
use crate::error::{create_table_error, DatabaseError};
use crate::table::Table;
use std::time::Duration;

verus! {

/// Marker of a read-only transaction.
#[derive(Debug)]
#[non_exhaustive]
pub struct RO;

/// Marker of a read-write transaction.
#[derive(Debug)]
#[non_exhaustive]
pub struct RW;

/// Whether an environment is opened for reading only or for reading and
/// writing.
#[derive(Debug)]
pub enum DatabaseEnvKind {
    /// Read-only environment.
    RO,
    /// Read-write environment.
    RW,
}

impl DatabaseEnvKind {
    /// Returns `true` if the environment is read-write.
    pub fn is_rw(&self) -> (r: bool)
        ensures
            r == (self is RW),
    {
        matches!(self, Self::RW)
    }
}

/// How long a read transaction may stay open.
#[derive(Debug, Clone, Copy)]
pub enum MaxReadTransactionDuration {
    /// The maximum duration of a read transaction is unbounded.
    Unbounded,
    /// The maximum duration of a read transaction is set to the given duration.
    Bounded(Duration),
}

impl MaxReadTransactionDuration {
    /// The duration, if one is set.
    pub fn as_duration(&self) -> (r: Option<Duration>)
        ensures
            r == match *self {
                MaxReadTransactionDuration::Unbounded => None::<Duration>,
                MaxReadTransactionDuration::Bounded(duration) => Some(duration),
            },
    {
        match self {
            MaxReadTransactionDuration::Unbounded => None,
            MaxReadTransactionDuration::Bounded(duration) => Some(*duration),
        }
    }
}

/// The version of the client that accesses the database.
#[derive(Clone, Debug, PartialEq, Eq)]
pub struct ClientVersion {
    /// Version of the client.
    pub version: String,
    /// Commit hash of the client's source.
    pub git_sha: String,
    /// Time at which the client was built.
    pub build_timestamp: String,
}

/// How much the database logs.
#[derive(Clone, Copy, Debug, PartialEq, Eq)]
pub enum LogLevel {
    /// Enables logging for critical conditions.
    Fatal,
    /// Enables logging for error conditions.
    Error,
    /// Enables logging for warning conditions.
    Warn,
    /// Enables logging for normal but significant conditions.
    Notice,
    /// Enables logging for verbose informational messages.
    Verbose,
    /// Enables logging for debug-level messages.
    Debug,
    /// Enables logging for trace debug-level messages.
    Trace,
    /// Enables logging for extra debug-level messages.
    Extra,
}

/// Arguments for database initialization.
#[derive(Clone, Debug)]
pub struct DatabaseArguments {
    /// Client version that accesses the database.
    client_version: ClientVersion,
    /// Database log level. If `None`, the default value is used.
    log_level: Option<LogLevel>,
}

impl DatabaseArguments {
    /// The client version of the arguments.
    pub closed spec fn version(&self) -> ClientVersion {
        self.client_version
    }

    /// The log level of the arguments.
    pub closed spec fn level(&self) -> Option<LogLevel> {
        self.log_level
    }

    /// New database arguments with the given client version and the default
    /// log level.
    pub fn new(client_version: ClientVersion) -> (r: Self)
        ensures
            r.version() == client_version,
            r.level() is None,
    {
        Self { client_version, log_level: None }
    }

    /// Sets the log level.
    pub fn with_log_level(self, log_level: Option<LogLevel>) -> (r: Self)
        ensures
            r.version() == self.version(),
            r.level() == log_level,
    {
        Self { client_version: self.client_version, log_level }
    }

    /// Sets the maximum duration of a read transaction. The store has no
    /// such limit, so the arguments stay as they are.
    pub fn with_max_read_transaction_duration(
        self,
        _max_read_transaction_duration: Option<MaxReadTransactionDuration>,
    ) -> (r: Self)
        ensures
            r == self,
    {
        self
    }

    /// Sets the exclusive flag. The store has no such flag, so the arguments
    /// stay as they are.
    pub fn with_exclusive(self, _exclusive: Option<bool>) -> (r: Self)
        ensures
            r == self,
    {
        self
    }

    /// The client version.
    pub fn client_version(&self) -> (r: &ClientVersion)
        ensures
            *r == self.version(),
    {
        &self.client_version
    }

    /// The log level, if one was set.
    pub fn log_level(&self) -> (r: Option<LogLevel>)
        ensures
            r == self.level(),
    {
        self.log_level
    }
}

/// The name and the key layout of a table to create.
pub struct TableDef {
    /// Name of the table.
    pub name: String,
    /// Key layout of the table.
    pub layout: KeyLayout,
}

/// Every table is consistent.
pub open spec fn tables_wf(tables: Seq<Table>) -> bool {
    forall|i: int| 0 <= i < tables.len() ==> (#[trigger] tables[i]).wf()
}

/// The index of the first table with this name, or the number of tables if
/// there is none.
pub open spec fn index_of(tables: Seq<Table>, name: Seq<char>) -> int
    decreases tables.len(),
{
    if tables.len() == 0 {
        0
    } else if tables[0].name() == name {
        0
    } else {
        1 + index_of(tables.skip(1), name)
    }
}

/// `index_of` finds the first table of the name.
pub proof fn lemma_index_of(tables: Seq<Table>, name: Seq<char>)
    ensures
        0 <= index_of(tables, name) <= tables.len(),
        index_of(tables, name) < tables.len() ==> tables[index_of(tables, name)].name() == name,
        forall|i: int| 0 <= i < index_of(tables, name) ==> (#[trigger] tables[i]).name() != name,
    decreases tables.len(),
{
    if tables.len() > 0 && tables[0].name() != name {
        let rest = tables.skip(1);
        lemma_index_of(rest, name);
        assert forall|i: int| 0 <= i < index_of(tables, name) implies (#[trigger] tables[i]).name()
            != name by {
            if i > 0 {
                assert(rest[i - 1] == tables[i]);
            }
        }
    }
}

/// The definition at index `k` is the first one of this name.
pub open spec fn first_def(defs: Seq<TableDef>, k: int, name: Seq<char>) -> bool {
    &&& 0 <= k < defs.len()
    &&& defs[k].name@ == name
    &&& forall|j: int| 0 <= j < k ==> (#[trigger] defs[j]).name@ != name
}

/// The table is the one that the definitions define for its name: it has the
/// layout of the first definition of that name.
pub open spec fn defined_by(defs: Seq<TableDef>, table: Table) -> bool {
    exists|k: int| first_def(defs, k, table.name()) && table.layout() == defs[k].layout
}

/// The tables are what opening an environment makes of the definitions: one
/// empty table for every name that the definitions define, in the order of the
/// first definitions of the names, each as its first definition defines it.
pub open spec fn opened(tables: Seq<Table>, defs: Seq<TableDef>) -> bool {
    &&& forall|i: int|
        0 <= i < tables.len() ==> {
            &&& (#[trigger] tables[i]).entries().len() == 0
            &&& tables[i].pairs() == Seq::<(Seq<u8>, Seq<u8>)>::empty()
            &&& defined_by(defs, tables[i])
            &&& index_of(tables, tables[i].name()) == i
        }
    &&& forall|j: int|
        0 <= j < defs.len() ==> index_of(tables, (#[trigger] defs[j]).name@) < tables.len()
}

/// Creating the table of the next definition makes the tables what opening
/// makes of the definitions up to that one.
proof fn lemma_open_step(before: Seq<Table>, after: Seq<Table>, defs: Seq<TableDef>, j: int)
    requires
        0 <= j < defs.len(),
        opened(before, defs.take(j)),
        index_of(before, defs[j].name@) == index_of(after, defs[j].name@),
        index_of(after, defs[j].name@) < after.len(),
        if index_of(before, defs[j].name@) < before.len() {
            after == before
        } else {
            &&& after.len() == before.len() + 1
            &&& after.take(before.len() as int) == before
            &&& after[before.len() as int].entries().len() == 0
            &&& after[before.len() as int].pairs() == Seq::<(Seq<u8>, Seq<u8>)>::empty()
            &&& after[before.len() as int].layout() == defs[j].layout
            &&& after[before.len() as int].name() == defs[j].name@
        },
    ensures
        opened(after, defs.take(j + 1)),
{
    let name = defs[j].name@;
    let old_defs = defs.take(j);
    let new_defs = defs.take(j + 1);
    let n = before.len() as int;
    lemma_index_of(before, name);
    assert forall|k: int| 0 <= k < old_defs.len() implies (#[trigger] new_defs[k])
        == old_defs[k] by {}
    assert forall|i: int| 0 <= i < n implies after[i] == before[i] by {
        if after.len() > n {
            assert(after.take(n)[i] == after[i]);
        }
    }
    assert forall|i: int| 0 <= i < after.len() implies {
        &&& (#[trigger] after[i]).entries().len() == 0
        &&& after[i].pairs() == Seq::<(Seq<u8>, Seq<u8>)>::empty()
        &&& defined_by(new_defs, after[i])
        &&& index_of(after, after[i].name()) == i
    } by {
        let t = after[i];
        lemma_index_of(after, t.name());
        let at = index_of(after, t.name());
        if i < n {
            assert(t == before[i]);
            lemma_index_of(before, t.name());
            if at < i {
                assert(after[at] == before[at]);
            }
            let k = choose|k: int|
                first_def(old_defs, k, before[i].name()) && before[i].layout()
                    == old_defs[k].layout;
            assert(first_def(new_defs, k, t.name())) by {
                assert forall|x: int| 0 <= x < k implies (#[trigger] new_defs[x]).name@
                    != t.name() by {
                    assert(old_defs[x].name@ != t.name());
                }
            }
            assert(t.layout() == new_defs[k].layout);
        } else {
            assert(first_def(new_defs, j, name)) by {
                assert forall|k: int| 0 <= k < j implies (#[trigger] new_defs[k]).name@
                    != name by {
                    assert(index_of(before, old_defs[k].name@) < n);
                }
            }
            assert(t.layout() == new_defs[j].layout);
        }
    }
    assert forall|k: int| 0 <= k < new_defs.len() implies index_of(
        after,
        (#[trigger] new_defs[k]).name@,
    ) < after.len() by {
        if k < j {
            assert(new_defs[k] == old_defs[k]);
            let nm = old_defs[k].name@;
            lemma_index_of(before, nm);
            lemma_index_of(after, nm);
            let at = index_of(before, nm);
            assert(after[at] == before[at]);
        }
    }
}

/// The index of the first table with this name.
pub fn find_table(tables: &Vec<Table>, name: &str) -> (r: Option<usize>)
    ensures
        match r {
            Some(i) => i == index_of(tables@, name@) && i < tables@.len(),
            None => index_of(tables@, name@) == tables@.len(),
        },
{
    let mut i: usize = 0;
    proof {
        lemma_index_of(tables@, name@);
    }
    while i < tables.len()
        invariant
            i <= tables@.len(),
            forall|j: int| 0 <= j < i ==> (#[trigger] tables@[j]).name() != name@,
            0 <= index_of(tables@, name@) <= tables@.len(),
            index_of(tables@, name@) < tables@.len() ==> tables@[index_of(tables@, name@)].name()
                == name@,
            forall|j: int|
                0 <= j < index_of(tables@, name@) ==> (#[trigger] tables@[j]).name() != name@,
        decreases tables@.len() - i,
    {
        if str_eq(tables[i].table_name(), name) {
            return Some(i);
        }
        i += 1;
    }
    None
}

/// Whether two strings are equal.
pub fn str_eq(a: &str, b: &str) -> (r: bool)
    ensures
        r == (a@ == b@),
{
    let x = a.to_owned();
    let y = b.to_owned();
    x == y
}

/// The tables of a database, as of the last commit.
pub struct DatabaseEnv {
    tables: Vec<Table>,
    metrics: bool,
}

impl DatabaseEnv {
    /// The tables, in the order in which they were created.
    pub closed spec fn tables(&self) -> Seq<Table> {
        self.tables@
    }

    /// Whether metrics are recorded.
    pub closed spec fn metrics(&self) -> bool {
        self.metrics
    }

    /// Every table of the environment is consistent.
    pub open spec fn wf(&self) -> bool {
        tables_wf(self.tables())
    }

    /// Opens an environment with one empty table for each definition, in the
    /// order of the definitions. A name that occurs twice gets one table, with
    /// the layout of its first definition.
    pub fn open(_kind: DatabaseEnvKind, _args: DatabaseArguments, defs: &Vec<TableDef>) -> (r:
        Result<DatabaseEnv, DatabaseError>)
        ensures
            r matches Ok(env) ==> env.wf() && !env.metrics() && opened(env.tables(), defs@),
            r is Err <==> exists|j: int|
                0 <= j < defs@.len() && !(#[trigger] defs@[j]).layout.valid(),
            r matches Err(e) ==> e.is_create_table("InvalidLayout"@),
    {
        let mut env = DatabaseEnv { tables: Vec::new(), metrics: false };
        let mut j: usize = 0;
        while j < defs.len()
            invariant
                j <= defs@.len(),
                env.wf(),
                !env.metrics(),
                opened(env.tables(), defs@.take(j as int)),
                forall|k: int| 0 <= k < j ==> (#[trigger] defs@[k]).layout.valid(),
            decreases defs@.len() - j,
        {
            let ghost before = env.tables();
            match env.create_table(defs[j].name.as_str(), defs[j].layout) {
                Err(e) => {
                    return Err(e);
                },
                Ok(_) => {},
            }
            proof {
                lemma_open_step(before, env.tables(), defs@, j as int);
            }
            j += 1;
        }
        assert(defs@.take(j as int) =~= defs@);
        Ok(env)
    }

    /// Creates the table if the environment has no table of this name, and
    /// returns the index of the table of this name.
    pub fn create_table(&mut self, name: &str, layout: KeyLayout) -> (r: Result<
        usize,
        DatabaseError,
    >)
        requires
            old(self).wf(),
        ensures
            final(self).wf(),
            final(self).metrics() == old(self).metrics(),
            r is Err <==> !layout.valid(),
            r matches Err(e) ==> e.is_create_table("InvalidLayout"@) && final(self).tables() == old(
                self,
            ).tables(),
            r matches Ok(i) ==> {
                &&& i == index_of(old(self).tables(), name@)
                &&& i == index_of(final(self).tables(), name@)
                &&& i < final(self).tables().len()
                &&& if i < old(self).tables().len() {
                    final(self).tables() == old(self).tables()
                } else {
                    &&& final(self).tables().len() == old(self).tables().len() + 1
                    &&& final(self).tables().take(i as int) == old(self).tables()
                    &&& final(self).tables()[i as int].entries().len() == 0
                    &&& final(self).tables()[i as int].pairs() == Seq::<
                        (Seq<u8>, Seq<u8>),
                    >::empty()
                    &&& final(self).tables()[i as int].layout() == layout
                    &&& final(self).tables()[i as int].name() == name@
                }
            },
    {
        match layout {
            KeyLayout::Plain => {},
            KeyLayout::DupSort { key_len, subkey_len } => {
                if key_len > usize::MAX - crate::dups::TIE_LEN || subkey_len > usize::MAX
                    - crate::dups::TIE_LEN - key_len {
                    return Err(create_table_error("InvalidLayout"));
                }
            },
        }
        proof {
            lemma_index_of(self.tables@, name@);
        }
        match find_table(&self.tables, name) {
            Some(i) => Ok(i),
            None => {
                match Table::new(name, layout) {
                    Err(e) => Err(e),
                    Ok(table) => {
                        let i: usize = self.tables.len();
                        self.tables.push(table);
                        proof {
                            assert(self.tables@.take(i as int) =~= old(self).tables@);
                            lemma_index_of(self.tables@, name@);
                            let at = index_of(self.tables@, name@);
                            if at < i {
                                assert(self.tables@[at] == old(self).tables@[at]);
                            }
                        }
                        Ok(i)
                    },
                }
            },
        }
    }

    /// Creates all the defined tables, if necessary. Opening the environment
    /// has created them already.
    pub fn create_tables(&mut self) -> (r: Result<(), DatabaseError>)
        ensures
            r is Ok,
            *final(self) == *old(self),
    {
        Ok(())
    }

    /// Enables metrics on the database.
    pub fn with_metrics(self) -> (r: Self)
        ensures
            r.tables() == self.tables(),
            r.metrics(),
    {
        DatabaseEnv { tables: self.tables, metrics: true }
    }

    /// Records the version of the client that accesses the database with
    /// write privileges. The store keeps no version history.
    pub fn record_client_version(&self, _version: ClientVersion) -> (r: Result<
        (),
        DatabaseError,
    >)
        ensures
            r is Ok,
    {
        Ok(())
    }

    /// The index of the table with this name.
    pub fn table_id(&self, name: &str) -> (r: Option<usize>)
        ensures
            match r {
                Some(i) => i == index_of(self.tables(), name@) && i < self.tables().len(),
                None => index_of(self.tables(), name@) == self.tables().len(),
            },
    {
        find_table(&self.tables, name)
    }

    /// A copy of every table.
    pub(crate) fn snapshot(&self) -> (r: Vec<Table>)
        requires
            self.wf(),
        ensures
            tables_wf(r@),
            r@.len() == self.tables().len(),
            forall|i: int|
                0 <= i < r@.len() ==> (#[trigger] r@[i]).entries() == self.tables()[i].entries()
                    && r@[i].layout() == self.tables()[i].layout() && r@[i].name()
                    == self.tables()[i].name(),
    {
        let mut r: Vec<Table> = Vec::new();
        let mut i: usize = 0;
        while i < self.tables.len()
            invariant
                i <= self.tables@.len(),
                r@.len() == i,
                self.wf(),
                tables_wf(r@),
                forall|j: int|
                    0 <= j < i ==> (#[trigger] r@[j]).entries() == self.tables@[j].entries()
                        && r@[j].layout() == self.tables@[j].layout() && r@[j].name()
                        == self.tables@[j].name(),
            decreases self.tables@.len() - i,
        {
            assert(self.tables()[i as int].wf());
            let t = self.tables[i].duplicate();
            r.push(t);
            i += 1;
        }
        r
    }

    /// Replaces the tables.
    pub(crate) fn install(&mut self, tables: Vec<Table>)
        ensures
            final(self).tables() == tables@,
            final(self).metrics() == old(self).metrics(),
    {
        self.tables = tables;
    }

    /// The number of tables.
    pub fn table_count(&self) -> (n: usize)
        ensures
            n == self.tables().len(),
    {
        self.tables.len()
    }

    /// The table with this index.
    pub fn table(&self, id: usize) -> (r: Option<&Table>)
        ensures
            match r {
                Some(t) => id < self.tables().len() && *t == self.tables()[id as int],
                None => id >= self.tables().len(),
            },
    {
        if id < self.tables.len() {
            Some(&self.tables[id])
        } else {
            None
        }
    }
}

} // verus!
