use vstd::prelude::*;
use vstd::string::*;
use std::path::PathBuf;
use crate::error::Error;
use crate::datasource::{DataSource, PostgresSource};
use crate::datasource::bincode::Bincode;

verus! {

#[verifier::external_type_specification]
#[verifier::external_body]
pub struct ExPathBuf(PathBuf);

/// The path that `PathBuf::from` makes of `text`.
pub uninterp spec fn path_of(text: Seq<char>) -> PathBuf;

/// The path that `Path::join` makes of `base` and `part`.
pub uninterp spec fn path_joined(base: PathBuf, part: Seq<char>) -> PathBuf;

/// `PathBuf::from`: the path that holds `text`.
#[verifier::external_body]
fn path_from(text: &str) -> (p: PathBuf)
    ensures
        p == path_of(text@),
{
    PathBuf::from(text)
}

/// `Path::join`: `base` with `part` pushed onto it.
#[verifier::external_body]
fn join_path(base: &PathBuf, part: &str) -> (p: PathBuf)
    ensures
        p == path_joined(*base, part@),
{
    base.join(part)
}

/// `dirs::config_dir`: the user's configuration directory, where the
/// platform has one. What it returns depends on the environment, so nothing
/// is stated of it.
#[verifier::external_body]
fn config_dir() -> Option<PathBuf> {
    dirs::config_dir()
}

/// A value of a TOML configuration, as far as the configuration is read:
/// a string, a table, or anything else.
#[derive(Debug)]
pub enum ConfigValue {
    Str(String),
    Table(ConfigTable),
    Other,
}

/// A TOML table: its keys with their values.
#[derive(Debug)]
pub struct ConfigTable {
    pub entries: Vec<(String, ConfigValue)>,
}

/// The value of the first entry from index `i` on whose key is `key`.
pub open spec fn lookup_from(entries: Seq<(String, ConfigValue)>, key: Seq<char>, i: int) -> Option<ConfigValue>
    decreases entries.len() - i,
{
    if i < 0 || i >= entries.len() {
        None
    } else if entries[i].0@ == key {
        Some(entries[i].1)
    } else {
        lookup_from(entries, key, i + 1)
    }
}

/// The value of the first entry whose key is `key`.
pub open spec fn lookup(entries: Seq<(String, ConfigValue)>, key: Seq<char>) -> Option<ConfigValue> {
    lookup_from(entries, key, 0)
}

impl ConfigTable {
    /// The value under `key`.
    pub fn get(&self, key: &str) -> (v: Option<&ConfigValue>)
        ensures
            match lookup(self.entries@, key@) {
                Some(x) => v == Some(&x),
                None => v is None,
            },
    {
        let wanted = key.to_owned();
        let mut i: usize = 0;
        while i < self.entries.len()
            invariant
                i <= self.entries@.len(),
                wanted@ == key@,
                lookup(self.entries@, key@) == lookup_from(self.entries@, key@, i as int),
            decreases self.entries@.len() - i,
        {
            if self.entries[i].0 == wanted {
                return Some(&self.entries[i].1);
            }
            i = i + 1;
        }
        None
    }
}

/// Where the tasks are kept.
#[derive(Debug)]
pub enum DataSourceType {
    /// In files under this directory, one per list.
    Bincode(PathBuf),
    /// In a PostgreSQL database, reached with this connection string.
    Postgres(String),
}

/// The default place for the tasks, under configuration directory `dir`
/// (the working directory where there is none).
pub open spec fn default_source_in(dir: Option<PathBuf>) -> DataSourceType {
    let base = match dir {
        Some(d) => d,
        None => path_of("./"@),
    };
    DataSourceType::Bincode(path_joined(path_joined(base, "nextup"@), "default"@))
}

/// What `from_toml` makes of a configuration with entries `t`.
pub open spec fn from_toml_result(t: Seq<(String, ConfigValue)>, r: Result<DataSourceType, Error>) -> bool {
    match lookup(t, "data_source"@) {
        Some(ConfigValue::Str(dstype)) => {
            let section = lookup(t, dstype@);
            if section matches Some(x) && !(x is Table) {
                r matches Err(e) && e.says(dstype@ + " must be a table"@)
            } else if dstype@ == "bincode"@ {
                match section {
                    Some(ConfigValue::Table(s)) => match lookup(s.entries@, "path"@) {
                        Some(ConfigValue::Str(p)) => r == Ok::<DataSourceType, Error>(DataSourceType::Bincode(path_of(p@))),
                        Some(_) => r matches Err(e) && e.says("path must be a string"@),
                        None => r matches Ok(d) && exists|dir: Option<PathBuf>| d == default_source_in(dir),
                    },
                    _ => r matches Ok(d) && exists|dir: Option<PathBuf>| d == default_source_in(dir),
                }
            } else if dstype@ == "postgres"@ {
                match section {
                    Some(ConfigValue::Table(s)) => match lookup(s.entries@, "connection_string"@) {
                        Some(ConfigValue::Str(c)) => r matches Ok(d) && d matches DataSourceType::Postgres(c2) && c2@ == c@,
                        _ => r matches Err(e) && e.says("connection_string must be provided"@),
                    },
                    _ => r matches Ok(d) && exists|dir: Option<PathBuf>| d == default_source_in(dir),
                }
            } else {
                r matches Err(e) && e.says("unknown data source type: "@ + dstype@)
            }
        },
        _ => r matches Err(e) && e.says("data source must be a string"@),
    }
}

impl DataSourceType {
    /// The default place for the tasks under configuration directory `dir`.
    pub fn default_in(dir: Option<PathBuf>) -> (d: DataSourceType)
        ensures
            d == default_source_in(dir),
    {
        let base = match dir {
            Some(d) => d,
            None => path_from("./"),
        };
        let path = join_path(&base, "nextup");
        DataSourceType::Bincode(join_path(&path, "default"))
    }

    /// Where the configuration `table` says the tasks are kept: the section
    /// named by `data_source` configures that kind of store, and a missing
    /// section or path falls back to the default.
    pub fn from_toml(table: &ConfigTable) -> (r: Result<DataSourceType, Error>)
        ensures
            from_toml_result(table.entries@, r),
    {
        let dstype = match table.get("data_source") {
            Some(ConfigValue::Str(s)) => s,
            _ => return Err(Error::new("data source must be a string")),
        };
        let dstype_table = match table.get(dstype.as_str()) {
            Some(ConfigValue::Table(t)) => Some(t),
            None => None,
            _ => return Err(Error::Message(dstype.clone().concat(" must be a table"))),
        };
        if *dstype == "bincode".to_owned() {
            match dstype_table {
                Some(dstype_table) => match dstype_table.get("path") {
                    Some(ConfigValue::Str(p)) => Ok(DataSourceType::Bincode(path_from(p.as_str()))),
                    Some(_) => Err(Error::new("path must be a string")),
                    None => Ok(Self::default()),
                },
                None => Ok(Self::default()),
            }
        } else if *dstype == "postgres".to_owned() {
            match dstype_table {
                Some(dstype_table) => match dstype_table.get("connection_string") {
                    Some(ConfigValue::Str(p)) => Ok(DataSourceType::Postgres(p.clone())),
                    _ => Err(Error::new("connection_string must be provided")),
                },
                None => Ok(Self::default()),
            }
        } else {
            Err(Error::Message("unknown data source type: ".to_owned().concat(dstype.as_str())))
        }
    }

    /// The store of list `list`: its file under the directory, or the
    /// database with the list's name.
    pub fn data_source(&self, list: &str) -> (d: DataSource)
        ensures
            self matches DataSourceType::Bincode(path) ==> d == DataSource::Bincode(Bincode { path: path_joined(*path, list@) }),
            self matches DataSourceType::Postgres(c) ==> (d matches DataSource::Postgres(p)
                && p.connection_string@ == c@ && p.list@ == list@),
    {
        match self {
            DataSourceType::Bincode(path) => DataSource::Bincode(Bincode { path: join_path(path, list) }),
            DataSourceType::Postgres(connection_string) => DataSource::Postgres(PostgresSource {
                connection_string: connection_string.clone(),
                list: list.to_owned(),
            }),
        }
    }
}

impl Default for DataSourceType {
    /// The file store under the user's configuration directory.
    fn default() -> (d: DataSourceType)
        ensures
            exists|dir: Option<PathBuf>| d == default_source_in(dir),
    {
        let dir = config_dir();
        Self::default_in(dir)
    }
}

/// The name of the list used where the configuration names none.
pub fn default_list() -> (s: String)
    ensures
        s@ == "list"@,
{
    "list".to_owned()
}

/// Where the tasks are kept, and which list is used.
#[derive(Debug)]
pub struct Config {
    pub data_source: DataSourceType,
    pub list: String,
}

/// What `Config::from_table` makes of a configuration with entries `t`.
pub open spec fn from_table_result(t: Seq<(String, ConfigValue)>, r: Result<Config, Error>) -> bool {
    match lookup(t, "list"@) {
        Some(ConfigValue::Str(l)) => match r {
            Ok(c) => c.list@ == l@ && from_toml_result(t, Ok(c.data_source)),
            Err(e) => from_toml_result(t, Err(e)),
        },
        None => match r {
            Ok(c) => c.list@ == "list"@ && from_toml_result(t, Ok(c.data_source)),
            Err(e) => from_toml_result(t, Err(e)),
        },
        Some(_) => r matches Err(e) && e.says("list must be a string"@),
    }
}

/// What `toml::from_str` makes of the TOML document `text`, as `read_toml`
/// hands it on: the table, or the parser's message.
pub uninterp spec fn toml_document(text: Seq<char>) -> Result<ConfigTable, Seq<char>>;

/// `toml::from_str` into a `toml::Table`: the document `text` parsed, with
/// its keys and values copied into a `ConfigTable` (strings and tables as
/// such, other values as `Other`; inside a table, which the configuration
/// reads no deeper, a table is `Other` too), or the parser's error message.
#[verifier::external_body]
fn read_toml(text: &str) -> (r: Result<ConfigTable, String>)
    ensures
        match r {
            Ok(t) => toml_document(text@) == Ok::<ConfigTable, Seq<char>>(t),
            Err(m) => toml_document(text@) == Err::<ConfigTable, Seq<char>>(m@),
        },
{
    match toml::from_str::<toml::Table>(text) {
        Ok(t) => Ok(ConfigTable { entries: t.into_iter().map(|(k, v)| (k, match v {
            toml::Value::String(s) => ConfigValue::Str(s),
            toml::Value::Table(u) => ConfigValue::Table(ConfigTable { entries: u.into_iter().map(|(j, w)| (j, match w {
                toml::Value::String(s) => ConfigValue::Str(s),
                _ => ConfigValue::Other,
            })).collect() }),
            _ => ConfigValue::Other,
        })).collect() }),
        Err(e) => Err(e.to_string()),
    }
}

impl Config {
    /// The configuration written in TOML in `text`: a document that does not
    /// parse is an error with the parser's message, else `from_table` reads it.
    pub fn from_toml_text(text: &str) -> (r: Result<Config, Error>)
        ensures
            match toml_document(text@) {
                Ok(t) => from_table_result(t.entries@, r),
                Err(m) => r matches Err(e) && e.says(m),
            },
    {
        match read_toml(text) {
            Ok(table) => Self::from_table(&table),
            Err(message) => Err(Error::Message(message)),
        }
    }

    /// The configuration that `table` describes: `list` names the list (by
    /// default `"list"`), the rest is read by `DataSourceType::from_toml`.
    pub fn from_table(table: &ConfigTable) -> (r: Result<Config, Error>)
        ensures
            from_table_result(table.entries@, r),
    {
        let list = match table.get("list") {
            Some(ConfigValue::Str(s)) => s.clone(),
            None => default_list(),
            _ => return Err(Error::new("list must be a string")),
        };
        match DataSourceType::from_toml(table) {
            Ok(data_source) => Ok(Config { data_source, list }),
            Err(e) => Err(e),
        }
    }

    /// The store of the configured list.
    pub fn data_source(&self) -> (d: DataSource)
        ensures
            self.data_source matches DataSourceType::Bincode(path)
                ==> d == DataSource::Bincode(Bincode { path: path_joined(path, self.list@) }),
            self.data_source matches DataSourceType::Postgres(c) ==> (d matches DataSource::Postgres(p)
                && p.connection_string@ == c@ && p.list@ == self.list@),
    {
        self.data_source.data_source(&self.list)
    }
}


/// The places where a configuration file is looked for, in order: the
/// working directory's `.nextup.toml` and `.nextup.conf`, then `config.toml`
/// and `config.conf` under `nextup` in configuration directory `dir` (the
/// working directory where there is none), then `/etc/nextup.toml`.
pub open spec fn candidates_in(dir: Option<PathBuf>) -> Seq<PathBuf> {
    let base = path_joined(match dir {
        Some(d) => d,
        None => path_of("./"@),
    }, "nextup"@);
    seq![
        path_of("./.nextup.toml"@),
        path_of("./.nextup.conf"@),
        path_joined(base, "config.toml"@),
        path_joined(base, "config.conf"@),
        path_of("/etc/nextup.toml"@),
    ]
}

impl Config {
    /// The places where a configuration file is looked for, given the
    /// configuration directory `dir`.
    pub fn candidate_paths_in(dir: Option<PathBuf>) -> (v: Vec<PathBuf>)
        ensures
            v@ == candidates_in(dir),
    {
        let base = match dir {
            Some(d) => d,
            None => path_from("./"),
        };
        let base = join_path(&base, "nextup");
        let mut v: Vec<PathBuf> = Vec::new();
        v.push(path_from("./.nextup.toml"));
        v.push(path_from("./.nextup.conf"));
        v.push(join_path(&base, "config.toml"));
        v.push(join_path(&base, "config.conf"));
        v.push(path_from("/etc/nextup.toml"));
        proof {
            assert(v@ =~= candidates_in(dir));
        }
        v
    }

    /// The places where a configuration file is looked for, under the user's
    /// configuration directory.
    pub fn candidate_paths() -> (v: Vec<PathBuf>)
        ensures
            exists|dir: Option<PathBuf>| v@ == candidates_in(dir),
    {
        Self::candidate_paths_in(config_dir())
    }
}

impl Default for Config {
    /// The default store and the list `"list"`.
    fn default() -> (c: Config)
        ensures
            exists|dir: Option<PathBuf>| c.data_source == default_source_in(dir),
            c.list@ == "list"@,
    {
        Config { data_source: DataSourceType::default(), list: default_list() }
    }
}

} // verus!
