pub mod bincode;

use vstd::prelude::*;
use crate::datasource::bincode::Bincode;

verus! {

/// A PostgreSQL store: the connection string and the name of the list.
#[derive(Debug)]
pub struct PostgresSource {
    pub connection_string: String,
    pub list: String,
}

/// The store that holds a list of tasks.
#[derive(Debug)]
pub enum DataSource {
    /// A file written with bincode.
    Bincode(Bincode),
    /// A table of a PostgreSQL database.
    Postgres(PostgresSource),
}

} // verus!
