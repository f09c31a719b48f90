//! The kinds of database a connection can reach.

use vstd::prelude::*;

verus! {

/// The kind of database behind a named connection.
#[derive(Debug, Clone, Copy, PartialEq, Eq, Structural)]
pub enum DatabaseKind {
    SQLite,
    Postgres,
}

impl DeepView for DatabaseKind {
    type V = DatabaseKind;

    open spec fn deep_view(&self) -> DatabaseKind {
        *self
    }
}

/// The name of a database kind, as its variant is spelled.
pub open spec fn kind_name(kind: DatabaseKind) -> Seq<char> {
    match kind {
        DatabaseKind::SQLite => "SQLite"@,
        DatabaseKind::Postgres => "Postgres"@,
    }
}

impl DatabaseKind {
    /// The name of the kind, as its variant is spelled.
    pub fn name(&self) -> (r: String)
        ensures
            r@ == kind_name(*self),
    {
        match self {
            DatabaseKind::SQLite => String::from_str("SQLite"),
            DatabaseKind::Postgres => String::from_str("Postgres"),
        }
    }
}

} // verus!
