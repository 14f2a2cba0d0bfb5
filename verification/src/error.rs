//! The error taxonomy of a seeding run.

use vstd::prelude::*;

verus! {

/// Everything that can abort a seeding run before or during generation.
///
/// Database-level failures are surfaced by the unverified persistence
/// layer and never constructed here.
#[derive(Debug, Clone, PartialEq, Eq)]
pub enum SeedError {
    /// The foreign-key graph over the plan's entities admits no
    /// topological order, so no row may be written.
    CyclicDependency,
    /// An `fk` field references a table whose primary-key pool does not
    /// exist (the parent was not part of the plan, or runs later).
    DependencyNotFound(String),
    /// A `from_pool` field names a data pool that was never supplied.
    PoolNotFound(String),
    /// A field's generator tag is outside the fixed vocabulary.
    UnknownGenerator(String),
    /// A semantically required generator parameter is absent.
    InvalidTemplate(String),
    /// The plan targets a table the schema does not contain.
    MissingTable(String),
    /// A primary-key column's declared type has no read-back rule.
    UnsupportedPkType(String),
}

/// The mathematical shadow of `SeedError`.
pub enum ErrV {
    CyclicDependency,
    DependencyNotFound(Seq<char>),
    PoolNotFound(Seq<char>),
    UnknownGenerator(Seq<char>),
    InvalidTemplate(Seq<char>),
    MissingTable(Seq<char>),
    UnsupportedPkType(Seq<char>),
}

impl View for SeedError {
    type V = ErrV;

    open spec fn view(&self) -> ErrV {
        match self {
            SeedError::CyclicDependency => ErrV::CyclicDependency,
            SeedError::DependencyNotFound(s) => ErrV::DependencyNotFound(s@),
            SeedError::PoolNotFound(s) => ErrV::PoolNotFound(s@),
            SeedError::UnknownGenerator(s) => ErrV::UnknownGenerator(s@),
            SeedError::InvalidTemplate(s) => ErrV::InvalidTemplate(s@),
            SeedError::MissingTable(s) => ErrV::MissingTable(s@),
            SeedError::UnsupportedPkType(s) => ErrV::UnsupportedPkType(s@),
        }
    }
}

impl SeedError {
    /// A short, stable tag for each variant, for reporting.
    pub fn tag(&self) -> (r: &'static str)
        ensures
            r@ == self.tag_spec(),
    {
        match self {
            SeedError::CyclicDependency => "cyclic dependency",
            SeedError::DependencyNotFound(_) => "dependency not found",
            SeedError::PoolNotFound(_) => "pool not found",
            SeedError::UnknownGenerator(_) => "unknown generator",
            SeedError::InvalidTemplate(_) => "invalid template",
            SeedError::MissingTable(_) => "missing table",
            SeedError::UnsupportedPkType(_) => "unsupported primary key type",
        }
    }

    pub open spec fn tag_spec(&self) -> Seq<char> {
        match self {
            SeedError::CyclicDependency => "cyclic dependency"@,
            SeedError::DependencyNotFound(_) => "dependency not found"@,
            SeedError::PoolNotFound(_) => "pool not found"@,
            SeedError::UnknownGenerator(_) => "unknown generator"@,
            SeedError::InvalidTemplate(_) => "invalid template"@,
            SeedError::MissingTable(_) => "missing table"@,
            SeedError::UnsupportedPkType(_) => "unsupported primary key type"@,
        }
    }

    /// The argument carried by the variant, if any: the pool, table or
    /// generator name the failure is about.
    pub fn detail(&self) -> (r: Option<&String>)
        ensures
            r == self.detail_spec(),
    {
        match self {
            SeedError::CyclicDependency => None,
            SeedError::DependencyNotFound(s) => Some(s),
            SeedError::PoolNotFound(s) => Some(s),
            SeedError::UnknownGenerator(s) => Some(s),
            SeedError::InvalidTemplate(s) => Some(s),
            SeedError::MissingTable(s) => Some(s),
            SeedError::UnsupportedPkType(s) => Some(s),
        }
    }

    pub open spec fn detail_spec(&self) -> Option<&String> {
        match self {
            SeedError::CyclicDependency => None,
            SeedError::DependencyNotFound(s) => Some(s),
            SeedError::PoolNotFound(s) => Some(s),
            SeedError::UnknownGenerator(s) => Some(s),
            SeedError::InvalidTemplate(s) => Some(s),
            SeedError::MissingTable(s) => Some(s),
            SeedError::UnsupportedPkType(s) => Some(s),
        }
    }
}

pub type SeedResult<T> = Result<T, SeedError>;

} // verus!
