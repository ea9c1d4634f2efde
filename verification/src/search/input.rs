//! Search request types, and the limits a request is built with.

use vstd::prelude::*;

use crate::constants::DEFAULT_LIMIT;
use crate::error::{TalonError, TalonResult};
use crate::search::constants::CANDIDATE_FLOOR_U16;
use crate::tool::{zero_count_message, PositiveCount};

verus! {

/// Search mode.
#[derive(Debug, Clone, Copy, PartialEq, Eq, Structural)]
pub enum SearchMode {
    /// Hybrid lexical plus semantic search.
    Hybrid,
    /// Semantic-only search.
    Semantic,
    /// Full-text search.
    Fulltext,
    /// Title and alias search.
    Title,
}

impl Default for SearchMode {
    fn default() -> (r: Self)
        ensures
            r == SearchMode::Hybrid,
    {
        SearchMode::Hybrid
    }
}

/// Related-note traversal direction.
#[derive(Debug, Clone, Copy, PartialEq, Eq, Structural)]
pub enum Direction {
    /// Outgoing wikilinks.
    Outgoing,
    /// Backlinks.
    Backlinks,
    /// Outgoing wikilinks and backlinks.
    Both,
}

impl Default for Direction {
    fn default() -> (r: Self)
        ensures
            r == Direction::Both,
    {
        Direction::Both
    }
}

/// `--where` filter operator.
#[derive(Debug, Clone, Copy, PartialEq, Eq, Structural)]
pub enum WhereOperator {
    Equals,
    NotEquals,
    LessThan,
    LessThanOrEqual,
    GreaterThan,
    GreaterThanOrEqual,
    Contains,
    Exists,
    /// Starts-with / prefix match (`^=`).
    StartsWith,
    /// Glob pattern match (`~=`), in `globset` syntax.
    GlobMatch,
}

/// A single `--where` filter clause.
#[derive(Debug, Clone, PartialEq, Eq)]
pub struct WhereClause {
    /// Frontmatter key to filter on.
    pub key: String,
    /// Comparison operator.
    pub op: WhereOperator,
    /// Value to compare against (omitted for `exists`).
    pub value: Option<String>,
}

/// The limits a search configuration sets.
#[derive(Debug, Clone, Copy, PartialEq, Eq, Structural)]
pub struct SearchConfigLimits {
    /// Result limit.
    pub limit: u16,
    /// Candidate pool size for fusion and rerank over-fetch.
    pub candidate_limit: u16,
}

/// The `(limit, candidate_limit)` a request starts from: the configured
/// ones, or the defaults without a configuration.
pub open spec fn configured_limits(config: Option<SearchConfigLimits>) -> (u16, u16) {
    match config {
        Some(c) => (c.limit, c.candidate_limit),
        None => (DEFAULT_LIMIT, CANDIDATE_FLOOR_U16),
    }
}

/// The request limits seeded from a configuration (the defaults without
/// one).
///
/// # Errors
///
/// Returns [`TalonError::InvalidInput`] naming `limit`, or else
/// `candidate_limit`, when the configured value is zero.
pub fn search_limits_from_config(config: Option<SearchConfigLimits>) -> (r: TalonResult<
    (PositiveCount, PositiveCount),
>)
    ensures
        r is Ok <==> configured_limits(config).0 > 0 && configured_limits(config).1 > 0,
        r matches Ok(p) ==> p.0@ == configured_limits(config).0 && p.1@ == configured_limits(config).1,
        r matches Err(e) ==> e matches TalonError::InvalidInput { field: f, message: m } && m@
            == zero_count_message() && f == (if configured_limits(config).0 == 0 {
            "limit"
        } else {
            "candidate_limit"
        }),
{
    let (limit, candidate_limit) = match config {
        Some(c) => (c.limit, c.candidate_limit),
        None => (DEFAULT_LIMIT, CANDIDATE_FLOOR_U16),
    };
    let l = match PositiveCount::new(limit, "limit") {
        Ok(l) => l,
        Err(e) => return Err(e),
    };
    let c = match PositiveCount::new(candidate_limit, "candidate_limit") {
        Ok(c) => c,
        Err(e) => return Err(e),
    };
    Ok((l, c))
}

/// The limits of a command-line search: the configured limits (checked
/// first), each replaced by its flag when given.
///
/// # Errors
///
/// Returns [`TalonError::InvalidInput`] for the first zero among the
/// configured limit, the configured candidate limit, the `limit` flag and
/// the `candidate_limit` flag, naming that field.
pub fn cli_search_limits(
    limit: Option<u16>,
    candidate_limit: Option<u16>,
    config: Option<SearchConfigLimits>,
) -> (r: TalonResult<(PositiveCount, PositiveCount)>)
    ensures
        r is Ok <==> configured_limits(config).0 > 0 && configured_limits(config).1 > 0 && limit
            != Some(0u16) && candidate_limit != Some(0u16),
        r matches Ok(p) ==> p.0@ == (match limit {
            Some(v) => v,
            None => configured_limits(config).0,
        }) && p.1@ == (match candidate_limit {
            Some(v) => v,
            None => configured_limits(config).1,
        }),
        r matches Err(e) ==> e matches TalonError::InvalidInput { field: f, message: m } && m@
            == zero_count_message() && f == (if configured_limits(config).0 == 0 || (
        configured_limits(config).1 > 0 && limit == Some(0u16)) {
            "limit"
        } else {
            "candidate_limit"
        }),
{
    let (mut l, mut c) = match search_limits_from_config(config) {
        Ok(p) => p,
        Err(e) => return Err(e),
    };
    if let Some(v) = limit {
        l = match PositiveCount::new(v, "limit") {
            Ok(x) => x,
            Err(e) => return Err(e),
        };
    }
    if let Some(v) = candidate_limit {
        c = match PositiveCount::new(v, "candidate_limit") {
            Ok(x) => x,
            Err(e) => return Err(e),
        };
    }
    Ok((l, c))
}

} // verus!
