//! MCP and CLI tool input/output contracts.
//!
//! These are the plain data types exchanged at the tool boundary; their wire
//! form (serde) lives beside the binary that speaks it.

use vstd::prelude::*;

use crate::constants::DEFAULT_LIMIT;
use crate::error::{TalonError, TalonResult};
use crate::text::unicode::{chars_of, trim, trim_bounds};

verus! {

// ── Positive count ──────────────────────────────────────────────────────────

/// A positive count accepted at the tool boundary.
#[derive(Debug, Clone, Copy, PartialEq, Eq, PartialOrd, Ord)]
pub struct PositiveCount(u16);

impl PositiveCount {
    #[verifier::type_invariant]
    spec fn is_positive(self) -> bool {
        self.0 > 0
    }
}

impl View for PositiveCount {
    type V = nat;

    closed spec fn view(&self) -> nat {
        self.0 as nat
    }
}

/// Message of the error for a zero count.
pub open spec fn zero_count_message() -> Seq<char> {
    "must be greater than zero"@
}

impl Default for PositiveCount {
    fn default() -> (r: Self)
        ensures
            r@ == DEFAULT_LIMIT,
    {
        PositiveCount(DEFAULT_LIMIT)
    }
}

impl PositiveCount {
    /// Builds a positive count.
    ///
    /// # Errors
    ///
    /// Returns [`TalonError::InvalidInput`] naming `field` when `value` is zero.
    pub fn new(value: u16, field: &'static str) -> (r: TalonResult<Self>)
        ensures
            r is Ok <==> value > 0,
            r matches Ok(c) ==> c@ == value,
            r matches Err(e) ==> e matches TalonError::InvalidInput { field: f, message: m } && f
                == field && m@ == zero_count_message(),
    {
        if value == 0 {
            let message = String::from_str("must be greater than zero");
            proof {
                reveal_strlit("must be greater than zero");
            }
            return Err(TalonError::InvalidInput { field, message });
        }
        Ok(PositiveCount(value))
    }

    /// Returns the primitive count, which is never zero.
    pub fn get(self) -> (r: u16)
        ensures
            r == self@,
            r > 0,
    {
        proof {
            use_type_invariant(&self);
        }
        self.0
    }
}

impl TryFrom<u16> for PositiveCount {
    type Error = TalonError;

    /// A positive count from a primitive one; zero is rejected as an
    /// invalid `count`.
    fn try_from(value: u16) -> (r: Result<Self, Self::Error>)
        ensures
            r is Ok <==> value > 0,
            r matches Ok(c) ==> c@ == value,
            r matches Err(e) ==> e matches TalonError::InvalidInput { field: f, message: m } && f == "count"
                && m@ == zero_count_message(),
    {
        Self::new(value, "count")
    }
}

impl vstd::std_specs::convert::TryFromSpecImpl<u16> for PositiveCount {
    /// What `try_from` gives is stated by [`PositiveCount::new`], which it
    /// calls with the field name `count`; no closed form is claimed here.
    open spec fn obeys_try_from_spec() -> bool {
        false
    }

    open spec fn try_from_spec(v: u16) -> Result<Self, TalonError> {
        arbitrary()
    }
}

impl From<PositiveCount> for u16 {
    /// The primitive count.
    fn from(value: PositiveCount) -> (r: u16) {
        value.0
    }
}

impl vstd::std_specs::convert::FromSpecImpl<PositiveCount> for u16 {
    open spec fn obeys_from_spec() -> bool {
        true
    }

    open spec fn from_spec(v: PositiveCount) -> u16 {
        v@ as u16
    }
}

// ── Path types ──────────────────────────────────────────────────────────────

/// Message of the error for a blank path.
pub open spec fn empty_path_message() -> Seq<char> {
    "must not be empty"@
}

/// Whether `value` holds only whitespace.
fn is_blank(value: &String) -> (b: bool)
    ensures
        b == (trim(value@).len() == 0),
{
    let cs = chars_of(value.as_str());
    let (a, z) = trim_bounds(cs.as_slice());
    a == z
}

/// The error for a blank path.
fn empty_path_error() -> (e: TalonError)
    ensures
        e matches TalonError::InvalidInput { field: f, message: m } && f == "path" && m@
            == empty_path_message(),
{
    let message = String::from_str("must not be empty");
    proof {
        reveal_strlit("must not be empty");
    }
    TalonError::InvalidInput { field: "path", message }
}

/// Vault-relative path returned by Talon.
#[derive(Debug, Clone, PartialEq, Eq, PartialOrd, Ord, Hash)]
pub struct VaultPath(String);

impl View for VaultPath {
    type V = Seq<char>;

    closed spec fn view(&self) -> Seq<char> {
        self.0@
    }
}

impl VaultPath {
    /// Parses a non-blank vault-relative path.
    ///
    /// # Errors
    ///
    /// Returns [`TalonError::InvalidInput`] when the path is empty or blank.
    pub fn parse(value: String) -> (r: TalonResult<Self>)
        ensures
            r is Ok <==> trim(value@).len() > 0,
            r matches Ok(p) ==> p@ == value@,
            r matches Err(e) ==> e matches TalonError::InvalidInput { field: f, message: m } && f
                == "path" && m@ == empty_path_message(),
    {
        if is_blank(&value) {
            return Err(empty_path_error());
        }
        Ok(VaultPath(value))
    }

    /// Returns the path as a string slice.
    pub fn as_str(&self) -> (r: &str)
        ensures
            r@ == self@,
    {
        self.0.as_str()
    }
}

/// Container-absolute path used when a tool needs absolute addressing.
#[derive(Debug, Clone, PartialEq, Eq, PartialOrd, Ord, Hash)]
pub struct ContainerPath(String);

impl View for ContainerPath {
    type V = Seq<char>;

    closed spec fn view(&self) -> Seq<char> {
        self.0@
    }
}

impl ContainerPath {
    /// Parses a non-blank container path.
    ///
    /// # Errors
    ///
    /// Returns [`TalonError::InvalidInput`] when the path is empty or blank.
    pub fn parse(value: String) -> (r: TalonResult<Self>)
        ensures
            r is Ok <==> trim(value@).len() > 0,
            r matches Ok(p) ==> p@ == value@,
            r matches Err(e) ==> e matches TalonError::InvalidInput { field: f, message: m } && f
                == "path" && m@ == empty_path_message(),
    {
        if is_blank(&value) {
            return Err(empty_path_error());
        }
        Ok(ContainerPath(value))
    }

    /// Returns the path as a string slice.
    pub fn as_str(&self) -> (r: &str)
        ensures
            r@ == self@,
    {
        self.0.as_str()
    }
}

// ── Enums ───────────────────────────────────────────────────────────────────

/// Search mode.
#[derive(Debug, Clone, Copy, PartialEq, Eq, Structural)]
pub enum SearchMode {
    /// Hybrid lexical plus semantic search.
    Hybrid,
    /// Semantic-only search.
    Semantic,
    /// Full-text search.
    Fulltext,
    /// Title and alias search.
    Title,
}

impl Default for SearchMode {
    fn default() -> (r: Self)
        ensures
            r == SearchMode::Hybrid,
    {
        SearchMode::Hybrid
    }
}

/// Related-note traversal direction.
#[derive(Debug, Clone, Copy, PartialEq, Eq, Structural)]
pub enum Direction {
    /// Outgoing wikilinks.
    Outgoing,
    /// Backlinks.
    Backlinks,
    /// Outgoing wikilinks and backlinks.
    Both,
}

impl Default for Direction {
    fn default() -> (r: Self)
        ensures
            r == Direction::Both,
    {
        Direction::Both
    }
}

/// Match provenance for a search result.
#[derive(Debug, Clone, Copy, PartialEq, Eq, Structural)]
pub enum MatchKind {
    /// Full-text match.
    Fulltext,
    /// Semantic/vector match.
    Semantic,
    /// Title match.
    Title,
    /// Alias match.
    Alias,
    /// Related-note match.
    Related,
}

/// Frontmatter value type for storage.
#[derive(Debug, Clone, Copy, PartialEq, Eq, Structural)]
pub enum FrontmatterValueType {
    String,
    Number,
    Bool,
    Date,
    List,
}

/// `--where` filter operator.
#[derive(Debug, Clone, Copy, PartialEq, Eq, Structural)]
pub enum WhereOperator {
    Equals,
    NotEquals,
    LessThan,
    LessThanOrEqual,
    GreaterThan,
    GreaterThanOrEqual,
    Contains,
    Exists,
}

/// A single `--where` filter clause.
#[derive(Debug, Clone, PartialEq, Eq)]
pub struct WhereClause {
    /// Frontmatter key to filter on.
    pub key: String,
    /// Comparison operator.
    pub op: WhereOperator,
    /// Value to compare against (omitted for `exists`).
    pub value: Option<String>,
}

/// Lint check type.
#[derive(Debug, Clone, Copy, PartialEq, Eq, Structural)]
pub enum LintCheck {
    /// Files with no incoming wikilinks.
    Orphans,
    /// Links whose targets don't resolve to indexed files.
    BrokenLinks,
    /// Frontmatter `sources:` pointing to non-existent paths.
    DanglingRefs,
    /// Files with no incoming AND no outgoing wikilinks.
    Unreferenced,
}

// ── Input types ─────────────────────────────────────────────────────────────

/// Read request.
#[derive(Debug, Clone, PartialEq, Eq)]
pub struct ReadInput {
    /// Single path to read.
    pub path: Option<String>,
    /// Include raw content.
    pub raw: bool,
    /// First line to include.
    pub from_line: Option<PositiveCount>,
    /// Maximum lines to include.
    pub max_lines: Option<PositiveCount>,
}

impl Default for ReadInput {
    fn default() -> (r: Self)
        ensures
            r.path is None && !r.raw && r.from_line is None && r.max_lines is None,
    {
        ReadInput { path: None, raw: false, from_line: None, max_lines: None }
    }
}

/// Sync request.
#[derive(Debug, Clone, PartialEq, Eq)]
pub struct SyncInput {
    /// Specific paths to sync (empty = full pass).
    pub paths: Vec<String>,
    /// Skip embeddings (lexical-only pass).
    pub fast: bool,
    /// Reset vector state before syncing.
    pub force: bool,
    /// Return immediately if sync is already running.
    pub no_wait: bool,
}

impl Default for SyncInput {
    fn default() -> (r: Self)
        ensures
            r.paths@.len() == 0 && !r.fast && !r.force && !r.no_wait,
    {
        SyncInput { paths: Vec::new(), fast: false, force: false, no_wait: false }
    }
}

/// Status request.
#[derive(Debug, Clone, PartialEq, Eq)]
pub struct StatusInput {
    /// Emit JSON output.
    pub json: bool,
}

impl Default for StatusInput {
    fn default() -> (r: Self)
        ensures
            !r.json,
    {
        StatusInput { json: false }
    }
}

/// Related-note request.
#[derive(Debug, Clone, PartialEq, Eq)]
pub struct RelatedInput {
    /// Path to find related notes for.
    pub path: String,
    /// Graph traversal depth.
    pub depth: u8,
    /// Traversal direction.
    pub direction: Direction,
    /// Scope names to include.
    pub scope: Vec<String>,
    /// Scope names to search exclusively.
    pub scope_only: Vec<String>,
}

/// Frontmatter query request.
#[derive(Debug, Clone, PartialEq, Eq)]
pub struct MetaInput {
    /// Frontmatter `--where` filters (AND-composed).
    pub where_: Vec<WhereClause>,
    /// Filter results indexed since this timestamp.
    pub since: Option<String>,
    /// Scope names to include.
    pub scope: Vec<String>,
    /// Scope names to search exclusively.
    pub scope_only: Vec<String>,
    /// Frontmatter fields to select (comma-separated).
    pub select: Vec<String>,
    /// Emit tag counts.
    pub tag_counts: bool,
    /// Reverse-source index: return files listed in a path's `sources:` frontmatter.
    pub sources: Option<String>,
    /// Result limit.
    pub limit: PositiveCount,
}

impl Default for MetaInput {
    fn default() -> (r: Self)
        ensures
            r.where_@.len() == 0 && r.since is None && r.scope@.len() == 0 && r.scope_only@.len()
                == 0 && r.select@.len() == 0 && !r.tag_counts && r.sources is None && r.limit@
                == DEFAULT_LIMIT,
    {
        MetaInput {
            where_: Vec::new(),
            since: None,
            scope: Vec::new(),
            scope_only: Vec::new(),
            select: Vec::new(),
            tag_counts: false,
            sources: None,
            limit: PositiveCount::default(),
        }
    }
}

/// Change feed request.
#[derive(Debug, Clone, PartialEq, Eq)]
pub struct ChangesInput {
    /// Return changes since this timestamp.
    pub since: String,
    /// Scope names to include.
    pub scope: Vec<String>,
    /// Scope names to search exclusively.
    pub scope_only: Vec<String>,
    /// Result limit.
    pub limit: PositiveCount,
}

/// Lint check request.
#[derive(Debug, Clone, PartialEq, Eq)]
pub struct LintInput {
    /// Which lint check to run.
    pub check: LintCheck,
    /// Scope names to include.
    pub scope: Vec<String>,
    /// Scope names to search exclusively.
    pub scope_only: Vec<String>,
}

// ── Response types ──────────────────────────────────────────────────────────

/// Metadata included in every successful response.
#[derive(Debug, Clone, PartialEq, Eq)]
pub struct ResponseMeta {
    /// Duration in milliseconds.
    pub duration_ms: u64,
    /// Number of results returned.
    pub result_count: Option<u32>,
    /// Warnings produced during the call.
    pub warnings: Vec<String>,
    /// Resolved active scope set, where applicable.
    pub scope_set: Option<Vec<String>>,
    /// Resolved absolute timestamp, if `--since` was given.
    pub since: Option<String>,
}

/// Read response.
#[derive(Debug, Clone, PartialEq, Eq)]
pub struct ReadResponse {
    /// Read results.
    pub results: Vec<ReadResult>,
}

impl ReadResponse {
    /// Builds a stub read response (no results) for CLI scaffolding.
    pub fn stub() -> (r: Self)
        ensures
            r.results@.len() == 0,
    {
        ReadResponse { results: Vec::new() }
    }
}

/// Read result.
#[derive(Debug, Clone, PartialEq, Eq)]
pub struct ReadResult {
    /// Whether the note was found.
    pub found: bool,
    /// Vault-relative path.
    pub vault_path: VaultPath,
    /// Container path.
    pub path: ContainerPath,
    /// Optional note title.
    pub title: Option<String>,
    /// Optional note content.
    pub content: Option<String>,
    /// Outgoing links.
    pub links: Vec<String>,
    /// Backlinks.
    pub backlinks: Vec<String>,
    /// Tags.
    pub tags: Vec<String>,
    /// Aliases.
    pub aliases: Vec<String>,
}

/// Sync response.
#[derive(Debug, Clone, PartialEq, Eq)]
pub struct SyncResponse {
    /// Whether the sync completed.
    pub completed: bool,
    /// Status label.
    pub status: SyncStatus,
    /// Whether lexical-only mode was requested.
    pub fast: bool,
    /// Whether vector reset was requested.
    pub force: bool,
    /// Number of paths in scope.
    pub path_count: u32,
    /// Indexed notes.
    pub indexed: u32,
    /// Skipped notes.
    pub skipped: u32,
    /// Deleted notes.
    pub deleted: u32,
    /// Notes embedded during this sync pass.
    pub embedded: u32,
    /// Notes that failed embedding.
    pub embed_failed: u32,
    /// True if any vector dimension differed mid-pass; semantic search is
    /// disabled until the next consistent pass succeeds.
    pub dimension_mismatch: bool,
    /// Operator-facing remediation hint.
    pub embed_remediation: Option<String>,
    /// Up to 20 redacted detail strings from the embed pass.
    pub embed_diagnostics: Vec<String>,
    /// Duration in milliseconds.
    pub duration_ms: u64,
}

/// Sync status.
#[derive(Debug, Clone, Copy, PartialEq, Eq, Structural)]
pub enum SyncStatus {
    /// Sync completed (`ok` on the wire).
    Completed,
    /// Sync partially completed.
    Partial,
    /// Sync failed.
    Failed,
    /// Sync busy (lock held by another process).
    Busy,
}

/// Status response.
#[derive(Debug, Clone, PartialEq, Eq)]
pub struct StatusResponse {
    /// Readiness state.
    pub state: StatusState,
    /// Whether Talon is enabled.
    pub enabled: bool,
    /// Optional reason for non-ready states.
    pub reason: Option<String>,
    /// Container mount path.
    pub container_mount: ContainerPath,
    /// Index version.
    pub index_version: String,
    /// Index statistics.
    pub index: IndexStats,
    /// Scope report.
    pub scopes: Option<ScopeReport>,
}

/// The container mount the scaffold status reports.
pub open spec fn scaffold_mount() -> Seq<char> {
    "/opt/data/workspace/obsidian"@
}

/// The reason the scaffold status gives.
pub open spec fn scaffold_reason() -> Seq<char> {
    "talon core is scaffolded; index is not implemented yet"@
}

impl StatusResponse {
    /// Builds the scaffold status response before indexing is implemented:
    /// a disabled, config-error state over an empty index.
    ///
    /// # Errors
    ///
    /// Returns [`TalonError::InvalidInput`] if the fixed scaffold path is
    /// invalid, which it is not.
    pub fn scaffold() -> (r: TalonResult<Self>)
        ensures
            r matches Ok(s) && s.state == StatusState::ConfigError && !s.enabled && (s.reason
                matches Some(m) && m@ == scaffold_reason()) && s.container_mount@ == scaffold_mount()
                && s.index_version@ == "scaffold"@ && s.index == (IndexStats {
                active_notes: 0,
                chunk_count: 0,
                failed_embeddings: 0,
                vector_dimensions: None,
            }) && s.scopes is None,
    {
        proof {
            reveal_strlit("/opt/data/workspace/obsidian");
            reveal_strlit("talon core is scaffolded; index is not implemented yet");
            reveal_strlit("scaffold");
        }
        let mount = String::from_str("/opt/data/workspace/obsidian");
        proof {
            let s = mount@;
            assert(s[0] == '/');
            assert(crate::text::unicode::lead_ws(s) == 0);
        }
        let container_mount = match ContainerPath::parse(mount) {
            Ok(p) => p,
            Err(e) => return Err(e),
        };
        Ok(StatusResponse {
            state: StatusState::ConfigError,
            enabled: false,
            reason: Some(String::from_str("talon core is scaffolded; index is not implemented yet")),
            container_mount,
            index_version: String::from_str("scaffold"),
            index: IndexStats {
                active_notes: 0,
                chunk_count: 0,
                failed_embeddings: 0,
                vector_dimensions: None,
            },
            scopes: None,
        })
    }
}

/// Status state.
#[derive(Debug, Clone, Copy, PartialEq, Eq, Structural)]
pub enum StatusState {
    /// Disabled by config.
    Disabled,
    /// Config is invalid.
    ConfigError,
    /// Ready to serve requests.
    Ready,
}

/// Index statistics.
#[derive(Debug, Clone, Copy, PartialEq, Eq, Structural)]
pub struct IndexStats {
    /// Active notes.
    pub active_notes: u32,
    /// Indexed chunks.
    pub chunk_count: u32,
    /// Failed embeddings.
    pub failed_embeddings: u32,
    /// Vector dimensions, if known.
    pub vector_dimensions: Option<u16>,
}

/// Scope report from status.
#[derive(Debug, Clone, PartialEq, Eq)]
pub struct ScopeReport {
    /// Total number of configured scopes.
    pub total_scopes: u32,
    /// Default scope names.
    pub default_scopes: Vec<String>,
    /// Files not matching any scope.
    pub unscoped_count: u32,
}

/// Related-note response.
#[derive(Debug, Clone, PartialEq, Eq)]
pub struct RelatedResponse {
    /// Source path.
    pub path: VaultPath,
    /// Direction traversed.
    pub direction: Direction,
    /// Related notes.
    pub results: Vec<RelatedResult>,
}

/// A single related-note result.
#[derive(Debug, Clone, PartialEq, Eq)]
pub struct RelatedResult {
    /// Vault-relative path.
    pub vault_path: VaultPath,
    /// Display title.
    pub title: String,
    /// Link text from source.
    pub link_text: String,
    /// Direction: outgoing or backlink.
    pub relation: RelationKind,
}

/// Relation kind (outgoing vs backlink).
#[derive(Debug, Clone, Copy, PartialEq, Eq, Structural)]
pub enum RelationKind {
    Outgoing,
    Backlink,
}

/// Change feed response.
#[derive(Debug, Clone, PartialEq, Eq)]
pub struct ChangesResponse {
    /// Files newly indexed since the timestamp.
    pub added: Vec<ChangeEntry>,
    /// Files re-indexed since the timestamp.
    pub modified: Vec<ChangeEntry>,
    /// Files deleted (from tombstones).
    pub deleted: Vec<TombstoneEntry>,
}

/// A change entry (added or modified).
#[derive(Debug, Clone, PartialEq, Eq)]
pub struct ChangeEntry {
    /// Vault-relative path.
    pub path: VaultPath,
    /// When this file was last indexed (millis since epoch).
    pub indexed_at: u64,
}

/// A tombstone entry (deleted file).
#[derive(Debug, Clone, PartialEq, Eq)]
pub struct TombstoneEntry {
    /// Vault-relative path.
    pub path: VaultPath,
    /// When the file was detected as deleted (millis since epoch).
    pub deleted_at: u64,
}

/// Lint check response.
#[derive(Debug, Clone, PartialEq, Eq)]
pub struct LintResponse {
    /// The lint rule that ran.
    pub check: LintCheck,
    /// Lint findings.
    pub findings: Vec<LintFinding>,
}

/// A single lint finding.
#[derive(Debug, Clone, PartialEq, Eq)]
pub struct LintFinding {
    /// Vault-relative path of the file.
    pub path: VaultPath,
    /// Description of the issue.
    pub message: String,
    /// Line number, if applicable.
    pub line: Option<u32>,
}

} // verus!
