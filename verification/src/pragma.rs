//! The pragmas: which one a name is, and what the ones with one answer answer.
//!
//! A name on the list of known pragmas is answered or refused by name, so that a
//! caller can tell "no" from "nothing". A name on nobody's list is answered with
//! nothing, as a hint nobody took.

use vstd::prelude::*;

use crate::reattach::names_of;
use crate::refusals::Refusal;
use crate::sessions::{SessionState, MAIN};
use crate::statements::Outcome;
use crate::text::{
    ascii, copied, fold, folded, folded_text, same, same_folded, same_folded_text, trim_text,
    trimmed_text,
};
use crate::values::{
    byte_order, compare_bytes, owned_row, owned_rows, Order, OwnedDatum, Value,
};

verus! {

/// How many pages a file may have when nobody says.
pub const DEFAULT_MAX_PAGE_COUNT: i64 = 4_294_967_294;

/// A pragma that only reads, and answers with rows.
#[derive(Clone, Copy, Debug, PartialEq, Eq, Structural)]
pub enum RowsPragma {
    /// The foreign keys of a table.
    ForeignKeyList,
    /// The columns of a table.
    TableInfo,
    /// The columns of a table, those computed on read among them.
    TableXinfo,
    /// The indexes of a table.
    IndexList,
    /// The key columns of an index.
    IndexInfo,
    /// Every column of an index.
    IndexXinfo,
    /// The tables and views.
    TableList,
    /// The collations.
    CollationList,
    /// The pragmas.
    PragmaList,
    /// The modules.
    ModuleList,
    /// The functions.
    FunctionList,
    /// How the engine was built.
    CompileOptions,
    /// The databases the connection holds.
    DatabaseList,
}

/// Which rows pragma a name is, when it is one.
pub open spec fn rows_pragma_of(name: Seq<u8>) -> Option<RowsPragma> {
    if name == ascii("foreign_key_list") {
        Some(RowsPragma::ForeignKeyList)
    } else if name == ascii("table_info") {
        Some(RowsPragma::TableInfo)
    } else if name == ascii("table_xinfo") {
        Some(RowsPragma::TableXinfo)
    } else if name == ascii("index_list") {
        Some(RowsPragma::IndexList)
    } else if name == ascii("index_info") {
        Some(RowsPragma::IndexInfo)
    } else if name == ascii("index_xinfo") {
        Some(RowsPragma::IndexXinfo)
    } else if name == ascii("table_list") {
        Some(RowsPragma::TableList)
    } else if name == ascii("collation_list") {
        Some(RowsPragma::CollationList)
    } else if name == ascii("pragma_list") {
        Some(RowsPragma::PragmaList)
    } else if name == ascii("module_list") {
        Some(RowsPragma::ModuleList)
    } else if name == ascii("function_list") {
        Some(RowsPragma::FunctionList)
    } else if name == ascii("compile_options") {
        Some(RowsPragma::CompileOptions)
    } else if name == ascii("database_list") {
        Some(RowsPragma::DatabaseList)
    } else {
        None
    }
}

/// Returns which rows pragma a name is, when it is one.
pub fn rows_pragma(name: &[u8]) -> (found: Option<RowsPragma>)
    ensures
        found == rows_pragma_of(name@),
        found == Some(RowsPragma::ForeignKeyList) ==> name@ == ascii("foreign_key_list"),
        found == Some(RowsPragma::TableInfo) ==> name@ == ascii("table_info"),
        found == Some(RowsPragma::TableXinfo) ==> name@ == ascii("table_xinfo"),
        found == Some(RowsPragma::IndexList) ==> name@ == ascii("index_list"),
        found == Some(RowsPragma::IndexInfo) ==> name@ == ascii("index_info"),
        found == Some(RowsPragma::IndexXinfo) ==> name@ == ascii("index_xinfo"),
        found == Some(RowsPragma::TableList) ==> name@ == ascii("table_list"),
        found == Some(RowsPragma::CollationList) ==> name@ == ascii("collation_list"),
        found == Some(RowsPragma::PragmaList) ==> name@ == ascii("pragma_list"),
        found == Some(RowsPragma::ModuleList) ==> name@ == ascii("module_list"),
        found == Some(RowsPragma::FunctionList) ==> name@ == ascii("function_list"),
        found == Some(RowsPragma::CompileOptions) ==> name@ == ascii("compile_options"),
        found == Some(RowsPragma::DatabaseList) ==> name@ == ascii("database_list"),
        found is None ==> name@ != ascii("foreign_key_list") && name@ != ascii("table_info")
            && name@ != ascii("table_xinfo") && name@ != ascii("index_list")
            && name@ != ascii("index_info") && name@ != ascii("index_xinfo")
            && name@ != ascii("table_list") && name@ != ascii("collation_list")
            && name@ != ascii("pragma_list") && name@ != ascii("module_list")
            && name@ != ascii("function_list") && name@ != ascii("compile_options")
            && name@ != ascii("database_list"),
{
    if same(name, "foreign_key_list".as_bytes()) {
        Some(RowsPragma::ForeignKeyList)
    } else if same(name, "table_info".as_bytes()) {
        Some(RowsPragma::TableInfo)
    } else if same(name, "table_xinfo".as_bytes()) {
        Some(RowsPragma::TableXinfo)
    } else if same(name, "index_list".as_bytes()) {
        Some(RowsPragma::IndexList)
    } else if same(name, "index_info".as_bytes()) {
        Some(RowsPragma::IndexInfo)
    } else if same(name, "index_xinfo".as_bytes()) {
        Some(RowsPragma::IndexXinfo)
    } else if same(name, "table_list".as_bytes()) {
        Some(RowsPragma::TableList)
    } else if same(name, "collation_list".as_bytes()) {
        Some(RowsPragma::CollationList)
    } else if same(name, "pragma_list".as_bytes()) {
        Some(RowsPragma::PragmaList)
    } else if same(name, "module_list".as_bytes()) {
        Some(RowsPragma::ModuleList)
    } else if same(name, "function_list".as_bytes()) {
        Some(RowsPragma::FunctionList)
    } else if same(name, "compile_options".as_bytes()) {
        Some(RowsPragma::CompileOptions)
    } else if same(name, "database_list".as_bytes()) {
        Some(RowsPragma::DatabaseList)
    } else {
        None
    }
}

/// A pragma that is a directive.
#[derive(Clone, Copy, Debug, PartialEq, Eq, Structural)]
pub enum Setting {
    /// How many pages the pool may hold.
    CacheSize,
    /// How often the log is made durable.
    Synchronous,
    /// How long a busy file is waited for.
    BusyTimeout,
    /// Whether foreign keys are enforced.
    ForeignKeys,
    /// Whether the schema's own statements are trusted.
    TrustedSchema,
    /// Whether foreign keys wait for the commit.
    DeferForeignKeys,
    /// The rows whose parents are not there.
    ForeignKeyCheck,
    /// How a file is put back.
    JournalMode,
    /// How text is encoded.
    Encoding,
    /// Whether files stay held between statements.
    LockingMode,
    /// What is wrong with the files, read in full.
    IntegrityCheck,
    /// What is wrong with the files, read quickly.
    QuickCheck,
    /// The log, folded in.
    WalCheckpoint,
    /// How long a page is.
    PageSize,
    /// How many pages a file has.
    PageCount,
    /// How many of them are free.
    FreelistCount,
    /// A number an application keeps in a file.
    UserVersion,
    /// A number that says whose file it is.
    ApplicationId,
    /// How often a file's schema has changed.
    SchemaVersion,
    /// How often others have changed a file.
    DataVersion,
    /// How many pages a file may have.
    MaxPageCount,
    /// How many rows an analysis looks at.
    AnalysisLimit,
    /// Whether `LIKE` tells cases apart.
    CaseSensitiveLike,
    /// Whether the catalog may be written.
    WritableSchema,
    /// Whether only queries are answered.
    QueryOnly,
    /// Whether a trigger may fire itself.
    RecursiveTriggers,
    /// Whether free pages are given back.
    AutoVacuum,
    /// Whether deleted rows are struck out.
    SecureDelete,
    /// Whether checks are skipped.
    IgnoreCheckConstraints,
    /// Whether the planner may build an index.
    AutomaticIndex,
    /// Where temporary tables are kept.
    TempStore,
    /// Some free pages, given back.
    IncrementalVacuum,
    /// Nothing that can be seen.
    Silent,
}

/// Which directive a name is, when it is one.
pub open spec fn setting_of(name: Seq<u8>) -> Option<Setting> {
    if name == ascii("cache_size") || name == ascii("default_cache_size") {
        Some(Setting::CacheSize)
    } else if name == ascii("synchronous") {
        Some(Setting::Synchronous)
    } else if name == ascii("busy_timeout") {
        Some(Setting::BusyTimeout)
    } else if name == ascii("foreign_keys") {
        Some(Setting::ForeignKeys)
    } else if name == ascii("trusted_schema") {
        Some(Setting::TrustedSchema)
    } else if name == ascii("defer_foreign_keys") {
        Some(Setting::DeferForeignKeys)
    } else if name == ascii("foreign_key_check") {
        Some(Setting::ForeignKeyCheck)
    } else if name == ascii("journal_mode") {
        Some(Setting::JournalMode)
    } else if name == ascii("encoding") {
        Some(Setting::Encoding)
    } else if name == ascii("locking_mode") {
        Some(Setting::LockingMode)
    } else if name == ascii("integrity_check") {
        Some(Setting::IntegrityCheck)
    } else if name == ascii("quick_check") {
        Some(Setting::QuickCheck)
    } else if name == ascii("wal_checkpoint") {
        Some(Setting::WalCheckpoint)
    } else if name == ascii("page_size") {
        Some(Setting::PageSize)
    } else if name == ascii("page_count") {
        Some(Setting::PageCount)
    } else if name == ascii("freelist_count") {
        Some(Setting::FreelistCount)
    } else if name == ascii("user_version") {
        Some(Setting::UserVersion)
    } else if name == ascii("application_id") {
        Some(Setting::ApplicationId)
    } else if name == ascii("schema_version") {
        Some(Setting::SchemaVersion)
    } else if name == ascii("data_version") {
        Some(Setting::DataVersion)
    } else if name == ascii("max_page_count") {
        Some(Setting::MaxPageCount)
    } else if name == ascii("analysis_limit") {
        Some(Setting::AnalysisLimit)
    } else if name == ascii("case_sensitive_like") {
        Some(Setting::CaseSensitiveLike)
    } else if name == ascii("writable_schema") {
        Some(Setting::WritableSchema)
    } else if name == ascii("query_only") {
        Some(Setting::QueryOnly)
    } else if name == ascii("recursive_triggers") {
        Some(Setting::RecursiveTriggers)
    } else if name == ascii("auto_vacuum") {
        Some(Setting::AutoVacuum)
    } else if name == ascii("secure_delete") {
        Some(Setting::SecureDelete)
    } else if name == ascii("ignore_check_constraints") {
        Some(Setting::IgnoreCheckConstraints)
    } else if name == ascii("automatic_index") {
        Some(Setting::AutomaticIndex)
    } else if name == ascii("temp_store") {
        Some(Setting::TempStore)
    } else if name == ascii("incremental_vacuum") {
        Some(Setting::IncrementalVacuum)
    } else if name == ascii("optimize") || name == ascii("shrink_memory") || name
        == ascii("data_store_directory") || name == ascii("temp_store_directory") {
        Some(Setting::Silent)
    } else {
        None
    }
}

/// Returns which directive a name is, when it is one.
pub fn setting(name: &[u8]) -> (found: Option<Setting>)
    ensures
        found == setting_of(name@),
        found == Some(Setting::CacheSize) ==> name@ == ascii("cache_size") || name@
            == ascii("default_cache_size"),
        found == Some(Setting::Synchronous) ==> name@ == ascii("synchronous"),
        found == Some(Setting::BusyTimeout) ==> name@ == ascii("busy_timeout"),
        found == Some(Setting::ForeignKeys) ==> name@ == ascii("foreign_keys"),
        found == Some(Setting::TrustedSchema) ==> name@ == ascii("trusted_schema"),
        found == Some(Setting::DeferForeignKeys) ==> name@ == ascii("defer_foreign_keys"),
        found == Some(Setting::ForeignKeyCheck) ==> name@ == ascii("foreign_key_check"),
        found == Some(Setting::JournalMode) ==> name@ == ascii("journal_mode"),
        found == Some(Setting::Encoding) ==> name@ == ascii("encoding"),
        found == Some(Setting::LockingMode) ==> name@ == ascii("locking_mode"),
        found == Some(Setting::IntegrityCheck) ==> name@ == ascii("integrity_check"),
        found == Some(Setting::QuickCheck) ==> name@ == ascii("quick_check"),
        found == Some(Setting::WalCheckpoint) ==> name@ == ascii("wal_checkpoint"),
        found == Some(Setting::PageSize) ==> name@ == ascii("page_size"),
        found == Some(Setting::PageCount) ==> name@ == ascii("page_count"),
        found == Some(Setting::FreelistCount) ==> name@ == ascii("freelist_count"),
        found == Some(Setting::UserVersion) ==> name@ == ascii("user_version"),
        found == Some(Setting::ApplicationId) ==> name@ == ascii("application_id"),
        found == Some(Setting::SchemaVersion) ==> name@ == ascii("schema_version"),
        found == Some(Setting::DataVersion) ==> name@ == ascii("data_version"),
        found == Some(Setting::MaxPageCount) ==> name@ == ascii("max_page_count"),
        found == Some(Setting::AnalysisLimit) ==> name@ == ascii("analysis_limit"),
        found == Some(Setting::CaseSensitiveLike) ==> name@ == ascii("case_sensitive_like"),
        found == Some(Setting::WritableSchema) ==> name@ == ascii("writable_schema"),
        found == Some(Setting::QueryOnly) ==> name@ == ascii("query_only"),
        found == Some(Setting::RecursiveTriggers) ==> name@ == ascii("recursive_triggers"),
        found == Some(Setting::AutoVacuum) ==> name@ == ascii("auto_vacuum"),
        found == Some(Setting::SecureDelete) ==> name@ == ascii("secure_delete"),
        found == Some(Setting::IgnoreCheckConstraints) ==> name@
            == ascii("ignore_check_constraints"),
        found == Some(Setting::AutomaticIndex) ==> name@ == ascii("automatic_index"),
        found == Some(Setting::TempStore) ==> name@ == ascii("temp_store"),
        found == Some(Setting::IncrementalVacuum) ==> name@ == ascii("incremental_vacuum"),
        found == Some(Setting::Silent) ==> name@ == ascii("optimize") || name@
            == ascii("shrink_memory") || name@ == ascii("data_store_directory") || name@
            == ascii("temp_store_directory"),
        found is None ==> name@ != ascii("cache_size") && name@ != ascii("default_cache_size")
            && name@ != ascii("synchronous") && name@ != ascii("busy_timeout")
            && name@ != ascii("foreign_keys") && name@ != ascii("trusted_schema")
            && name@ != ascii("defer_foreign_keys") && name@ != ascii("foreign_key_check")
            && name@ != ascii("journal_mode") && name@ != ascii("encoding")
            && name@ != ascii("locking_mode") && name@ != ascii("integrity_check")
            && name@ != ascii("quick_check") && name@ != ascii("wal_checkpoint")
            && name@ != ascii("page_size") && name@ != ascii("page_count")
            && name@ != ascii("freelist_count") && name@ != ascii("user_version")
            && name@ != ascii("application_id") && name@ != ascii("schema_version")
            && name@ != ascii("data_version") && name@ != ascii("max_page_count")
            && name@ != ascii("analysis_limit") && name@ != ascii("case_sensitive_like")
            && name@ != ascii("writable_schema") && name@ != ascii("query_only")
            && name@ != ascii("recursive_triggers") && name@ != ascii("auto_vacuum")
            && name@ != ascii("secure_delete") && name@ != ascii("ignore_check_constraints")
            && name@ != ascii("automatic_index") && name@ != ascii("temp_store")
            && name@ != ascii("incremental_vacuum") && name@ != ascii("optimize")
            && name@ != ascii("shrink_memory") && name@ != ascii("data_store_directory")
            && name@ != ascii("temp_store_directory"),
{
    if same(name, "cache_size".as_bytes()) || same(name, "default_cache_size".as_bytes()) {
        Some(Setting::CacheSize)
    } else if same(name, "synchronous".as_bytes()) {
        Some(Setting::Synchronous)
    } else if same(name, "busy_timeout".as_bytes()) {
        Some(Setting::BusyTimeout)
    } else if same(name, "foreign_keys".as_bytes()) {
        Some(Setting::ForeignKeys)
    } else if same(name, "trusted_schema".as_bytes()) {
        Some(Setting::TrustedSchema)
    } else if same(name, "defer_foreign_keys".as_bytes()) {
        Some(Setting::DeferForeignKeys)
    } else if same(name, "foreign_key_check".as_bytes()) {
        Some(Setting::ForeignKeyCheck)
    } else if same(name, "journal_mode".as_bytes()) {
        Some(Setting::JournalMode)
    } else if same(name, "encoding".as_bytes()) {
        Some(Setting::Encoding)
    } else if same(name, "locking_mode".as_bytes()) {
        Some(Setting::LockingMode)
    } else if same(name, "integrity_check".as_bytes()) {
        Some(Setting::IntegrityCheck)
    } else if same(name, "quick_check".as_bytes()) {
        Some(Setting::QuickCheck)
    } else if same(name, "wal_checkpoint".as_bytes()) {
        Some(Setting::WalCheckpoint)
    } else if same(name, "page_size".as_bytes()) {
        Some(Setting::PageSize)
    } else if same(name, "page_count".as_bytes()) {
        Some(Setting::PageCount)
    } else if same(name, "freelist_count".as_bytes()) {
        Some(Setting::FreelistCount)
    } else if same(name, "user_version".as_bytes()) {
        Some(Setting::UserVersion)
    } else if same(name, "application_id".as_bytes()) {
        Some(Setting::ApplicationId)
    } else if same(name, "schema_version".as_bytes()) {
        Some(Setting::SchemaVersion)
    } else if same(name, "data_version".as_bytes()) {
        Some(Setting::DataVersion)
    } else if same(name, "max_page_count".as_bytes()) {
        Some(Setting::MaxPageCount)
    } else if same(name, "analysis_limit".as_bytes()) {
        Some(Setting::AnalysisLimit)
    } else if same(name, "case_sensitive_like".as_bytes()) {
        Some(Setting::CaseSensitiveLike)
    } else if same(name, "writable_schema".as_bytes()) {
        Some(Setting::WritableSchema)
    } else if same(name, "query_only".as_bytes()) {
        Some(Setting::QueryOnly)
    } else if same(name, "recursive_triggers".as_bytes()) {
        Some(Setting::RecursiveTriggers)
    } else if same(name, "auto_vacuum".as_bytes()) {
        Some(Setting::AutoVacuum)
    } else if same(name, "secure_delete".as_bytes()) {
        Some(Setting::SecureDelete)
    } else if same(name, "ignore_check_constraints".as_bytes()) {
        Some(Setting::IgnoreCheckConstraints)
    } else if same(name, "automatic_index".as_bytes()) {
        Some(Setting::AutomaticIndex)
    } else if same(name, "temp_store".as_bytes()) {
        Some(Setting::TempStore)
    } else if same(name, "incremental_vacuum".as_bytes()) {
        Some(Setting::IncrementalVacuum)
    } else if same(name, "optimize".as_bytes()) || same(name, "shrink_memory".as_bytes())
        || same(name, "data_store_directory".as_bytes())
        || same(name, "temp_store_directory".as_bytes()) {
        Some(Setting::Silent)
    } else {
        None
    }
}

/// How the one value of a pragma may be spelled.
#[derive(Clone, Copy, Debug, PartialEq, Eq, Structural)]
pub enum Spelling {
    /// As what is off.
    Off,
    /// As what is on.
    On,
    /// As what has no limit.
    Unlimited,
}

/// The one value the engine has for a pragma, and how it may be spelled.
pub open spec fn reported_for(name: Seq<u8>) -> Option<(i64, Spelling)> {
    if name == ascii("cache_spill") {
        Some((0i64, Spelling::Off))
    } else if name == ascii("cell_size_check") {
        Some((0i64, Spelling::Off))
    } else if name == ascii("checkpoint_fullfsync") {
        Some((0i64, Spelling::Off))
    } else if name == ascii("fullfsync") {
        Some((0i64, Spelling::Off))
    } else if name == ascii("count_changes") {
        Some((0i64, Spelling::Off))
    } else if name == ascii("empty_result_callbacks") {
        Some((0i64, Spelling::Off))
    } else if name == ascii("full_column_names") {
        Some((0i64, Spelling::Off))
    } else if name == ascii("short_column_names") {
        Some((1i64, Spelling::On))
    } else if name == ascii("hard_heap_limit") {
        Some((0i64, Spelling::Off))
    } else if name == ascii("soft_heap_limit") {
        Some((0i64, Spelling::Off))
    } else if name == ascii("journal_size_limit") {
        Some((-1i64, Spelling::Unlimited))
    } else if name == ascii("legacy_alter_table") {
        Some((0i64, Spelling::Off))
    } else if name == ascii("mmap_size") {
        Some((0i64, Spelling::Off))
    } else if name == ascii("read_uncommitted") {
        Some((0i64, Spelling::Off))
    } else if name == ascii("reverse_unordered_selects") {
        Some((0i64, Spelling::Off))
    } else if name == ascii("threads") {
        Some((0i64, Spelling::Off))
    } else if name == ascii("wal_autocheckpoint") {
        Some((0i64, Spelling::Off))
    } else {
        None
    }
}

/// Returns the one value the engine has for a pragma, and how it may be spelled.
///
/// Each is a setting whose subject is here and has one state: the engine runs on
/// one thread, maps no pages, limits no heap and spills no cache.
pub fn reported_value(name: &[u8]) -> (found: Option<(i64, Spelling)>)
    ensures
        found == reported_for(name@),
        found is Some ==> found->Some_0 == (0i64, Spelling::Off) || found->Some_0 == (
            1i64,
            Spelling::On,
        ) || found->Some_0 == (-1i64, Spelling::Unlimited),
        found == Some((1i64, Spelling::On)) ==> name@ == ascii("short_column_names"),
        found == Some((-1i64, Spelling::Unlimited)) ==> name@ == ascii("journal_size_limit"),
        found == Some((0i64, Spelling::Off)) ==> name@ == ascii("cache_spill") || name@
            == ascii("cell_size_check") || name@ == ascii("checkpoint_fullfsync") || name@
            == ascii("fullfsync") || name@ == ascii("count_changes") || name@
            == ascii("empty_result_callbacks") || name@ == ascii("full_column_names") || name@
            == ascii("hard_heap_limit") || name@ == ascii("soft_heap_limit") || name@
            == ascii("legacy_alter_table") || name@ == ascii("mmap_size") || name@
            == ascii("read_uncommitted") || name@ == ascii("reverse_unordered_selects") || name@
            == ascii("threads") || name@ == ascii("wal_autocheckpoint"),
        found is None ==> name@ != ascii("cache_spill") && name@ != ascii("cell_size_check")
            && name@ != ascii("checkpoint_fullfsync") && name@ != ascii("fullfsync")
            && name@ != ascii("count_changes") && name@ != ascii("empty_result_callbacks")
            && name@ != ascii("full_column_names") && name@ != ascii("short_column_names")
            && name@ != ascii("hard_heap_limit") && name@ != ascii("soft_heap_limit")
            && name@ != ascii("journal_size_limit") && name@ != ascii("legacy_alter_table")
            && name@ != ascii("mmap_size") && name@ != ascii("read_uncommitted")
            && name@ != ascii("reverse_unordered_selects") && name@ != ascii("threads")
            && name@ != ascii("wal_autocheckpoint"),
{
    if same(name, "cache_spill".as_bytes()) {
        Some((0, Spelling::Off))
    } else if same(name, "cell_size_check".as_bytes()) {
        Some((0, Spelling::Off))
    } else if same(name, "checkpoint_fullfsync".as_bytes()) {
        Some((0, Spelling::Off))
    } else if same(name, "fullfsync".as_bytes()) {
        Some((0, Spelling::Off))
    } else if same(name, "count_changes".as_bytes()) {
        Some((0, Spelling::Off))
    } else if same(name, "empty_result_callbacks".as_bytes()) {
        Some((0, Spelling::Off))
    } else if same(name, "full_column_names".as_bytes()) {
        Some((0, Spelling::Off))
    } else if same(name, "short_column_names".as_bytes()) {
        Some((1, Spelling::On))
    } else if same(name, "hard_heap_limit".as_bytes()) {
        Some((0, Spelling::Off))
    } else if same(name, "soft_heap_limit".as_bytes()) {
        Some((0, Spelling::Off))
    } else if same(name, "journal_size_limit".as_bytes()) {
        Some((-1, Spelling::Unlimited))
    } else if same(name, "legacy_alter_table".as_bytes()) {
        Some((0, Spelling::Off))
    } else if same(name, "mmap_size".as_bytes()) {
        Some((0, Spelling::Off))
    } else if same(name, "read_uncommitted".as_bytes()) {
        Some((0, Spelling::Off))
    } else if same(name, "reverse_unordered_selects".as_bytes()) {
        Some((0, Spelling::Off))
    } else if same(name, "threads".as_bytes()) {
        Some((0, Spelling::Off))
    } else if same(name, "wal_autocheckpoint".as_bytes()) {
        Some((0, Spelling::Off))
    } else {
        None
    }
}

/// The names of the known pragmas.
pub const SQLITE_PRAGMAS: [&'static str; 67] = [
    "analysis_limit",
    "application_id",
    "auto_vacuum",
    "automatic_index",
    "busy_timeout",
    "cache_size",
    "cache_spill",
    "case_sensitive_like",
    "cell_size_check",
    "checkpoint_fullfsync",
    "collation_list",
    "compile_options",
    "count_changes",
    "data_store_directory",
    "data_version",
    "database_list",
    "default_cache_size",
    "defer_foreign_keys",
    "empty_result_callbacks",
    "encoding",
    "foreign_key_check",
    "foreign_key_list",
    "foreign_keys",
    "freelist_count",
    "full_column_names",
    "fullfsync",
    "function_list",
    "hard_heap_limit",
    "ignore_check_constraints",
    "incremental_vacuum",
    "index_info",
    "index_list",
    "index_xinfo",
    "integrity_check",
    "journal_mode",
    "journal_size_limit",
    "legacy_alter_table",
    "locking_mode",
    "max_page_count",
    "mmap_size",
    "module_list",
    "optimize",
    "page_count",
    "page_size",
    "pragma_list",
    "query_only",
    "quick_check",
    "read_uncommitted",
    "recursive_triggers",
    "reverse_unordered_selects",
    "schema_version",
    "secure_delete",
    "short_column_names",
    "shrink_memory",
    "soft_heap_limit",
    "synchronous",
    "table_info",
    "table_list",
    "table_xinfo",
    "temp_store",
    "temp_store_directory",
    "threads",
    "trusted_schema",
    "user_version",
    "wal_autocheckpoint",
    "wal_checkpoint",
    "writable_schema",
];

/// The names of the pragmas that can be read as tables.
pub const PRAGMA_FUNCTIONS: [&'static str; 13] = [
    "pragma_collation_list",
    "pragma_compile_options",
    "pragma_database_list",
    "pragma_foreign_key_list",
    "pragma_function_list",
    "pragma_index_info",
    "pragma_index_list",
    "pragma_index_xinfo",
    "pragma_module_list",
    "pragma_pragma_list",
    "pragma_table_info",
    "pragma_table_list",
    "pragma_table_xinfo",
];

/// The names of the modules the engine itself presents.
pub const ENGINE_MODULES: [&'static str; 6] = [
    "bytecode",
    "completion",
    "dbstat",
    "sqlite_dbpage",
    "sqlite_stmt",
    "tables_used",
];

/// What is done with a pragma of a name.
#[derive(Clone, Copy, Debug, PartialEq, Eq, Structural)]
pub enum Disposition {
    /// It is answered with rows.
    Rows(RowsPragma),
    /// It is carried out.
    Directive(Setting),
    /// It is answered with the one value it has, which may be spelled so.
    Reported(i64, Spelling),
    /// It is refused by name.
    Refused,
    /// Nothing.
    Unknown,
}

/// Whether a name is on the list of known pragmas, in either case.
pub open spec fn is_known(name: Seq<u8>) -> bool {
    exists|i: int|
        0 <= i < SQLITE_PRAGMAS@.len() && folded(ascii(#[trigger] SQLITE_PRAGMAS@[i])) == folded(
            name,
        )
}

/// Reports whether a name is on the list of known pragmas, in either case.
pub fn is_sqlite_pragma(name: &[u8]) -> (answer: bool)
    ensures
        answer == is_known(name@),
        answer <==> exists|i: int|
            0 <= i < SQLITE_PRAGMAS@.len() && folded(ascii(#[trigger] SQLITE_PRAGMAS@[i]))
                == folded(name@),
{
    for at in 0..SQLITE_PRAGMAS.len()
        invariant
            forall|i: int|
                0 <= i < at ==> folded(ascii(#[trigger] SQLITE_PRAGMAS@[i])) != folded(name@),
    {
        if same_folded(SQLITE_PRAGMAS[at].as_bytes(), name) {
            return true;
        }
    }
    false
}

/// What is done with a pragma of a name.
pub open spec fn disposition_of(name: Seq<u8>) -> Disposition {
    match (rows_pragma_of(name), setting_of(name), reported_for(name)) {
        (Some(rows), _, _) => Disposition::Rows(rows),
        (None, Some(setting), _) => Disposition::Directive(setting),
        (None, None, Some(reported)) => Disposition::Reported(reported.0, reported.1),
        (None, None, None) => if is_known(name) {
            Disposition::Refused
        } else {
            Disposition::Unknown
        },
    }
}

/// Returns what is done with a pragma of a folded name.
pub fn pragma(name: &[u8]) -> (disposition: Disposition)
    ensures
        disposition == disposition_of(name@),
        disposition matches Disposition::Rows(rows) ==> rows_pragma_of(name@) == Some(rows),
        disposition is Rows <==> rows_pragma_of(name@) is Some,
        disposition matches Disposition::Directive(setting) ==> setting_of(name@) == Some(setting),
        disposition is Directive <==> rows_pragma_of(name@) is None && setting_of(name@) is Some,
        disposition matches Disposition::Reported(value, spelling) ==> reported_for(name@) == Some(
            (value, spelling),
        ),
        disposition is Refused ==> exists|i: int|
            0 <= i < SQLITE_PRAGMAS@.len() && folded(ascii(#[trigger] SQLITE_PRAGMAS@[i]))
                == folded(name@),
        disposition is Unknown ==> forall|i: int|
            0 <= i < SQLITE_PRAGMAS@.len() ==> folded(ascii(#[trigger] SQLITE_PRAGMAS@[i]))
                != folded(name@),
{
    match rows_pragma(name) {
        Some(rows) => return Disposition::Rows(rows),
        None => {},
    }
    match setting(name) {
        Some(setting) => return Disposition::Directive(setting),
        None => {},
    }
    match reported_value(name) {
        Some((value, spelling)) => return Disposition::Reported(value, spelling),
        None => {},
    }
    if is_sqlite_pragma(name) {
        Disposition::Refused
    } else {
        Disposition::Unknown
    }
}

/// Whether a pragma of a name is answered: with rows, by being carried out, or
/// with its one value.
pub open spec fn answered(name: Seq<u8>) -> bool {
    rows_pragma_of(name) is Some || setting_of(name) is Some || reported_for(name) is Some
}

/// Every known pragma is answered, and none is refused by name.
pub proof fn every_known_pragma_is_answered(at: int)
    requires
        0 <= at < SQLITE_PRAGMAS@.len(),
    ensures
        answered(ascii(SQLITE_PRAGMAS@[at])),
        !(disposition_of(ascii(SQLITE_PRAGMAS@[at])) is Refused),
        !(disposition_of(ascii(SQLITE_PRAGMAS@[at])) is Unknown),
{
    if at == 0 {
        assert(SQLITE_PRAGMAS@[0]@ == "analysis_limit"@);
    } else if at == 1 {
        assert(SQLITE_PRAGMAS@[1]@ == "application_id"@);
    } else if at == 2 {
        assert(SQLITE_PRAGMAS@[2]@ == "auto_vacuum"@);
    } else if at == 3 {
        assert(SQLITE_PRAGMAS@[3]@ == "automatic_index"@);
    } else if at == 4 {
        assert(SQLITE_PRAGMAS@[4]@ == "busy_timeout"@);
    } else if at == 5 {
        assert(SQLITE_PRAGMAS@[5]@ == "cache_size"@);
    } else if at == 6 {
        assert(SQLITE_PRAGMAS@[6]@ == "cache_spill"@);
    } else if at == 7 {
        assert(SQLITE_PRAGMAS@[7]@ == "case_sensitive_like"@);
    } else if at == 8 {
        assert(SQLITE_PRAGMAS@[8]@ == "cell_size_check"@);
    } else if at == 9 {
        assert(SQLITE_PRAGMAS@[9]@ == "checkpoint_fullfsync"@);
    } else if at == 10 {
        assert(SQLITE_PRAGMAS@[10]@ == "collation_list"@);
    } else if at == 11 {
        assert(SQLITE_PRAGMAS@[11]@ == "compile_options"@);
    } else if at == 12 {
        assert(SQLITE_PRAGMAS@[12]@ == "count_changes"@);
    } else if at == 13 {
        assert(SQLITE_PRAGMAS@[13]@ == "data_store_directory"@);
    } else if at == 14 {
        assert(SQLITE_PRAGMAS@[14]@ == "data_version"@);
    } else if at == 15 {
        assert(SQLITE_PRAGMAS@[15]@ == "database_list"@);
    } else if at == 16 {
        assert(SQLITE_PRAGMAS@[16]@ == "default_cache_size"@);
    } else if at == 17 {
        assert(SQLITE_PRAGMAS@[17]@ == "defer_foreign_keys"@);
    } else if at == 18 {
        assert(SQLITE_PRAGMAS@[18]@ == "empty_result_callbacks"@);
    } else if at == 19 {
        assert(SQLITE_PRAGMAS@[19]@ == "encoding"@);
    } else if at == 20 {
        assert(SQLITE_PRAGMAS@[20]@ == "foreign_key_check"@);
    } else if at == 21 {
        assert(SQLITE_PRAGMAS@[21]@ == "foreign_key_list"@);
    } else if at == 22 {
        assert(SQLITE_PRAGMAS@[22]@ == "foreign_keys"@);
    } else if at == 23 {
        assert(SQLITE_PRAGMAS@[23]@ == "freelist_count"@);
    } else if at == 24 {
        assert(SQLITE_PRAGMAS@[24]@ == "full_column_names"@);
    } else if at == 25 {
        assert(SQLITE_PRAGMAS@[25]@ == "fullfsync"@);
    } else if at == 26 {
        assert(SQLITE_PRAGMAS@[26]@ == "function_list"@);
    } else if at == 27 {
        assert(SQLITE_PRAGMAS@[27]@ == "hard_heap_limit"@);
    } else if at == 28 {
        assert(SQLITE_PRAGMAS@[28]@ == "ignore_check_constraints"@);
    } else if at == 29 {
        assert(SQLITE_PRAGMAS@[29]@ == "incremental_vacuum"@);
    } else if at == 30 {
        assert(SQLITE_PRAGMAS@[30]@ == "index_info"@);
    } else if at == 31 {
        assert(SQLITE_PRAGMAS@[31]@ == "index_list"@);
    } else if at == 32 {
        assert(SQLITE_PRAGMAS@[32]@ == "index_xinfo"@);
    } else if at == 33 {
        assert(SQLITE_PRAGMAS@[33]@ == "integrity_check"@);
    } else if at == 34 {
        assert(SQLITE_PRAGMAS@[34]@ == "journal_mode"@);
    } else if at == 35 {
        assert(SQLITE_PRAGMAS@[35]@ == "journal_size_limit"@);
    } else if at == 36 {
        assert(SQLITE_PRAGMAS@[36]@ == "legacy_alter_table"@);
    } else if at == 37 {
        assert(SQLITE_PRAGMAS@[37]@ == "locking_mode"@);
    } else if at == 38 {
        assert(SQLITE_PRAGMAS@[38]@ == "max_page_count"@);
    } else if at == 39 {
        assert(SQLITE_PRAGMAS@[39]@ == "mmap_size"@);
    } else if at == 40 {
        assert(SQLITE_PRAGMAS@[40]@ == "module_list"@);
    } else if at == 41 {
        assert(SQLITE_PRAGMAS@[41]@ == "optimize"@);
    } else if at == 42 {
        assert(SQLITE_PRAGMAS@[42]@ == "page_count"@);
    } else if at == 43 {
        assert(SQLITE_PRAGMAS@[43]@ == "page_size"@);
    } else if at == 44 {
        assert(SQLITE_PRAGMAS@[44]@ == "pragma_list"@);
    } else if at == 45 {
        assert(SQLITE_PRAGMAS@[45]@ == "query_only"@);
    } else if at == 46 {
        assert(SQLITE_PRAGMAS@[46]@ == "quick_check"@);
    } else if at == 47 {
        assert(SQLITE_PRAGMAS@[47]@ == "read_uncommitted"@);
    } else if at == 48 {
        assert(SQLITE_PRAGMAS@[48]@ == "recursive_triggers"@);
    } else if at == 49 {
        assert(SQLITE_PRAGMAS@[49]@ == "reverse_unordered_selects"@);
    } else if at == 50 {
        assert(SQLITE_PRAGMAS@[50]@ == "schema_version"@);
    } else if at == 51 {
        assert(SQLITE_PRAGMAS@[51]@ == "secure_delete"@);
    } else if at == 52 {
        assert(SQLITE_PRAGMAS@[52]@ == "short_column_names"@);
    } else if at == 53 {
        assert(SQLITE_PRAGMAS@[53]@ == "shrink_memory"@);
    } else if at == 54 {
        assert(SQLITE_PRAGMAS@[54]@ == "soft_heap_limit"@);
    } else if at == 55 {
        assert(SQLITE_PRAGMAS@[55]@ == "synchronous"@);
    } else if at == 56 {
        assert(SQLITE_PRAGMAS@[56]@ == "table_info"@);
    } else if at == 57 {
        assert(SQLITE_PRAGMAS@[57]@ == "table_list"@);
    } else if at == 58 {
        assert(SQLITE_PRAGMAS@[58]@ == "table_xinfo"@);
    } else if at == 59 {
        assert(SQLITE_PRAGMAS@[59]@ == "temp_store"@);
    } else if at == 60 {
        assert(SQLITE_PRAGMAS@[60]@ == "temp_store_directory"@);
    } else if at == 61 {
        assert(SQLITE_PRAGMAS@[61]@ == "threads"@);
    } else if at == 62 {
        assert(SQLITE_PRAGMAS@[62]@ == "trusted_schema"@);
    } else if at == 63 {
        assert(SQLITE_PRAGMAS@[63]@ == "user_version"@);
    } else if at == 64 {
        assert(SQLITE_PRAGMAS@[64]@ == "wal_autocheckpoint"@);
    } else if at == 65 {
        assert(SQLITE_PRAGMAS@[65]@ == "wal_checkpoint"@);
    } else if at == 66 {
        assert(SQLITE_PRAGMAS@[66]@ == "writable_schema"@);
    }
}

/// What each word of a list is written with.
pub open spec fn words_of(words: Seq<&'static str>) -> Seq<Seq<u8>> {
    words.map_values(|word: &'static str| ascii(word))
}

/// The names a list of the first of the known pragmas reports, which leaves out
/// one that only some machines have.
pub open spec fn listed_of(windows: bool, upto: int) -> Seq<Seq<u8>>
    decreases upto,
{
    if upto <= 0 {
        Seq::empty()
    } else if windows || ascii(SQLITE_PRAGMAS@[upto - 1]) != ascii("data_store_directory") {
        listed_of(windows, upto - 1).push(ascii(SQLITE_PRAGMAS@[upto - 1]))
    } else {
        listed_of(windows, upto - 1)
    }
}

/// Returns the names a list of the pragmas reports.
pub fn listed_pragmas(windows: bool) -> (names: Vec<&'static str>)
    ensures
        words_of(names@) == listed_of(windows, SQLITE_PRAGMAS@.len() as int),
{
    let mut names: Vec<&'static str> = Vec::new();
    for at in 0..SQLITE_PRAGMAS.len()
        invariant
            words_of(names@) =~= listed_of(windows, at as int),
    {
        if windows || !same(
            SQLITE_PRAGMAS[at].as_bytes(),
            "data_store_directory".as_bytes(),
        ) {
            let ghost before = names@;
            names.push(SQLITE_PRAGMAS[at]);
            assert(words_of(names@) =~= words_of(before).push(
                ascii(SQLITE_PRAGMAS@[at as int]),
            ));
        }
    }
    names
}

/// Returns an answer of one row and one column that holds a word.
///
/// The column is called what the pragma is.
pub fn word_row(name: &[u8], word: &[u8]) -> (outcome: Outcome)
    ensures
        outcome.changes == 0,
        owned_rows(outcome.rows@) == seq![seq![Value::Text(word@)]],
        names_of(outcome.names@) == seq![name@],
{
    let row: Vec<OwnedDatum> = vec![OwnedDatum::Text(copied(word))];
    assert(owned_row(row@) =~= seq![Value::Text(word@)]);
    let rows: Vec<Vec<OwnedDatum>> = vec![row];
    assert(owned_rows(rows@) =~= seq![seq![Value::Text(word@)]]);
    let names: Vec<Vec<u8>> = vec![copied(name)];
    assert(names_of(names@) =~= seq![name@]);
    Outcome { rows, names, changes: 0 }
}

/// Returns an answer of one row and one column that holds a number.
pub fn named_integer(name: &[u8], value: i64) -> (outcome: Outcome)
    ensures
        outcome.changes == 0,
        owned_rows(outcome.rows@) == seq![seq![Value::Int(value)]],
        names_of(outcome.names@) == seq![name@],
{
    let row: Vec<OwnedDatum> = vec![OwnedDatum::Int(value)];
    assert(owned_row(row@) =~= seq![Value::Int(value)]);
    let rows: Vec<Vec<OwnedDatum>> = vec![row];
    assert(owned_rows(rows@) =~= seq![seq![Value::Int(value)]]);
    let names: Vec<Vec<u8>> = vec![copied(name)];
    assert(names_of(names@) =~= seq![name@]);
    Outcome { rows, names, changes: 0 }
}

/// Returns an answer of one column over a list of names.
pub fn list_of(column: &[u8], values: &[Vec<u8>]) -> (outcome: Outcome)
    ensures
        outcome.changes == 0,
        owned_rows(outcome.rows@) == names_of(values@).map_values(
            |value: Seq<u8>| seq![Value::Text(value)],
        ),
        names_of(outcome.names@) == seq![column@],
{
    let mut rows: Vec<Vec<OwnedDatum>> = Vec::with_capacity(values.len());
    let ghost all = names_of(values@).map_values(|value: Seq<u8>| seq![Value::Text(value)]);
    for at in 0..values.len()
        invariant
            all == names_of(values@).map_values(|value: Seq<u8>| seq![Value::Text(value)]),
            owned_rows(rows@) =~= all.take(at as int),
    {
        let ghost before = rows@;
        let row: Vec<OwnedDatum> = vec![OwnedDatum::Text(copied(values[at].as_slice()))];
        assert(owned_row(row@) =~= all[at as int]);
        rows.push(row);
        assert(owned_rows(rows@) =~= owned_rows(before).push(owned_row(row@)));
    }
    assert(all.take(all.len() as int) =~= all);
    let names: Vec<Vec<u8>> = vec![copied(column)];
    assert(names_of(names@) =~= seq![column@]);
    Outcome { rows, names, changes: 0 }
}

/// Whether a text spells the one value of a pragma.
pub open spec fn spells(text: Seq<char>, spelling: Spelling) -> bool {
    let said = folded_text(text);
    match spelling {
        Spelling::Off => said == folded_text("0"@) || said == folded_text("off"@) || said
            == folded_text("false"@) || said == folded_text("no"@),
        Spelling::On => said == folded_text("1"@) || said == folded_text("on"@) || said
            == folded_text("true"@) || said == folded_text("yes"@),
        Spelling::Unlimited => said == folded_text("-1"@),
    }
}

/// Reports whether a text spells the one value of a pragma.
fn is_spelled(text: &str, spelling: Spelling) -> (answer: bool)
    ensures
        answer == spells(text@, spelling),
        spelling is Off ==> (answer <==> folded_text(text@) == folded_text("0"@) || folded_text(
            text@,
        ) == folded_text("off"@) || folded_text(text@) == folded_text("false"@) || folded_text(
            text@,
        ) == folded_text("no"@)),
        spelling is On ==> (answer <==> folded_text(text@) == folded_text("1"@) || folded_text(
            text@,
        ) == folded_text("on"@) || folded_text(text@) == folded_text("true"@) || folded_text(text@)
            == folded_text("yes"@)),
        spelling is Unlimited ==> (answer <==> folded_text(text@) == folded_text("-1"@)),
{
    match spelling {
        Spelling::Off => same_folded_text(text, "0") || same_folded_text(text, "off")
            || same_folded_text(text, "false") || same_folded_text(text, "no"),
        Spelling::On => same_folded_text(text, "1") || same_folded_text(text, "on")
            || same_folded_text(text, "true") || same_folded_text(text, "yes"),
        Spelling::Unlimited => same_folded_text(text, "-1"),
    }
}

/// Answers a pragma the engine has one value for.
///
/// Reading it gives the value. Setting it to what it is does nothing, and setting
/// it to anything else is refused rather than pretended.
pub fn pragma_fixed_number(
    argument: Option<&str>,
    name: &[u8],
    value: i64,
    spelling: Spelling,
) -> (answer: Result<Outcome, Refusal>)
    ensures
        match argument {
            None => {
                &&& answer matches Ok(said)
                &&& owned_rows(said.rows@) == seq![seq![Value::Int(value)]]
                &&& names_of(said.names@) == seq![name@]
                &&& said.changes == 0
            },
            Some(text) => if spells(trimmed_text(text@), spelling) {
                &&& answer matches Ok(said)
                &&& said.rows@.len() == 0
                &&& said.names@.len() == 0
                &&& said.changes == 0
            } else {
                &&& answer matches Err(Refusal::FixedNumber(told, held, wanted))
                &&& told@ == name@
                &&& held == value
                &&& wanted@ == folded(vstd::utf8::encode_utf8(trimmed_text(text@)))
            },
        },
{
    match argument {
        None => Ok(named_integer(name, value)),
        Some(text) => {
            let said = trim_text(text);
            if is_spelled(said, spelling) {
                Ok(Outcome::empty())
            } else {
                Err(Refusal::FixedNumber(copied(name), value, fold(said.as_bytes())))
            }
        },
    }
}

/// Returns the schema a pragma is about: the one it was qualified with, and
/// `main` when it was not.
pub fn file_of(state: &SessionState, at: Option<usize>) -> (schema: Result<usize, Refusal>)
    ensures
        schema == ({
            let at = match at {
                Some(at) => at,
                None => MAIN,
            };
            if state.leads_to(at as int) is Some {
                Ok::<usize, Refusal>(at)
            } else {
                Err::<usize, Refusal>(Refusal::PragmaNotAttached)
            }
        }),
        at is None || at == Some(0usize) ==> schema == Ok::<usize, Refusal>(0),
        at is Some && at->Some_0 >= 2 ==> schema == (if at->Some_0 - 2 < state.attached@.len() {
            Ok::<usize, Refusal>(at->Some_0)
        } else {
            Err::<usize, Refusal>(Refusal::PragmaNotAttached)
        }),
{
    let at: usize = match at {
        Some(at) => at,
        None => MAIN,
    };
    match state.slot_of(at) {
        Some(_) => Ok(at),
        None => Err(Refusal::PragmaNotAttached),
    }
}

/// What a foreign key does when its parent row goes.
#[derive(Clone, Copy, Debug, PartialEq, Eq, Structural)]
pub enum ReferentialAction {
    /// Nothing until the statement ends.
    NoAction,
    /// It refuses.
    Restrict,
    /// It sets the child's columns to NULL.
    SetNull,
    /// It sets the child's columns to their defaults.
    SetDefault,
    /// The child goes too.
    Cascade,
}

/// What a referential action is called.
pub open spec fn action_called(action: ReferentialAction) -> Seq<char> {
    match action {
        ReferentialAction::NoAction => "NO ACTION"@,
        ReferentialAction::Restrict => "RESTRICT"@,
        ReferentialAction::SetNull => "SET NULL"@,
        ReferentialAction::SetDefault => "SET DEFAULT"@,
        ReferentialAction::Cascade => "CASCADE"@,
    }
}

/// Returns what a referential action is called.
pub fn action_name(action: ReferentialAction) -> (name: &'static str)
    ensures
        name@ == action_called(action),
        action is NoAction ==> name@ == "NO ACTION"@,
        action is Restrict ==> name@ == "RESTRICT"@,
        action is SetNull ==> name@ == "SET NULL"@,
        action is SetDefault ==> name@ == "SET DEFAULT"@,
        action is Cascade ==> name@ == "CASCADE"@,
{
    match action {
        ReferentialAction::NoAction => "NO ACTION",
        ReferentialAction::Restrict => "RESTRICT",
        ReferentialAction::SetNull => "SET NULL",
        ReferentialAction::SetDefault => "SET DEFAULT",
        ReferentialAction::Cascade => "CASCADE",
    }
}

/// The name a collation is reported by: capitals for the three the engine has,
/// and any other as it is.
pub open spec fn collation_called(name: Seq<u8>) -> Seq<u8> {
    if name.len() == 0 || name == ascii("binary") {
        ascii("BINARY")
    } else if name == ascii("nocase") {
        ascii("NOCASE")
    } else if name == ascii("rtrim") {
        ascii("RTRIM")
    } else {
        name
    }
}

/// Returns the name a collation is reported by.
pub fn collation_name(name: &[u8]) -> (reported: Vec<u8>)
    ensures
        reported@ == collation_called(name@),
        name@.len() == 0 || name@ == ascii("binary") ==> reported@ == ascii("BINARY"),
        name@.len() > 0 && name@ != ascii("binary") && name@ == ascii("nocase") ==> reported@
            == ascii("NOCASE"),
        name@.len() > 0 && name@ != ascii("binary") && name@ != ascii("nocase") && name@ == ascii(
            "rtrim",
        ) ==> reported@ == ascii("RTRIM"),
        name@.len() > 0 && name@ != ascii("binary") && name@ != ascii("nocase") && name@ != ascii(
            "rtrim",
        ) ==> reported@ == name@,
{
    if name.len() == 0 || same(name, "binary".as_bytes()) {
        copied("BINARY".as_bytes())
    } else if same(name, "nocase".as_bytes()) {
        copied("NOCASE".as_bytes())
    } else if same(name, "rtrim".as_bytes()) {
        copied("RTRIM".as_bytes())
    } else {
        copied(name)
    }
}

/// What kind of function a function is.
#[derive(Clone, Copy, Debug, PartialEq, Eq, Structural)]
pub enum FunctionKind {
    /// One that answers for a row.
    Scalar,
    /// One that answers for a group.
    Aggregate,
    /// One that answers for a window.
    Window,
}

/// What a function is.
#[verifier::ext_equal]
pub struct Function {
    /// Its name.
    pub name: Seq<u8>,
    /// Whether it is one of the engine's own.
    pub builtin: bool,
    /// What kind it is.
    pub kind: FunctionKind,
    /// How many arguments it takes, below zero for any number.
    pub arity: i64,
    /// What is promised of it.
    pub flags: i64,
}

/// One function.
#[derive(Debug)]
pub struct FunctionEntry {
    /// Its name.
    pub name: Vec<u8>,
    /// Whether it is one of the engine's own.
    pub builtin: bool,
    /// What kind it is.
    pub kind: FunctionKind,
    /// How many arguments it takes, below zero for any number.
    pub arity: i64,
    /// What is promised of it.
    pub flags: i64,
}

impl View for FunctionEntry {
    type V = Function;

    open spec fn view(&self) -> Function {
        Function {
            name: self.name@,
            builtin: self.builtin,
            kind: self.kind,
            arity: self.arity,
            flags: self.flags,
        }
    }
}

/// What each function of a list is.
pub open spec fn functions_of(entries: Seq<FunctionEntry>) -> Seq<Function> {
    entries.map_values(|entry: FunctionEntry| entry@)
}

/// Where the last function of a name and an arity stands in a list.
pub open spec fn placed_at(list: Seq<Function>, name: Seq<u8>, arity: i64) -> Option<int>
    decreases list.len(),
{
    if list.len() == 0 {
        None
    } else if folded(list.last().name) == folded(name) && list.last().arity == arity {
        Some(list.len() - 1)
    } else {
        placed_at(list.drop_last(), name, arity)
    }
}

/// What a list of functions says of one that was registered.
pub open spec fn registered_as(held: Function) -> Function {
    Function { name: folded(held.name), builtin: false, ..held }
}

/// A list of functions with one more registered: in the place of one it stands
/// in front of, or at the end.
pub open spec fn with_function(list: Seq<Function>, held: Function) -> Seq<Function> {
    match placed_at(list, held.name, held.arity) {
        Some(at) => list.update(at, registered_as(held)),
        None => list.push(registered_as(held)),
    }
}

/// A list of functions with the first of some more registered.
pub open spec fn with_functions(
    list: Seq<Function>,
    registered: Seq<Function>,
    upto: int,
) -> Seq<Function>
    decreases upto,
{
    if upto <= 0 {
        list
    } else {
        with_function(with_functions(list, registered, upto - 1), registered[upto - 1])
    }
}

/// The last function of a name and an arity is one of the list.
proof fn placed_stands(list: Seq<Function>, name: Seq<u8>, arity: i64)
    ensures
        placed_at(list, name, arity) matches Some(at) ==> 0 <= at < list.len() && folded(
            list[at].name,
        ) == folded(name) && list[at].arity == arity,
    decreases list.len(),
{
    if list.len() > 0 {
        placed_stands(list.drop_last(), name, arity);
    }
}

/// A name folded twice is folded once.
proof fn folding_settles(name: Seq<u8>)
    ensures
        folded(folded(name)) == folded(name),
{
    assert(folded(folded(name)) =~= folded(name));
}

/// Registering a function moves no other: what stood in a place of the list
/// still answers to the same name and arity.
pub proof fn registering_moves_nothing(
    list: Seq<Function>,
    registered: Seq<Function>,
    upto: int,
    at: int,
)
    requires
        0 <= at < list.len(),
        0 <= upto <= registered.len(),
    ensures
        with_functions(list, registered, upto).len() >= list.len(),
        folded(with_functions(list, registered, upto)[at].name) == folded(list[at].name),
        with_functions(list, registered, upto)[at].arity == list[at].arity,
    decreases upto,
{
    if upto > 0 {
        registering_moves_nothing(list, registered, upto - 1, at);
        let before = with_functions(list, registered, upto - 1);
        let held = registered[upto - 1];
        placed_stands(before, held.name, held.arity);
        folding_settles(held.name);
    }
}

/// Returns where the last function of a name and an arity stands in a list.
fn find_function(list: &[FunctionEntry], name: &[u8], arity: i64) -> (found: Option<usize>)
    ensures
        match found {
            Some(at) => placed_at(functions_of(list@), name@, arity) == Some(at as int) && at
                < list@.len(),
            None => placed_at(functions_of(list@), name@, arity) is None,
        },
{
    let ghost all = functions_of(list@);
    let mut at: usize = list.len();
    assert(all.take(all.len() as int) =~= all);
    while at > 0
        invariant
            at <= list@.len(),
            all == functions_of(list@),
            placed_at(all, name@, arity) == placed_at(all.take(at as int), name@, arity),
        decreases at,
    {
        let ghost some = all.take(at as int);
        at = at - 1;
        assert(some.last() == all[at as int]);
        if same_folded(list[at].name.as_slice(), name) && list[at].arity == arity {
            return Some(at);
        }
        assert(some.drop_last() =~= all.take(at as int));
    }
    None
}

/// The letter a kind of function is reported by.
pub open spec fn kind_letter(kind: FunctionKind) -> Seq<u8> {
    match kind {
        FunctionKind::Scalar => ascii("s"),
        FunctionKind::Aggregate => ascii("a"),
        FunctionKind::Window => ascii("w"),
    }
}

/// The row a list of functions gives one of them.
pub open spec fn row_of_function(entry: Function) -> Seq<Value> {
    seq![
        Value::Text(entry.name),
        Value::Int(
            if entry.builtin {
                1i64
            } else {
                0
            },
        ),
        Value::Text(kind_letter(entry.kind)),
        Value::Text(ascii("utf8")),
        Value::Int(entry.arity),
        Value::Int(entry.flags),
    ]
}

/// Returns the row a list of functions gives one of them.
fn function_row(entry: &FunctionEntry) -> (row: Vec<OwnedDatum>)
    ensures
        owned_row(row@) == row_of_function(entry@),
{
    let letter: &'static str = match entry.kind {
        FunctionKind::Scalar => "s",
        FunctionKind::Aggregate => "a",
        FunctionKind::Window => "w",
    };
    let builtin: i64 = if entry.builtin {
        1
    } else {
        0
    };
    let row: Vec<OwnedDatum> = vec![
        OwnedDatum::Text(copied(entry.name.as_slice())),
        OwnedDatum::Int(builtin),
        OwnedDatum::Text(copied(letter.as_bytes())),
        OwnedDatum::Text(copied("utf8".as_bytes())),
        OwnedDatum::Int(entry.arity),
        OwnedDatum::Int(entry.flags),
    ];
    assert(owned_row(row@) =~= row_of_function(entry@));
    row
}

/// Returns the functions a connection answers, the engine's own and then what
/// was registered on it.
///
/// One that stands in front of one of the engine's own is reported in its place,
/// because it is what a call reaches.
pub fn pragma_function_list(
    builtins: Vec<FunctionEntry>,
    registered: &[FunctionEntry],
) -> (outcome: Outcome)
    ensures
        outcome.changes == 0,
        owned_rows(outcome.rows@) == with_functions(
            functions_of(builtins@),
            functions_of(registered@),
            registered@.len() as int,
        ).map_values(|entry: Function| row_of_function(entry)),
        names_of(outcome.names@) == seq![
            ascii("name"),
            ascii("builtin"),
            ascii("type"),
            ascii("enc"),
            ascii("narg"),
            ascii("flags"),
        ],
{
    let ghost first = functions_of(builtins@);
    let ghost more = functions_of(registered@);
    let mut list = builtins;
    for nth in 0..registered.len()
        invariant
            more == functions_of(registered@),
            functions_of(list@) =~= with_functions(first, more, nth as int),
    {
        let held = &registered[nth];
        let ghost before = functions_of(list@);
        let entry = FunctionEntry {
            name: fold(held.name.as_slice()),
            builtin: false,
            kind: held.kind,
            arity: held.arity,
            flags: held.flags,
        };
        assert(more[nth as int] == held@);
        assert(entry@ =~= registered_as(held@));
        match find_function(list.as_slice(), held.name.as_slice(), held.arity) {
            Some(at) => {
                list.set(at, entry);
                assert(functions_of(list@) =~= before.update(at as int, entry@));
            },
            None => {
                list.push(entry);
                assert(functions_of(list@) =~= before.push(entry@));
            },
        }
    }
    let ghost all = functions_of(list@);
    let ghost said = all.map_values(|entry: Function| row_of_function(entry));
    let mut rows: Vec<Vec<OwnedDatum>> = Vec::with_capacity(list.len());
    for at in 0..list.len()
        invariant
            all == functions_of(list@),
            said == all.map_values(|entry: Function| row_of_function(entry)),
            owned_rows(rows@) =~= said.take(at as int),
    {
        let ghost before = rows@;
        let row = function_row(&list[at]);
        rows.push(row);
        assert(owned_rows(rows@) =~= owned_rows(before).push(owned_row(row@)));
        assert(said[at as int] == row_of_function(list@[at as int]@));
    }
    assert(said.take(said.len() as int) =~= said);
    let names: Vec<Vec<u8>> = vec![
        copied("name".as_bytes()),
        copied("builtin".as_bytes()),
        copied("type".as_bytes()),
        copied("enc".as_bytes()),
        copied("narg".as_bytes()),
        copied("flags".as_bytes()),
    ];
    assert(names_of(names@) =~= seq![
        ascii("name"),
        ascii("builtin"),
        ascii("type"),
        ascii("enc"),
        ascii("narg"),
        ascii("flags"),
    ]);
    Outcome { rows, names, changes: 0 }
}

/// Returns what is promised of a registered function, as the bits that are
/// reported for it.
pub fn registered_flags(
    innocuous: bool,
    deterministic: bool,
    innocuous_flag: i64,
    deterministic_flag: i64,
) -> (word: i64)
    ensures
        word == (if innocuous {
            innocuous_flag
        } else {
            0
        }) | (if deterministic {
            deterministic_flag
        } else {
            0
        }),
{
    let one: i64 = if innocuous {
        innocuous_flag
    } else {
        0
    };
    let two: i64 = if deterministic {
        deterministic_flag
    } else {
        0
    };
    one | two
}

/// Whether a list of names is in ascending order, and none is in it twice.
pub open spec fn strictly_ascending(names: Seq<Seq<u8>>) -> bool {
    forall|i: int, j: int|
        0 <= i < j < names.len() ==> byte_order(#[trigger] names[i], #[trigger] names[j]) is Less
}

/// Puts a name into a list that is in order, unless it is there.
fn place_name(names: &mut Vec<Vec<u8>>, name: Vec<u8>)
    requires
        strictly_ascending(names_of(old(names)@)),
    ensures
        strictly_ascending(names_of(final(names)@)),
        forall|other: Seq<u8>| #[trigger]
            names_of(final(names)@).contains(other) <==> names_of(old(names)@).contains(other)
                || other == name@,
{
    let ghost before = names_of(names@);
    let many: usize = names.len();
    let mut at: usize = 0;
    while at < many && compare_bytes(names[at].as_slice(), name.as_slice()) == Order::Less
        invariant
            at <= many,
            many == names@.len(),
            names_of(names@) == before,
            forall|i: int| 0 <= i < at ==> byte_order(#[trigger] before[i], name@) is Less,
        decreases many - at,
    {
        assert(before[at as int] == names@[at as int]@);
        at = at + 1;
    }
    if at < many && same(names[at].as_slice(), name.as_slice()) {
        assert(before[at as int] == name@);
        return;
    }
    let ghost text = name@;
    proof {
        if at < many {
            assert(before[at as int] == names@[at as int]@);
            crate::codes::byte_order_reversed(before[at as int], text);
            if byte_order(before[at as int], text) is Equal {
                crate::loading::equal_bytes_are_same(before[at as int], text);
            }
        }
    }
    names.insert(at, name);
    proof {
        let after = names_of(names@);
        assert(after =~= before.insert(at as int, text));
        assert forall|i: int, j: int| 0 <= i < j < after.len() implies byte_order(
            #[trigger] after[i],
            #[trigger] after[j],
        ) is Less by {
            let one = if i < at {
                i
            } else {
                i - 1
            };
            let two = if j < at {
                j
            } else {
                j - 1
            };
            if i == at {
                assert(after[j] == before[two]);
                if two > at {
                    assert(byte_order(before[at as int], before[two]) is Less);
                    crate::codes::byte_order_carries(text, before[at as int], before[two]);
                }
            } else if j == at {
                assert(after[i] == before[one]);
            } else {
                assert(after[i] == before[one]);
                assert(after[j] == before[two]);
            }
        }
        assert forall|other: Seq<u8>| #[trigger] after.contains(other) <==> before.contains(other)
            || other == text by {
            if before.contains(other) {
                let i = choose|i: int| 0 <= i < before.len() && before[i] == other;
                if i < at {
                    assert(after[i] == other);
                } else {
                    assert(after[i + 1] == other);
                }
            }
            assert(after[at as int] == text);
            if after.contains(other) {
                let i = choose|i: int| 0 <= i < after.len() && after[i] == other;
                if i < at {
                    assert(before[i] == other);
                } else if i > at {
                    assert(before[i - 1] == other);
                }
            }
        }
    }
}

/// Returns the modules a connection answers, those registered on it and those
/// the engine presents itself, in order and each once.
pub fn module_list(registered: &[Vec<u8>]) -> (names: Vec<Vec<u8>>)
    ensures
        strictly_ascending(names_of(names@)),
        forall|name: Seq<u8>| #[trigger]
            names_of(names@).contains(name) <==> names_of(registered@).contains(name)
                || words_of(ENGINE_MODULES@).contains(name),
{
    let mut names: Vec<Vec<u8>> = Vec::new();
    let ghost given = names_of(registered@);
    for at in 0..registered.len()
        invariant
            given == names_of(registered@),
            strictly_ascending(names_of(names@)),
            forall|name: Seq<u8>| #[trigger]
                names_of(names@).contains(name) <==> given.take(at as int).contains(name),
    {
        let ghost before = names_of(names@);
        place_name(&mut names, copied(registered[at].as_slice()));
        let ghost some = given.take(at as int);
        let ghost more = given.take(at + 1);
        assert(more =~= some.push(given[at as int]));
        assert forall|name: Seq<u8>| #[trigger]
            names_of(names@).contains(name) <==> more.contains(name) by {
            one_more(some, given[at as int], name);
            assert(before.contains(name) <==> some.contains(name));
        }
    }
    assert(given.take(given.len() as int) =~= given);
    let ghost list = words_of(ENGINE_MODULES@);
    for at in 0..ENGINE_MODULES.len()
        invariant
            list == words_of(ENGINE_MODULES@),
            strictly_ascending(names_of(names@)),
            forall|name: Seq<u8>| #[trigger]
                names_of(names@).contains(name) <==> given.contains(name) || list.take(
                    at as int,
                ).contains(name),
    {
        let ghost before = names_of(names@);
        place_name(&mut names, copied(ENGINE_MODULES[at].as_bytes()));
        let ghost some = list.take(at as int);
        let ghost more = list.take(at + 1);
        assert(list[at as int] == ascii(ENGINE_MODULES@[at as int]));
        assert(more =~= some.push(list[at as int]));
        assert forall|name: Seq<u8>| #[trigger]
            names_of(names@).contains(name) <==> given.contains(name) || more.contains(name) by {
            one_more(some, list[at as int], name);
            assert(before.contains(name) <==> given.contains(name) || some.contains(name));
        }
    }
    assert(list.take(list.len() as int) =~= list);
    names
}

/// A list with one name more holds what it held and that name.
proof fn one_more(names: Seq<Seq<u8>>, more: Seq<u8>, name: Seq<u8>)
    ensures
        names.push(more).contains(name) <==> names.contains(name) || name == more,
{
    let all = names.push(more);
    if names.contains(name) {
        let i = choose|i: int| 0 <= i < names.len() && names[i] == name;
        assert(all[i] == name);
    }
    assert(all[names.len() as int] == more);
    if all.contains(name) {
        let i = choose|i: int| 0 <= i < all.len() && all[i] == name;
        if i < names.len() {
            assert(names[i] == name);
        }
    }
}

/// Every known pragma is listed, in the order they are known in, but for the one that is
/// only on Windows.
pub proof fn every_known_pragma_is_listed(windows: bool, upto: int, at: int) -> (place: int)
    requires
        0 <= at < upto <= SQLITE_PRAGMAS@.len(),
        windows || ascii(SQLITE_PRAGMAS@[at]) != ascii("data_store_directory"),
    ensures
        0 <= place < listed_of(windows, upto).len(),
        listed_of(windows, upto)[place] == ascii(SQLITE_PRAGMAS@[at]),
        windows ==> place == at && listed_of(windows, upto).len() == upto,
        place == listed_of(windows, at).len(),
    decreases upto,
{
    if windows {
        all_are_listed(upto);
        all_are_listed(at);
    }
    if at == upto - 1 {
        listed_of(windows, upto).len() - 1
    } else {
        every_known_pragma_is_listed(windows, upto - 1, at)
    }
}

/// On Windows as many pragmas are listed as are known.
proof fn all_are_listed(upto: int)
    requires
        0 <= upto,
    ensures
        listed_of(true, upto).len() == upto,
    decreases upto,
{
    if upto > 0 {
        all_are_listed(upto - 1);
    }
}

/// Elsewhere that one is not listed.
pub proof fn one_pragma_is_only_on_windows(upto: int, place: int)
    requires
        0 <= upto,
        0 <= place < listed_of(false, upto).len(),
    ensures
        listed_of(false, upto)[place] != ascii("data_store_directory"),
    decreases upto,
{
    if upto > 0 && place < listed_of(false, upto - 1).len() {
        one_pragma_is_only_on_windows(upto - 1, place);
    }
}

/// A registered function is listed under its folded name and as no built-in: in place of
/// the newest of the same name and number of arguments, or after the others where there
/// is none.
pub proof fn a_registered_function_is_listed(list: Seq<Function>, held: Function, at: int)
    requires
        0 <= at <= list.len(),
        at < list.len() ==> folded(list[at].name) == folded(held.name) && list[at].arity
            == held.arity,
        forall|i: int|
            #![trigger list[i]]
            0 <= i < list.len() && (at == list.len() || i > at) ==> !(folded(list[i].name)
                == folded(held.name) && list[i].arity == held.arity),
    ensures
        ({
            let after = with_function(list, held);
            &&& after.len() == if at == list.len() {
                list.len() + 1
            } else {
                list.len()
            }
            &&& after[at].name == folded(held.name)
            &&& !after[at].builtin
            &&& after[at].kind == held.kind
            &&& after[at].arity == held.arity
            &&& after[at].flags == held.flags
            &&& forall|i: int| 0 <= i < list.len() && i != at ==> #[trigger] after[i] == list[i]
        }),
{
    placed_is_the_newest(list, held, at);
}

/// The function found by its name and number of arguments is the newest.
proof fn placed_is_the_newest(list: Seq<Function>, held: Function, at: int)
    requires
        0 <= at <= list.len(),
        at < list.len() ==> folded(list[at].name) == folded(held.name) && list[at].arity
            == held.arity,
        forall|i: int|
            #![trigger list[i]]
            0 <= i < list.len() && (at == list.len() || i > at) ==> !(folded(list[i].name)
                == folded(held.name) && list[i].arity == held.arity),
    ensures
        at < list.len() ==> placed_at(list, held.name, held.arity) == Some(at),
        at == list.len() ==> placed_at(list, held.name, held.arity) is None,
    decreases list.len(),
{
    if list.len() > 0 {
        let fewer = list.drop_last();
        let last = list.len() - 1;
        if at == list.len() {
            assert(!(folded(list[last].name) == folded(held.name) && list[last].arity
                == held.arity));
            assert forall|i: int|
                #![trigger fewer[i]]
                0 <= i < fewer.len() implies !(folded(fewer[i].name) == folded(held.name)
                && fewer[i].arity == held.arity) by {
                assert(fewer[i] == list[i]);
            }
            placed_is_the_newest(fewer, held, fewer.len() as int);
        } else if at < last {
            assert(!(folded(list[last].name) == folded(held.name) && list[last].arity
                == held.arity));
            assert forall|i: int|
                #![trigger fewer[i]]
                0 <= i < fewer.len() && i > at implies !(folded(fewer[i].name) == folded(held.name)
                && fewer[i].arity == held.arity) by {
                assert(fewer[i] == list[i]);
            }
            assert(fewer[at] == list[at]);
            placed_is_the_newest(fewer, held, at);
        }
    }
}

/// A function is told by its row.
pub proof fn a_function_is_told_by_its_row(entry: Function)
    ensures
        ({
            let row = row_of_function(entry);
            &&& row.len() == 6
            &&& row[0] == Value::Text(entry.name)
            &&& entry.builtin ==> row[1] == Value::Int(1)
            &&& !entry.builtin ==> row[1] == Value::Int(0)
            &&& entry.kind is Scalar ==> row[2] == Value::Text(ascii("s"))
            &&& entry.kind is Aggregate ==> row[2] == Value::Text(ascii("a"))
            &&& entry.kind is Window ==> row[2] == Value::Text(ascii("w"))
            &&& row[3] == Value::Text(ascii("utf8"))
            &&& row[4] == Value::Int(entry.arity)
            &&& row[5] == Value::Int(entry.flags)
        }),
{
}

} // verus!
