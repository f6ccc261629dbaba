//! The opening of a cache that several processes may fill: what to do with
//! the cache file that is found, and how a lookup goes on while the cache
//! is being filled.
use vstd::prelude::*;
use process_alive::{Pid, State};
use crate::error::{Error, Result};
use crate::text::{parse_unsigned, parsed_unsigned};

verus! {

/// What the system says of a process.
#[derive(Clone, Copy, Debug, PartialEq, Eq, Structural)]
pub enum ProcessState {
    Alive,
    Dead,
    Unknown,
}

/// The cache file as it is found when a dictionary is opened.
#[derive(Clone, Copy, Debug, PartialEq, Eq, Structural)]
pub enum CacheFile {
    /// There is no cache file.
    Absent,
    /// The cache file says that it was filled.
    Complete,
    /// The cache file says that filling it was begun, and not that it was
    /// finished.
    Started { initializer_alive: bool },
}

/// What opening a dictionary does with its cache file.
#[derive(Clone, Copy, Debug, PartialEq, Eq, Structural)]
pub enum OpenAction {
    /// Create the file and fill it in the background.
    Initialize,
    /// Open the file for reading.
    Load,
    /// Another process fills the file: open it for reading and wait.
    WaitForOther,
    /// The process that began to fill the file is gone: remove the file,
    /// then create and fill it.
    RemoveAndInitialize,
}

/// The state of an opened cache.
#[derive(Clone, Copy, Debug, PartialEq, Eq, Structural)]
pub enum DbState {
    /// The cache is filled and open for reading.
    Loaded,
    /// Another process is filling the cache.
    InitByOther,
    /// This process is filling the cache in the background.
    Init,
}

/// What a lookup does, given the state of the cache.
#[derive(Clone, Copy, Debug, PartialEq, Eq, Structural)]
pub enum LookupAction {
    /// Answer from the open cache.
    Query,
    /// Open the cache for reading, then answer from it.
    ReopenAndQuery,
    /// Report that the cache is being filled.
    ReportInitiating,
}

/// The process number that a text stands for: an unsigned decimal number
/// of 32 bits.
pub open spec fn parsed_pid(s: Seq<char>) -> Option<nat> {
    parsed_unsigned(s, u32::MAX as nat)
}

/// Calls `process_alive::state`. Trusted for nothing: what comes back
/// depends on the processes that run at that moment.
#[verifier::external_body]
fn probe(pid: u32) -> (state: ProcessState) {
    match process_alive::state(Pid::from(pid)) {
        State::Alive => ProcessState::Alive,
        State::Dead => ProcessState::Dead,
        State::Unknown => ProcessState::Unknown,
    }
}

/// Whether a process in this state counts as running: only one that the
/// system reports alive does.
pub fn counts_as_alive(state: ProcessState) -> (b: bool)
    ensures
        b == (state is Alive),
{
    match state {
        ProcessState::Alive => true,
        ProcessState::Dead => false,
        ProcessState::Unknown => false,
    }
}

/// Whether the cache's metadata says that the cache was filled.
pub fn check_init_complete(init_status: &str) -> (b: bool)
    ensures
        b == (init_status@ == "success"@),
{
    init_status.to_owned() == "success".to_owned()
}

/// Whether the process that began to fill the cache at `cache_path` still
/// runs, by the process number that the cache's metadata holds. Metadata
/// that holds no process number makes the cache invalid.
pub fn other_pid_alive(init_pid: &str, cache_path: &str) -> (r: Result<bool>)
    ensures
        match r {
            Ok(_) => parsed_pid(init_pid@) is Some,
            Err(e) => {
                &&& parsed_pid(init_pid@) is None
                &&& e matches Error::InvalidDictCache(path) && path@ == cache_path@
            },
        },
{
    match parse_unsigned(init_pid, 0xffff_ffff) {
        Some(pid) => Ok(counts_as_alive(probe(pid as u32))),
        None => Err(Error::InvalidDictCache(cache_path.to_owned())),
    }
}

/// What opening does with the cache file that it finds.
pub open spec fn open_action(observed: CacheFile) -> OpenAction {
    match observed {
        CacheFile::Absent => OpenAction::Initialize,
        CacheFile::Complete => OpenAction::Load,
        CacheFile::Started { initializer_alive } => if initializer_alive {
            OpenAction::WaitForOther
        } else {
            OpenAction::RemoveAndInitialize
        },
    }
}

/// The state of the cache once the action is done.
pub open spec fn state_after(action: OpenAction) -> DbState {
    match action {
        OpenAction::Initialize => DbState::Init,
        OpenAction::Load => DbState::Loaded,
        OpenAction::WaitForOther => DbState::InitByOther,
        OpenAction::RemoveAndInitialize => DbState::Init,
    }
}

/// What a lookup does and the state it leaves. `lock_free` says whether
/// the connection that fills the cache is free, `init_complete` whether the
/// cache's metadata says that it was filled; a filled cache is looked at
/// only where the state asks for it.
pub open spec fn lookup_step(state: DbState, lock_free: bool, init_complete: bool) -> (
    DbState,
    LookupAction,
) {
    match state {
        DbState::Loaded => (DbState::Loaded, LookupAction::Query),
        DbState::InitByOther => if init_complete {
            (DbState::Loaded, LookupAction::ReopenAndQuery)
        } else {
            (DbState::InitByOther, LookupAction::ReportInitiating)
        },
        DbState::Init => if lock_free && init_complete {
            (DbState::Loaded, LookupAction::ReopenAndQuery)
        } else {
            (DbState::Init, LookupAction::ReportInitiating)
        },
    }
}

/// Decides what to do with the cache file that opening finds, and the
/// state in which the cache is then.
pub fn on_open(observed: CacheFile) -> (r: (OpenAction, DbState))
    ensures
        r.0 == open_action(observed),
        r.1 == state_after(open_action(observed)),
{
    match observed {
        CacheFile::Absent => (OpenAction::Initialize, DbState::Init),
        CacheFile::Complete => (OpenAction::Load, DbState::Loaded),
        CacheFile::Started { initializer_alive } => if initializer_alive {
            (OpenAction::WaitForOther, DbState::InitByOther)
        } else {
            (OpenAction::RemoveAndInitialize, DbState::Init)
        },
    }
}

/// Decides what a lookup does in the given state, and the state it leaves.
pub fn on_lookup(state: DbState, lock_free: bool, init_complete: bool) -> (r: (
    DbState,
    LookupAction,
))
    ensures
        r == lookup_step(state, lock_free, init_complete),
{
    match state {
        DbState::Loaded => (DbState::Loaded, LookupAction::Query),
        DbState::InitByOther => if init_complete {
            (DbState::Loaded, LookupAction::ReopenAndQuery)
        } else {
            (DbState::InitByOther, LookupAction::ReportInitiating)
        },
        DbState::Init => if lock_free && init_complete {
            (DbState::Loaded, LookupAction::ReopenAndQuery)
        } else {
            (DbState::Init, LookupAction::ReportInitiating)
        },
    }
}

/// The failure that a lookup reports where the action asks for it.
pub fn lookup_failure(action: LookupAction) -> (r: Option<Error>)
    ensures
        match action {
            LookupAction::ReportInitiating => r == Some(Error::CacheInitiating),
            _ => r is None,
        },
{
    match action {
        LookupAction::ReportInitiating => Some(Error::CacheInitiating),
        LookupAction::Query => None,
        LookupAction::ReopenAndQuery => None,
    }
}

/// A cache that another process fills is never filled anew by a lookup,
/// and a lookup answers from a cache exactly when it leaves it loaded.
pub proof fn lookup_never_initializes(state: DbState, lock_free: bool, init_complete: bool)
    ensures
        lookup_step(state, lock_free, init_complete).0 is Loaded <==> !(lookup_step(
            state,
            lock_free,
            init_complete,
        ).1 is ReportInitiating),
        state is InitByOther ==> (lookup_step(state, lock_free, init_complete).0 is Loaded
            <==> init_complete),
        state is Loaded ==> lookup_step(state, lock_free, init_complete).0 is Loaded,
{
}

} // verus!
