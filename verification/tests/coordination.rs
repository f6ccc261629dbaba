use stardict::error::Error;
use stardict::init::{
    check_init_complete, counts_as_alive, lookup_failure, on_lookup, on_open, other_pid_alive,
    CacheFile, DbState, LookupAction, OpenAction, ProcessState,
};
use stardict::paths::{
    cache_file_name, dict_prefix, pick_sub_file, resource_components, sub_file_name,
};

#[test]
fn opening_follows_the_cache_file() {
    assert_eq!(on_open(CacheFile::Absent), (OpenAction::Initialize, DbState::Init));
    assert_eq!(on_open(CacheFile::Complete), (OpenAction::Load, DbState::Loaded));
    assert_eq!(
        on_open(CacheFile::Started { initializer_alive: true }),
        (OpenAction::WaitForOther, DbState::InitByOther)
    );
    assert_eq!(
        on_open(CacheFile::Started { initializer_alive: false }),
        (OpenAction::RemoveAndInitialize, DbState::Init)
    );
}

#[test]
fn lookup_in_a_loaded_cache_queries() {
    for lock_free in [false, true] {
        for complete in [false, true] {
            assert_eq!(
                on_lookup(DbState::Loaded, lock_free, complete),
                (DbState::Loaded, LookupAction::Query)
            );
        }
    }
}

#[test]
fn lookup_waits_for_another_process() {
    for lock_free in [false, true] {
        assert_eq!(
            on_lookup(DbState::InitByOther, lock_free, false),
            (DbState::InitByOther, LookupAction::ReportInitiating)
        );
        assert_eq!(
            on_lookup(DbState::InitByOther, lock_free, true),
            (DbState::Loaded, LookupAction::ReopenAndQuery)
        );
    }
}

#[test]
fn lookup_waits_for_the_own_populator() {
    assert_eq!(
        on_lookup(DbState::Init, false, false),
        (DbState::Init, LookupAction::ReportInitiating)
    );
    assert_eq!(
        on_lookup(DbState::Init, false, true),
        (DbState::Init, LookupAction::ReportInitiating)
    );
    assert_eq!(
        on_lookup(DbState::Init, true, false),
        (DbState::Init, LookupAction::ReportInitiating)
    );
    assert_eq!(
        on_lookup(DbState::Init, true, true),
        (DbState::Loaded, LookupAction::ReopenAndQuery)
    );
}

#[test]
fn second_process_waits_and_then_loads() {
    // the first process finds no cache and begins to fill it
    let (action, mut first) = on_open(CacheFile::Absent);
    assert_eq!(action, OpenAction::Initialize);
    // the second finds the cache begun by a process that runs
    let (action, mut second) = on_open(CacheFile::Started { initializer_alive: true });
    assert_eq!(action, OpenAction::WaitForOther);
    for _ in 0..3 {
        let (state, action) = on_lookup(second, true, false);
        assert_eq!(action, LookupAction::ReportInitiating);
        assert!(matches!(lookup_failure(action), Some(Error::CacheInitiating)));
        second = state;
        let (state, action) = on_lookup(first, false, false);
        assert_eq!(action, LookupAction::ReportInitiating);
        first = state;
    }
    // the first process commits
    let (state, action) = on_lookup(second, true, true);
    assert_eq!((state, action), (DbState::Loaded, LookupAction::ReopenAndQuery));
    assert!(lookup_failure(action).is_none());
    let (state, action) = on_lookup(state, true, true);
    assert_eq!((state, action), (DbState::Loaded, LookupAction::Query));
    let (state, _) = on_lookup(first, true, true);
    assert_eq!(state, DbState::Loaded);
}

#[test]
fn only_success_completes_the_cache() {
    assert!(check_init_complete("success"));
    assert!(!check_init_complete("start"));
    assert!(!check_init_complete(""));
    assert!(!check_init_complete("Success"));
}

#[test]
fn only_a_live_process_counts_as_alive() {
    assert!(counts_as_alive(ProcessState::Alive));
    assert!(!counts_as_alive(ProcessState::Dead));
    assert!(!counts_as_alive(ProcessState::Unknown));
}

#[test]
fn process_number_must_be_a_number() {
    for text in ["", "abc", "-1", "4294967296", "12 "] {
        match other_pid_alive(text, "dir/cache.sqlite") {
            Err(Error::InvalidDictCache(path)) => assert_eq!(path, "dir/cache.sqlite"),
            other => panic!("{:?}", other),
        }
    }
    // no process has a number this large
    assert!(matches!(other_pid_alive("4294967295", "c"), Ok(false)));
    assert!(other_pid_alive("1", "c").is_ok());
}

#[test]
fn resource_path_is_split_at_slashes() {
    assert_eq!(resource_components("a.png"), Some(vec!["a.png".to_string()]));
    assert_eq!(
        resource_components("/img/a.png"),
        Some(vec!["img".to_string(), "a.png".to_string()])
    );
    assert_eq!(
        resource_components("img/x/a.png"),
        Some(vec!["img".to_string(), "x".to_string(), "a.png".to_string()])
    );
    assert_eq!(
        resource_components("//a/"),
        Some(vec!["".to_string(), "a".to_string(), "".to_string()])
    );
    assert_eq!(resource_components("音/a"), Some(vec!["音".to_string(), "a".to_string()]));
}

#[test]
fn empty_resource_path_names_nothing() {
    assert_eq!(resource_components(""), None);
    assert_eq!(resource_components("/"), None);
}

#[test]
fn file_names() {
    assert_eq!(cache_file_name("stardict-x-2.4.2", "sqlite"), "stardict-x-2.4.2.sqlite");
    assert_eq!(cache_file_name("d", "idx.sled"), "d.idx.sled");
    assert_eq!(dict_prefix("/dir/name.ifo"), Some("/dir/name".to_string()));
    assert_eq!(dict_prefix(".ifo"), Some("".to_string()));
    assert_eq!(dict_prefix("ifo"), None);
    assert_eq!(sub_file_name("/dir/name", "idx", "gz", false), "/dir/name.idx");
    assert_eq!(sub_file_name("/dir/name", "dict", "dz", true), "/dir/name.dict.dz");
}

#[test]
fn plain_file_is_taken_before_the_compressed_one() {
    assert!(matches!(pick_sub_file("idx", true, true), Ok(false)));
    assert!(matches!(pick_sub_file("idx", true, false), Ok(false)));
    assert!(matches!(pick_sub_file("idx", false, true), Ok(true)));
    assert!(matches!(pick_sub_file("dict", false, false), Err(Error::NoFileFound("dict"))));
}

#[test]
fn failures_describe_themselves() {
    assert_eq!(Error::NoFileFound("idx").message(), "No idx file found");
    assert_eq!(Error::FailedOpenFile("dict", "denied".to_string()).message(), "Failed open dict file");
    assert_eq!(Error::InvalidVersion("1".to_string()).message(), "Invalid version");
    assert_eq!(Error::InvalidIfoValue("wordcount").message(), "Invalid value wordcount in ifo");
    assert_eq!(Error::InvalidIdxElement("size").message(), "Invalid idx element: size");
    assert_eq!(Error::InvalidIdxBlock("w".to_string()).message(), "Invalid idx block: w");
    assert_eq!(Error::InvalidSynIndex("w".to_string()).message(), "Invalid syn index for w");
    assert_eq!(Error::InvalidDict.message(), "Invalid dict file");
    assert_eq!(
        Error::FailedParseDictHeader("header id").message(),
        "Invalid dict field: header id"
    );
    assert_eq!(Error::NoResourceFound("a/b".to_string()).message(), "No a/b resource found");
    assert_eq!(
        Error::FailedLoadResource("a".to_string(), "denied".to_string()).message(),
        "Load resource a failed: denied"
    );
    assert_eq!(Error::NoCacheDir.message(), "Failed get user cache folder");
    assert_eq!(Error::FailedOpenCache("x".to_string()).message(), "Failed open cache: x");
    assert_eq!(Error::CacheInitiating.message(), "Initiating dict cache");
    assert_eq!(
        Error::InvalidDictCache("p".to_string()).message(),
        "Invalid dictionary cache: p, remove and build it again"
    );
    assert_eq!(Error::FailedOpenIfo("x".to_string()).message(), "Failed to open ifo file");
    assert_eq!(Error::FailedReadHeader("eof".to_string()).message(), "Error when reading: eof");
    assert_eq!(Error::InvalidDictContent.message(), "Invalid dict content");
    assert_eq!(Error::InvalidDictPath.message(), "Dict path is not invalid");
}
