use cemantix_ia::error::EngineError;
use cemantix_ia::extend::Extend;
use cemantix_ia::options::join_path;
use cemantix_ia::options::Cli;
use cemantix_ia::options::Commands;
use cemantix_ia::options::LogLevel;

#[test]
fn join_path_inserts_one_separator() {
    assert_eq!(
        join_path(&String::from("./"), &String::from("words_history")),
        "./words_history"
    );
    assert_eq!(join_path(&String::from("/a/b"), &String::from("x")), "/a/b/x");
    assert_eq!(join_path(&String::from("/a/b"), &String::from("/abs")), "/abs");
    assert_eq!(join_path(&String::from(""), &String::from("x")), "x");
}

#[test]
fn init_resolves_paths_against_the_working_directory() {
    let mut cli = Cli {
        command: Commands::Extend(Extend::new(String::from("liste.txt"))),
        verbose: false,
        words_directory: String::from("words_folder/"),
        word_history: String::from("words_history"),
        working_directory: String::from("./"),
        log: Some(String::from("run.log")),
    };
    cli.init();
    assert_eq!(cli.word_history, "./words_history");
    assert_eq!(cli.words_directory, "./words_folder/");
    assert_eq!(cli.log, Some(String::from("./run.log")));
    assert_eq!(cli.working_directory, "./");
}

#[test]
fn log_levels_have_their_names() {
    assert_eq!(LogLevel::Warn.to_string(), "WARN");
    assert_eq!(LogLevel::Error.to_string(), "ERROR");
    assert_eq!(LogLevel::Info.to_string(), "INFO");
}

#[test]
fn commands_have_their_names() {
    let c = Commands::Extend(Extend::new(String::from("liste.txt")));
    assert_eq!(c.describe(), "Extend");
}

#[test]
fn errors_have_their_names() {
    assert_eq!(EngineError::CacheAlreadyExists.describe(), "cache already exists");
    assert_eq!(EngineError::CacheMissing.describe(), "cache missing");
    assert_eq!(
        EngineError::MissingWordOfDay.describe(),
        "word of the day not found"
    );
    assert_eq!(EngineError::MalformedHistory.describe(), "malformed history line");
    assert_eq!(
        EngineError::EmptyNearbyPayload.describe(),
        "cannot retrieve nearby words"
    );
}
