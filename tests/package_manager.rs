use pkgman::command::{command_from_words, join_from, parse_command, Command};
use pkgman::database::PackageDatabase;
use pkgman::order::str_lt;
use pkgman::package::Package;
use pkgman::text::{matches_lowered, pad_right, table_line, text_contains};

#[test]
fn test_package_creation() {
    let package = Package {
        name: "test_package".to_string(),
        version: "1.0.0".to_string(),
        description: "Test package".to_string(),
    };

    assert_eq!(package.name, "test_package");
    assert_eq!(package.version, "1.0.0");
    assert_eq!(package.description, "Test package");
}

#[test]
fn test_database_creation() {
    let db = PackageDatabase::new();
    assert!(db.installed_is_empty());
    assert!(!db.available_is_empty());
    assert!(db.is_available("firefox"));
    assert!(db.is_available("python"));
}

#[test]
fn test_package_installation() {
    let mut db = PackageDatabase::new();

    let result = db.install_package("firefox", None);
    assert!(result.is_ok());
    assert!(db.is_installed("firefox"));
    assert_eq!(db.get_installed("firefox").unwrap().version, "0.1.0");

    let result = db.install_package("python", Some("3.9.0"));
    assert!(result.is_ok());
    assert_eq!(db.get_installed("python").unwrap().version, "3.9.0");

    let result = db.install_package("firefox", None);
    assert!(result.is_err());
}

#[test]
fn test_package_removal() {
    let mut db = PackageDatabase::new();

    db.install_package("firefox", None).unwrap();
    assert!(db.is_installed("firefox"));

    let result = db.remove_package("firefox");
    assert!(result.is_ok());
    assert!(!db.is_installed("firefox"));

    let result = db.remove_package("nonexistent");
    assert!(result.is_err());
}

#[test]
fn test_package_search() {
    let mut db = PackageDatabase::new();
    db.install_package("python", Some("3.9.0")).unwrap();

    let results = db.search_packages("python");
    assert!(!results.is_empty());
    assert!(results.iter().any(|p| p.name.contains("python")));

    let results = db.search_packages("browser");
    assert!(!results.is_empty());
    assert!(results.iter().any(|p| p.description.contains("browser")));

    let results = db.search_packages("nonexistent_package_xyz");
    assert!(results.is_empty());
}

#[test]
fn test_custom_package_installation() {
    let mut db = PackageDatabase::new();

    let result = db.install_package("my_custom_app", Some("2.0.0"));
    assert!(result.is_ok());

    let installed_package = db.get_installed("my_custom_app").unwrap();
    assert_eq!(installed_package.name, "my_custom_app");
    assert_eq!(installed_package.version, "2.0.0");
    assert_eq!(installed_package.description, "Пользовательский пакет");
}

#[test]
fn test_default_version_assignment() {
    let mut db = PackageDatabase::new();

    db.install_package("test_app", None).unwrap();

    let installed_package = db.get_installed("test_app").unwrap();
    assert_eq!(installed_package.version, "0.1.0");
}

#[test]
fn default_catalog_has_twenty_packages_in_name_order() {
    let db = PackageDatabase::new();
    let all = db.available_packages();
    assert_eq!(all.len(), 20);
    assert_eq!(all[0].name, "apache");
    assert_eq!(all[19].name, "vscode");
    let git = db.get_available("git").unwrap();
    assert_eq!(git.version, "2.42.0");
    assert_eq!(git.description, "Distributed version control system");
}

#[test]
fn install_copies_offered_description() {
    let mut db = PackageDatabase::new();
    db.install_package("vim", Some("9.1")).unwrap();
    let vim = db.get_installed("vim").unwrap();
    assert_eq!(vim.description, "Vi IMproved text editor");
    assert_eq!(vim.version, "9.1");
}

#[test]
fn install_twice_gives_message_and_keeps_first() {
    let mut db = PackageDatabase::new();
    db.install_package("git", Some("1.0")).unwrap();
    let err = db.install_package("git", Some("2.0")).unwrap_err();
    assert_eq!(err, "Пакет 'git' уже установлен");
    assert_eq!(db.get_installed("git").unwrap().version, "1.0");
}

#[test]
fn remove_missing_gives_message() {
    let mut db = PackageDatabase::new();
    let err = db.remove_package("nonexistent").unwrap_err();
    assert_eq!(err, "Пакет 'nonexistent' не найден среди установленных");
}

#[test]
fn remove_hands_back_the_record() {
    let mut db = PackageDatabase::new();
    db.install_package("curl", Some("8.0")).unwrap();
    let removed = db.remove_package("curl").unwrap();
    assert_eq!(removed.name, "curl");
    assert_eq!(removed.version, "8.0");
    assert!(db.installed_is_empty());
    assert!(db.is_available("curl"));
}

#[test]
fn search_ignores_letter_case() {
    let db = PackageDatabase::new();
    let results = db.search_packages("FIREFOX");
    assert_eq!(results.len(), 1);
    assert_eq!(results[0].name, "firefox");
}

#[test]
fn search_lists_offered_package_once_in_name_order() {
    let mut db = PackageDatabase::new();
    db.install_package("python", Some("3.9.0")).unwrap();
    let results = db.search_packages("programming language");
    let names: Vec<&str> = results.iter().map(|p| p.name.as_str()).collect();
    assert_eq!(names, vec!["go", "python", "rust"]);
    assert_eq!(results[1].version, "3.11.6");
}

#[test]
fn search_finds_custom_installed_package() {
    let mut db = PackageDatabase::new();
    db.install_package("my_tool", None).unwrap();
    let results = db.search_packages("пользовательский");
    assert_eq!(results.len(), 1);
    assert_eq!(results[0].name, "my_tool");
}

#[test]
fn search_with_empty_query_finds_everything() {
    let mut db = PackageDatabase::new();
    db.install_package("zzz", None).unwrap();
    db.install_package("git", None).unwrap();
    let results = db.search_packages("");
    assert_eq!(results.len(), 21);
    assert_eq!(results[20].name, "zzz");
}

#[test]
fn from_records_fills_empty_offer() {
    let installed = vec![
        Package::new("b", "1", "second"),
        Package::new("a", "1", "first"),
        Package::new("b", "2", "second again"),
    ];
    let db = PackageDatabase::from_records(installed, Vec::new());
    let list = db.installed_packages();
    assert_eq!(list.len(), 2);
    assert_eq!(list[0].name, "a");
    assert_eq!(list[1].version, "2");
    assert!(db.is_available("docker"));
}

#[test]
fn from_records_keeps_given_offer() {
    let db = PackageDatabase::from_records(Vec::new(), vec![Package::new("only", "1", "x")]);
    assert!(db.is_available("only"));
    assert!(!db.is_available("firefox"));
    assert_eq!(db.available_packages().len(), 1);
}

#[test]
fn populate_replaces_offered_versions() {
    let mut db = PackageDatabase::from_records(Vec::new(), vec![Package::new("git", "0.1", "old")]);
    db.populate_available_packages();
    assert_eq!(db.get_available("git").unwrap().version, "2.42.0");
    assert_eq!(db.available_packages().len(), 20);
}

#[test]
fn listing_row_marks_installed() {
    let mut db = PackageDatabase::new();
    db.install_package("redis", None).unwrap();
    let redis = db.get_available("redis").unwrap();
    let nginx = db.get_available("nginx").unwrap();
    assert_eq!(
        db.listing_row(&redis),
        "redis                7.2.3           In-memory data structure store [УСТАНОВЛЕН]"
    );
    assert_eq!(
        db.listing_row(&nginx),
        "nginx                1.24.0          HTTP and reverse proxy server"
    );
}

#[test]
fn table_line_pads_columns() {
    assert_eq!(table_line("Название", "Версия", "Описание"), format!("{:<20} {:<15} {}", "Название", "Версия", "Описание"));
    assert_eq!(table_line("a_very_long_package_name", "1", "d"), "a_very_long_package_name 1               d");
}

#[test]
fn pad_right_keeps_long_text() {
    assert_eq!(pad_right("abc", 5), "abc  ");
    assert_eq!(pad_right("abcdef", 3), "abcdef");
    assert_eq!(pad_right("", 0), "");
}

#[test]
fn text_contains_cases() {
    assert!(text_contains("hello world", "o w"));
    assert!(text_contains("abc", ""));
    assert!(!text_contains("abc", "abcd"));
    assert!(!text_contains("abc", "ac"));
    assert!(text_contains("abc", "abc"));
}

#[test]
fn matches_lowered_checks_name_and_description() {
    assert!(matches_lowered("firefox", "mozilla firefox web browser", "browser"));
    assert!(matches_lowered("firefox", "mozilla", "fox"));
    assert!(!matches_lowered("firefox", "mozilla", "Fox"));
}

#[test]
fn str_lt_orders_like_string() {
    assert!(str_lt("apache", "chrome"));
    assert!(str_lt("go", "golang"));
    assert!(!str_lt("go", "go"));
    assert!(!str_lt("vim", "git"));
    assert_eq!(str_lt("Zeta", "alpha"), "Zeta" < "alpha");
}

#[test]
fn parse_install_with_and_without_version() {
    match parse_command("  install   vim  9.1 extra ") {
        Command::Install { name, version } => {
            assert_eq!(name, "vim");
            assert_eq!(version.as_deref(), Some("9.1"));
        }
        _ => panic!("expected install"),
    }
    match parse_command("install git") {
        Command::Install { name, version } => {
            assert_eq!(name, "git");
            assert!(version.is_none());
        }
        _ => panic!("expected install"),
    }
    assert!(matches!(parse_command("install"), Command::MissingName));
}

#[test]
fn parse_remove_and_simple_commands() {
    assert!(matches!(parse_command("remove"), Command::MissingName));
    match parse_command("remove curl") {
        Command::Remove { name } => assert_eq!(name, "curl"),
        _ => panic!("expected remove"),
    }
    assert!(matches!(parse_command("list"), Command::List));
    assert!(matches!(parse_command("available"), Command::Available));
    assert!(matches!(parse_command("help"), Command::Help));
    assert!(matches!(parse_command("exit"), Command::Exit));
    assert!(matches!(parse_command("   \t "), Command::Nothing));
    match parse_command("frobnicate now") {
        Command::Unknown { word } => assert_eq!(word, "frobnicate"),
        _ => panic!("expected unknown"),
    }
}

#[test]
fn parse_search_joins_query_words() {
    assert!(matches!(parse_command("search"), Command::MissingQuery));
    match parse_command("search  web   browser") {
        Command::Search { query } => assert_eq!(query, "web browser"),
        _ => panic!("expected search"),
    }
}

#[test]
fn join_from_joins_with_single_spaces() {
    let words = vec!["a".to_string(), "bc".to_string(), "d".to_string()];
    assert_eq!(join_from(&words, 0), "a bc d");
    assert_eq!(join_from(&words, 2), "d");
    assert_eq!(join_from(&words, 3), "");
}

#[test]
fn command_from_words_reads_first_word() {
    let words = vec!["search".to_string(), "x".to_string()];
    match command_from_words(&words) {
        Command::Search { query } => assert_eq!(query, "x"),
        _ => panic!("expected search"),
    }
    assert!(matches!(command_from_words(&Vec::new()), Command::Nothing));
}
