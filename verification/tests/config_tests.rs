use nextup::config::{default_list, Config, ConfigTable, ConfigValue, DataSourceType};
use nextup::datasource::DataSource;
use nextup::error::Error;
use std::path::PathBuf;

fn says(e: &Error, words: &str) -> bool {
    matches!(e, Error::Message(m) if m == words)
}

fn table(entries: Vec<(&str, ConfigValue)>) -> ConfigTable {
    ConfigTable { entries: entries.into_iter().map(|(k, v)| (k.to_string(), v)).collect() }
}

fn text(s: &str) -> ConfigValue {
    ConfigValue::Str(s.to_string())
}

#[test]
fn table_lookup_takes_first_match() {
    let t = table(vec![("a", text("1")), ("b", text("2")), ("a", text("3"))]);
    assert!(matches!(t.get("a"), Some(ConfigValue::Str(s)) if s == "1"));
    assert!(matches!(t.get("b"), Some(ConfigValue::Str(s)) if s == "2"));
    assert!(t.get("c").is_none());
}

#[test]
fn data_source_must_be_a_string() {
    let t = table(vec![("list", text("x"))]);
    assert!(says(&DataSourceType::from_toml(&t).unwrap_err(), "data source must be a string"));
    let t = table(vec![("data_source", ConfigValue::Other)]);
    assert!(says(&DataSourceType::from_toml(&t).unwrap_err(), "data source must be a string"));
}

#[test]
fn section_must_be_a_table() {
    let t = table(vec![("data_source", text("bincode")), ("bincode", text("oops"))]);
    assert!(says(&DataSourceType::from_toml(&t).unwrap_err(), "bincode must be a table"));
}

#[test]
fn bincode_path_is_read() {
    let section = table(vec![("path", text("/tmp/tasks"))]);
    let t = table(vec![("data_source", text("bincode")), ("bincode", ConfigValue::Table(section))]);
    match DataSourceType::from_toml(&t).unwrap() {
        DataSourceType::Bincode(p) => assert_eq!(p, PathBuf::from("/tmp/tasks")),
        other => panic!("unexpected {:?}", other),
    }
    let section = table(vec![("path", ConfigValue::Other)]);
    let t = table(vec![("data_source", text("bincode")), ("bincode", ConfigValue::Table(section))]);
    assert!(says(&DataSourceType::from_toml(&t).unwrap_err(), "path must be a string"));
}

#[test]
fn bincode_without_section_is_the_default() {
    let t = table(vec![("data_source", text("bincode"))]);
    match DataSourceType::from_toml(&t).unwrap() {
        DataSourceType::Bincode(p) => assert!(p.ends_with("nextup/default")),
        other => panic!("unexpected {:?}", other),
    }
}

#[test]
fn postgres_needs_a_connection_string() {
    let section = table(vec![("connection_string", text("postgres://me@host/db"))]);
    let t = table(vec![("data_source", text("postgres")), ("postgres", ConfigValue::Table(section))]);
    match DataSourceType::from_toml(&t).unwrap() {
        DataSourceType::Postgres(c) => assert_eq!(c, "postgres://me@host/db"),
        other => panic!("unexpected {:?}", other),
    }
    let section = table(vec![("other", text("x"))]);
    let t = table(vec![("data_source", text("postgres")), ("postgres", ConfigValue::Table(section))]);
    assert!(says(&DataSourceType::from_toml(&t).unwrap_err(), "connection_string must be provided"));
}

#[test]
fn unknown_kind_is_an_error() {
    let t = table(vec![("data_source", text("mysql"))]);
    assert!(says(&DataSourceType::from_toml(&t).unwrap_err(), "unknown data source type: mysql"));
}

#[test]
fn default_paths() {
    match DataSourceType::default_in(Some(PathBuf::from("/home/u/.config"))) {
        DataSourceType::Bincode(p) => assert_eq!(p, PathBuf::from("/home/u/.config/nextup/default")),
        other => panic!("unexpected {:?}", other),
    }
    match DataSourceType::default_in(None) {
        DataSourceType::Bincode(p) => assert_eq!(p, PathBuf::from("./nextup/default")),
        other => panic!("unexpected {:?}", other),
    }
    assert_eq!(default_list(), "list");
    assert_eq!(Config::default().list, "list");
}

#[test]
fn config_reads_list_and_store() {
    let section = table(vec![("path", text("/data"))]);
    let t = table(vec![
        ("data_source", text("bincode")),
        ("list", text("work")),
        ("bincode", ConfigValue::Table(section)),
    ]);
    let cfg = Config::from_table(&t).unwrap();
    assert_eq!(cfg.list, "work");
    match cfg.data_source() {
        DataSource::Bincode(b) => assert_eq!(b.path, PathBuf::from("/data/work")),
        other => panic!("unexpected {:?}", other),
    }
    let t = table(vec![("data_source", text("bincode"))]);
    assert_eq!(Config::from_table(&t).unwrap().list, "list");
    let t = table(vec![("data_source", text("bincode")), ("list", ConfigValue::Other)]);
    assert!(says(&Config::from_table(&t).unwrap_err(), "list must be a string"));
}

#[test]
fn postgres_store_names_the_list() {
    let ds = DataSourceType::Postgres("postgres://h/db".to_string());
    match ds.data_source("home") {
        DataSource::Postgres(p) => {
            assert_eq!(p.connection_string, "postgres://h/db");
            assert_eq!(p.list, "home");
        }
        other => panic!("unexpected {:?}", other),
    }
}

#[test]
fn candidate_paths_in_order() {
    let v = Config::candidate_paths_in(Some(PathBuf::from("/home/u/.config")));
    assert_eq!(
        v,
        vec![
            PathBuf::from("./.nextup.toml"),
            PathBuf::from("./.nextup.conf"),
            PathBuf::from("/home/u/.config/nextup/config.toml"),
            PathBuf::from("/home/u/.config/nextup/config.conf"),
            PathBuf::from("/etc/nextup.toml"),
        ]
    );
    assert_eq!(Config::candidate_paths().len(), 5);
}

#[test]
fn toml_text_is_parsed_and_read() {
    let c = Config::from_toml_text(
        "list = \"work\"\ndata_source = \"postgres\"\n\n[postgres]\nconnection_string = \"host=db\"\n",
    )
    .unwrap();
    assert_eq!(c.list, "work");
    match c.data_source {
        DataSourceType::Postgres(s) => assert_eq!(s, "host=db"),
        other => panic!("unexpected {:?}", other),
    }
}

#[test]
fn toml_text_bincode_path_and_default_list() {
    let c = Config::from_toml_text("data_source = \"bincode\"\n[bincode]\npath = \"/var/tasks\"\n").unwrap();
    assert_eq!(c.list, "list");
    match c.data_source {
        DataSourceType::Bincode(p) => assert_eq!(p, PathBuf::from("/var/tasks")),
        other => panic!("unexpected {:?}", other),
    }
}

#[test]
fn toml_text_errors() {
    // not TOML at all: the parser's message
    match Config::from_toml_text("data_source = ") {
        Err(Error::Message(m)) => assert!(!m.is_empty()),
        other => panic!("unexpected {:?}", other),
    }
    // a number where a string belongs
    let e = Config::from_toml_text("data_source = 3\n").unwrap_err();
    assert!(says(&e, "data source must be a string"));
    let e = Config::from_toml_text("list = 3\ndata_source = \"bincode\"\n").unwrap_err();
    assert!(says(&e, "list must be a string"));
    let e = Config::from_toml_text("data_source = \"ftp\"\n").unwrap_err();
    assert!(says(&e, "unknown data source type: ftp"));
    let e = Config::from_toml_text("data_source = \"postgres\"\n[postgres]\nuser = \"me\"\n").unwrap_err();
    assert!(says(&e, "connection_string must be provided"));
}

#[test]
fn readme_example_configuration() {
    let text = "data_source = \"postgres\"\nlist = \"default\"\n\n[bincode]\npath = \"./\"\n\n[postgres]\nconnection_string = \"postgres://benforsberg@localhost:5432/benforsberg\"\n";
    let c = Config::from_toml_text(text).unwrap();
    assert_eq!(c.list, "default");
    match c.data_source() {
        DataSource::Postgres(p) => {
            assert_eq!(p.connection_string, "postgres://benforsberg@localhost:5432/benforsberg");
            assert_eq!(p.list, "default");
        }
        other => panic!("unexpected {:?}", other),
    }
}
