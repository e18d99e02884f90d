use splitstream::paths::{app_path, config_path, log_dir};

#[test]
fn config_path_ends_with_the_app_dir_and_file_name() {
    assert!(config_path().ends_with("Splitstream/splitstream.toml"));
}

#[test]
fn log_dir_ends_with_the_app_dir_and_logs_name() {
    assert!(log_dir().ends_with("Splitstream/logs"));
}

#[test]
fn without_a_data_directory_the_file_is_in_the_current_one() {
    assert_eq!(app_path(&None, '/', "splitstream.toml"), "splitstream.toml");
}

#[test]
fn a_data_directory_gets_one_separator_before_each_part() {
    let home = Some("/home/user/.local/share".to_string());
    assert_eq!(
        app_path(&home, '/', "logs"),
        "/home/user/.local/share/Splitstream/logs"
    );
    let drive = Some("C:\\Data\\".to_string());
    assert_eq!(
        app_path(&drive, '\\', "splitstream.toml"),
        "C:\\Data\\Splitstream\\splitstream.toml"
    );
    assert_eq!(app_path(&Some(String::new()), '/', "logs"), "Splitstream/logs");
}

#[test]
fn a_slash_separates_where_backslashes_are_written_too() {
    let mixed = Some("C:/Data/".to_string());
    assert_eq!(app_path(&mixed, '\\', "logs"), "C:/Data/Splitstream\\logs");
    let odd = Some("/data\\".to_string());
    assert_eq!(app_path(&odd, '/', "logs"), "/data\\/Splitstream/logs");
}

#[test]
fn every_file_lies_in_the_folder_of_the_data_directory() {
    for dir in ["/home/user", "/home/user/", "C:\\Users\\me", ""] {
        let path = app_path(&Some(dir.to_string()), '/', "splitstream.toml");
        assert!(path.starts_with(dir));
        assert!(path.ends_with("Splitstream/splitstream.toml"));
    }
    let folder = config_path().strip_suffix("splitstream.toml").unwrap().to_string();
    assert_eq!(log_dir(), folder + "logs");
}
