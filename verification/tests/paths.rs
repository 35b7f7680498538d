use clipboard::paths::{get_dir_path, get_file_path};

#[test]
fn dir_path_is_under_home() {
    assert_eq!(get_dir_path("/home/someone"), "/home/someone/.clipboard");
}

#[test]
fn file_path_is_in_the_dir() {
    assert_eq!(get_file_path("/home/someone"), "/home/someone/.clipboard/map.json");
}
