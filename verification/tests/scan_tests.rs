use icon_swap::model::FsModel;
use icon_swap::scan::{is_version_name, scan_version_names};

fn strings(names: &[&str]) -> Vec<String> {
    names.iter().map(|n| n.to_string()).collect()
}

#[test]
fn version_name_pattern() {
    assert!(is_version_name("_retail_"));
    assert!(is_version_name("_classic_"));
    assert!(is_version_name("_x_"));
    assert!(!is_version_name("__"));
    assert!(!is_version_name("_"));
    assert!(!is_version_name(""));
    assert!(!is_version_name("notes"));
    assert!(!is_version_name("_retail"));
    assert!(!is_version_name("retail_"));
}

#[test]
fn scan_filters_and_sorts() {
    let names = strings(&["_retail_", "notes", "_classic_", "_x_", "__", "Data"]);
    let result = scan_version_names(&names);
    assert_eq!(result, strings(&["_classic_", "_retail_", "_x_"]));
}

#[test]
fn scan_is_idempotent_and_order_stable() {
    let names = strings(&["_z_", "_a_", "_m_", "cache"]);
    let first = scan_version_names(&names);
    let second = scan_version_names(&names);
    assert_eq!(first, second);
    assert_eq!(first, strings(&["_a_", "_m_", "_z_"]));
}

#[test]
fn scan_of_empty_listing_is_empty() {
    let result = scan_version_names(&Vec::new());
    assert!(result.is_empty());
}

#[test]
fn listing_example_tree() {
    let mut fs = FsModel::new();
    fs.add_dir("/games/wow");
    fs.add_dir("/games/wow/_retail_");
    fs.add_dir("/games/wow/_classic_");
    fs.add_dir("/games/wow/notes");
    fs.add_dir("/games/wow/_x_");
    fs.add_dir("/games/wow/_retail_/Interface");
    let versions = fs.get_wow_versions("/games/wow").unwrap();
    assert_eq!(versions, strings(&["_classic_", "_retail_", "_x_"]));
}

#[test]
fn listing_missing_root_is_not_found() {
    let fs = FsModel::new();
    let err = fs.get_wow_versions("/games/wow").unwrap_err();
    assert_eq!(err, icon_swap::IconError::NotFound);
    assert_eq!(err.message(), "Folder does not exist");
}

#[test]
fn listing_file_root_is_invalid_input() {
    let mut fs = FsModel::new();
    fs.put_file("/games/wow", vec![1, 2, 3]);
    let err = fs.get_wow_versions("/games/wow").unwrap_err();
    assert_eq!(err, icon_swap::IconError::InvalidInput);
    assert_eq!(err.message(), "Path is not a directory");
}

#[test]
fn listing_ignores_grandchildren_and_files() {
    let mut fs = FsModel::new();
    fs.add_dir("/root");
    fs.add_dir("/root/_a_/_b_");
    fs.put_file("/root/_c_", vec![0]);
    let versions = fs.get_wow_versions("/root").unwrap();
    assert!(versions.is_empty());
}
