use icon_swap::IconError;
use icon_swap::model::FsModel;
use icon_swap::codec::base64_encode;
use icon_swap::paths::{icon_file_path, icons_dir_path};

const ROOT: &str = "/games/wow";
const VERSION: &str = "_retail_";
const ICON: &str = "spell_frost_stun.jpg";

fn payload(bytes: &[u8]) -> String {
    base64_encode(&bytes.to_vec())
}

#[test]
fn install_creates_directory_and_file() {
    let mut fs = FsModel::new();
    let msg = fs
        .apply_dr_icon(ROOT, VERSION, ICON, &payload(b"picture"))
        .unwrap();
    let target = icon_file_path(ROOT, VERSION, ICON);
    assert_eq!(target, "/games/wow/_retail_/Interface/ICONS/spell_frost_stun.jpg");
    assert_eq!(msg, format!("Icon applied successfully to {}", target));
    assert!(fs.dir_exists(&icons_dir_path(ROOT, VERSION)));
    assert!(fs.dir_exists("/games/wow/_retail_/Interface"));
    assert!(fs.dir_exists("/games/wow/_retail_"));
    assert_eq!(fs.file_data(&target).unwrap(), &b"picture".to_vec());
}

#[test]
fn install_accepts_data_url_payload() {
    let mut fs = FsModel::new();
    let data = format!("data:image/jpeg;base64,{}", payload(b"abc"));
    fs.apply_dr_icon(ROOT, VERSION, ICON, &data).unwrap();
    let target = icon_file_path(ROOT, VERSION, ICON);
    assert_eq!(fs.file_data(&target).unwrap(), &b"abc".to_vec());
}

#[test]
fn install_rejects_malformed_payload() {
    let mut fs = FsModel::new();
    let err = fs.apply_dr_icon(ROOT, VERSION, ICON, "###").unwrap_err();
    assert_eq!(err, IconError::DecodeError);
    // The asset directory was still created, as creation precedes decoding.
    assert!(fs.dir_exists(&icons_dir_path(ROOT, VERSION)));
    assert!(fs.file_data(&icon_file_path(ROOT, VERSION, ICON)).is_none());
}

#[test]
fn install_then_reset_removes_file() {
    let mut fs = FsModel::new();
    fs.apply_dr_icon(ROOT, VERSION, ICON, &payload(b"x")).unwrap();
    let target = icon_file_path(ROOT, VERSION, ICON);
    let msg = fs.reset_dr_icon(ROOT, VERSION, ICON).unwrap();
    assert_eq!(msg, format!("Icon reset successfully, removed {}", target));
    assert!(fs.file_data(&target).is_none());
    // Resetting again is no failure and reports the default already in place.
    let again = fs.reset_dr_icon(ROOT, VERSION, ICON).unwrap();
    assert_eq!(again, "Icon was already at default");
    assert!(fs.file_data(&target).is_none());
}

#[test]
fn second_install_overwrites_first() {
    let mut fs = FsModel::new();
    fs.apply_dr_icon(ROOT, VERSION, ICON, &payload(b"first")).unwrap();
    fs.apply_dr_icon(ROOT, VERSION, ICON, &payload(b"second")).unwrap();
    let target = icon_file_path(ROOT, VERSION, ICON);
    assert_eq!(fs.file_data(&target).unwrap(), &b"second".to_vec());
}

#[test]
fn reset_all_without_asset_directory_reports_nothing_to_do() {
    let mut fs = FsModel::new();
    let msg = fs.reset_all_icons(ROOT, VERSION).unwrap();
    assert_eq!(msg, "ICONS folder does not exist, nothing to reset");
}

#[test]
fn reset_all_removes_whole_tree() {
    let mut fs = FsModel::new();
    fs.apply_dr_icon(ROOT, VERSION, ICON, &payload(b"mine")).unwrap();
    let dir = icons_dir_path(ROOT, VERSION);
    // A file this operation did not install lives in the same directory.
    let stray = format!("{}/other_icon.jpg", dir);
    fs.put_file(&stray, b"foreign".to_vec());
    let msg = fs.reset_all_icons(ROOT, VERSION).unwrap();
    assert_eq!(msg, format!("All icons reset successfully, removed {}", dir));
    assert!(!fs.dir_exists(&dir));
    assert!(fs.file_data(&icon_file_path(ROOT, VERSION, ICON)).is_none());
    assert!(fs.file_data(&stray).is_none());
    // The version directory above the asset directory survives.
    assert!(fs.dir_exists("/games/wow/_retail_/Interface"));
}

#[test]
fn reset_all_blocked_by_file_fails() {
    let mut fs = FsModel::new();
    let dir = icons_dir_path(ROOT, VERSION);
    fs.put_file(&dir, b"a file where the directory should be".to_vec());
    let err = fs.reset_all_icons(ROOT, VERSION).unwrap_err();
    assert_eq!(err, IconError::IoError);
    assert_eq!(err.message(), "Filesystem operation failed");
    assert!(fs.file_data(&dir).is_some());
}

#[test]
fn install_example_path_holds_decoded_bytes() {
    let mut fs = FsModel::new();
    fs.apply_dr_icon("/games/wow", "_retail_", "spell_frost_stun.jpg", "aGVsbG8=")
        .unwrap();
    let data = fs
        .file_data("/games/wow/_retail_/Interface/ICONS/spell_frost_stun.jpg")
        .unwrap();
    assert_eq!(data, &b"hello".to_vec());
}
