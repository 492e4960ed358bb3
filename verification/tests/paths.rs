//! Paths: their parts, where they lead, and when two are the same.

use ubereditor::paths::{are_same_path, denoised_path, is_image_path, resolve_path_pub, venv_python};

#[test]
fn relative_paths_lie_in_the_directory() {
    assert_eq!(resolve_path_pub("/media", "a/b.mp4", false), "/media/a/b.mp4");
    assert_eq!(resolve_path_pub("/media/", "b.mp4", false), "/media/b.mp4");
    assert_eq!(resolve_path_pub("", "b.mp4", false), "b.mp4");
    assert_eq!(resolve_path_pub("/media", "/else/b.mp4", false), "/else/b.mp4");
    // without Windows a drive and a backslash are letters like others
    assert_eq!(resolve_path_pub("/media", "C:\\b.mp4", false), "/media/C:\\b.mp4");
}

#[test]
fn drives_and_shares_lead_elsewhere() {
    let at = |base: &str, p: &str| resolve_path_pub(base, p, true);
    assert_eq!(at("C:\\media", "a\\b.mp4"), "C:\\media\\a\\b.mp4");
    assert_eq!(at("C:\\media", "a/b.mp4"), "C:\\media\\a/b.mp4");
    assert_eq!(at("C:/media/", "b.mp4"), "C:/media/b.mp4");
    assert_eq!(at("C:", "b.mp4"), "C:b.mp4");
    assert_eq!(at("C:\\media", "D:\\b.mp4"), "D:\\b.mp4");
    assert_eq!(at("C:\\media", "D:b.mp4"), "D:b.mp4");
    assert_eq!(at("C:\\media", "\\b.mp4"), "C:\\b.mp4");
    assert_eq!(at("\\\\host\\share\\x", "/b.mp4"), "\\\\host\\share/b.mp4");
    assert_eq!(at("C:\\media", "\\\\host\\share\\b.mp4"), "\\\\host\\share\\b.mp4");
    assert_eq!(at("C:\\media", "\\\\host"), "C:\\\\host");
    assert_eq!(venv_python("C:", true), "C:venv/Scripts/python.exe");
}

#[test]
fn files_have_extensions() {
    assert!(is_image_path("/a/b.PNG", false));
    assert!(is_image_path("/a/b.png/.", false));
    assert!(!is_image_path("/a.png/b", false));
    assert!(!is_image_path("/a/.png", false));
    assert!(is_image_path("C:\\a\\b.PNG", true));
    assert!(!is_image_path("C:\\a.png\\b", true));
    assert!(is_image_path("C:b.png", true));
    assert!(!is_image_path("C:.png", true));
    assert_eq!(denoised_path("C:\\c.x\\noext", true), "C:\\c.x\\noext.denoise.wav");
    assert_eq!(denoised_path("C:x.wav", true), "C:x.denoise.wav");
    assert_eq!(denoised_path("/c/..", false), "/c/..");
}

#[test]
fn paths_are_the_same_part_by_part() {
    let same = |a: &str, b: &str| are_same_path(a, b, false);
    assert!(same("/m/a.mp4", "/m/a.mp4"));
    assert!(same("/m//a.mp4", "/m/a.mp4"));
    assert!(same("/m/./a.mp4", "/m/a.mp4"));
    assert!(same("/m/a/", "/m/a"));
    assert!(same("/m/a/.", "/m/a"));
    assert!(same("", ""));
    assert!(!same("/m/a.mp4", "m/a.mp4"));
    assert!(!same("./a.mp4", "a.mp4"));
    assert!(same("./a.mp4", ".//a.mp4"));
    assert!(!same("/m/x/../a.mp4", "/m/a.mp4"));
    assert!(!same("/m/a.mp4", "/m/A.mp4"));
    assert!(!same("/m\\a.mp4", "/m/a.mp4"));
}

#[test]
fn windows_paths_are_the_same_part_by_part() {
    let same = |a: &str, b: &str| are_same_path(a, b, true);
    assert!(same("C:\\m\\a.mp4", "c:/m//a.mp4"));
    assert!(!same("C:\\m\\a.mp4", "D:\\m\\a.mp4"));
    assert!(!same("C:m\\a.mp4", "C:\\m\\a.mp4"));
    assert!(!same("\\m\\a.mp4", "C:\\m\\a.mp4"));
    assert!(same("\\\\h\\s\\a", "//h/s/a"));
    assert!(same("\\\\h\\s", "\\\\h\\s\\"));
    assert!(!same("\\\\h\\s\\a", "\\\\h\\t\\a"));
    assert!(!same("\\\\g\\s\\a", "\\\\h\\s\\a"));
    assert!(!same("C:\\m\\a.mp4", "C:\\m\\A.mp4"));
}
