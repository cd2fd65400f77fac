use cargo_run_copy::paths::{path_relative_from, to_target_dir, PathComponent, PrefixKind};
use std::path::{Component, Path, PathBuf, Prefix};

fn components(path: &Path) -> Vec<PathComponent> {
    path.components()
        .map(|c| match c {
            Component::Prefix(p) => PathComponent::Prefix {
                raw: p.as_os_str().as_encoded_bytes().to_vec(),
                kind: match p.kind() {
                    Prefix::Verbatim(a) => PrefixKind::Verbatim(a.as_encoded_bytes().to_vec()),
                    Prefix::VerbatimUNC(a, b) => PrefixKind::VerbatimUnc(
                        a.as_encoded_bytes().to_vec(),
                        b.as_encoded_bytes().to_vec(),
                    ),
                    Prefix::VerbatimDisk(d) => PrefixKind::VerbatimDisk(d),
                    Prefix::DeviceNS(a) => PrefixKind::DeviceNs(a.as_encoded_bytes().to_vec()),
                    Prefix::UNC(a, b) => PrefixKind::Unc(
                        a.as_encoded_bytes().to_vec(),
                        b.as_encoded_bytes().to_vec(),
                    ),
                    Prefix::Disk(d) => PrefixKind::Disk(d),
                },
            },
            Component::RootDir => PathComponent::RootDir,
            Component::CurDir => PathComponent::CurDir,
            Component::ParentDir => PathComponent::ParentDir,
            Component::Normal(n) => PathComponent::Normal(n.as_encoded_bytes().to_vec()),
        })
        .collect()
}

#[test]
fn path_relative_from_child_path() {
    let mut expected = PathBuf::new();
    expected.push("..");
    expected.push("b");
    expected.push("c");

    assert_eq!(
        path_relative_from(&components(Path::new("a/b/c")), &components(Path::new("a/d"))).unwrap(),
        components(&expected)
    );
}

#[test]
fn path_relative_from_same_path() {
    assert_eq!(
        path_relative_from(&components(Path::new("a/b")), &components(Path::new("a/b"))).unwrap(),
        components(&PathBuf::new())
    );
}

#[test]
fn path_relative_from_absolute_paths() {
    assert_eq!(
        path_relative_from(
            &components(Path::new("/home/u/proj/target/run-copy/h/server")),
            &components(Path::new("/home/u/proj"))
        )
        .unwrap(),
        components(Path::new("target/run-copy/h/server"))
    );
    assert_eq!(
        path_relative_from(&components(Path::new("/x/y")), &components(Path::new("/a/b/c"))).unwrap(),
        components(Path::new("../../../x/y"))
    );
}

#[test]
fn path_relative_from_ignores_cur_dir() {
    assert_eq!(
        path_relative_from(&components(Path::new("./a/./b")), &components(Path::new("a/."))).unwrap(),
        components(Path::new("b"))
    );
}

#[test]
fn path_relative_from_differently_anchored() {
    assert_eq!(path_relative_from(&components(Path::new("/a")), &components(Path::new("a"))), None);
    assert_eq!(path_relative_from(&components(Path::new("a")), &components(Path::new("/a"))), None);
}

#[test]
fn path_relative_from_leads_back() {
    let path = components(Path::new("/p/q/r/s"));
    let base = components(Path::new("/p/x/y"));
    let rel = path_relative_from(&path, &base).unwrap();
    let mut joined = PathBuf::from("/p/x/y");
    for c in &rel {
        match c {
            PathComponent::ParentDir => {
                joined.pop();
            }
            PathComponent::Normal(n) => joined.push(String::from_utf8(n.clone()).unwrap()),
            _ => panic!("unexpected component"),
        }
    }
    assert_eq!(joined, PathBuf::from("/p/q/r/s"));
}

#[test]
fn target_dir_is_nearest_directory_named_target() {
    let exe = components(Path::new("/proj/target/debug/server"));
    // ancestors: /proj/target/debug/server, /proj/target/debug, /proj/target, /proj, /
    let is_dir = vec![false, true, true, true, true];
    assert_eq!(to_target_dir(&exe, &is_dir).unwrap(), components(Path::new("/proj/target")));
}

#[test]
fn target_dir_skips_files_named_target() {
    let exe = components(Path::new("/w/target/release/target"));
    let is_dir = vec![false, true, true, true, true];
    assert_eq!(to_target_dir(&exe, &is_dir).unwrap(), components(Path::new("/w/target")));
    let is_dir = vec![false, true, false, true, true];
    assert_eq!(to_target_dir(&exe, &is_dir), None);
}

#[test]
fn target_dir_not_found() {
    let exe = components(Path::new("/usr/bin/server"));
    assert_eq!(to_target_dir(&exe, &vec![false, true, true, true]), None);
    assert_eq!(to_target_dir(&Vec::new(), &vec![true]), None);
}

#[test]
fn target_dir_of_relative_path_stops_at_empty() {
    let exe = components(Path::new("target/debug/app"));
    let is_dir = vec![false, true, true, true];
    assert_eq!(to_target_dir(&exe, &is_dir).unwrap(), components(Path::new("target")));
}

fn normal(s: &str) -> PathComponent {
    PathComponent::Normal(s.as_bytes().to_vec())
}

fn disk(letter: u8) -> PathComponent {
    PathComponent::Prefix { raw: vec![letter, b':'], kind: PrefixKind::Disk(letter) }
}

#[test]
fn path_relative_from_drive_letters_match_whatever_their_case() {
    // c:\a against C:\b
    let path = vec![disk(b'c'), PathComponent::RootDir, normal("a")];
    let base = vec![disk(b'C'), PathComponent::RootDir, normal("b")];
    assert_eq!(
        path_relative_from(&path, &base).unwrap(),
        vec![PathComponent::ParentDir, normal("a")]
    );
}

#[test]
fn path_relative_from_different_drives() {
    let path = vec![disk(b'C'), PathComponent::RootDir, normal("a")];
    let base = vec![disk(b'D'), PathComponent::RootDir, normal("a")];
    assert_eq!(path_relative_from(&path, &base), None);
}

#[test]
fn path_relative_from_unc_shares_compare_by_text() {
    let unc = |server: &str| PathComponent::Prefix {
        raw: format!("\\\\{server}\\share").into_bytes(),
        kind: PrefixKind::Unc(server.as_bytes().to_vec(), b"share".to_vec()),
    };
    let path = vec![unc("srv"), PathComponent::RootDir, normal("a")];
    let base = vec![unc("srv"), PathComponent::RootDir];
    assert_eq!(path_relative_from(&path, &base).unwrap(), vec![normal("a")]);
    let other = vec![unc("other"), PathComponent::RootDir];
    assert_eq!(path_relative_from(&path, &other), None);
}

#[test]
fn path_relative_from_descendant_is_strip_prefix() {
    let path = Path::new("/home/u/proj/target/debug/app");
    let base = Path::new("/home/u/proj");
    assert_eq!(
        path_relative_from(&components(path), &components(base)).unwrap(),
        components(path.strip_prefix(base).unwrap())
    );
}
