use cargo_run_copy::exe_path_file::{
    decimal, exe_path_file_content, plan_exe_path_file_write, read_exe_path, wtf8_to_utf8_lossy,
    ExePathFileError, OsEncoding,
};
use cargo_run_copy::paths::PathComponent;

fn normal(s: &str) -> PathComponent {
    PathComponent::Normal(s.as_bytes().to_vec())
}

#[test]
fn recorded_path_reads_back() {
    let exe = "target/run-copy/hash/server";
    let content = exe_path_file_content(exe);
    assert_eq!(content, "target/run-copy/hash/server\n");
    assert_eq!(read_exe_path(&content).unwrap(), exe);
}

#[test]
fn read_trims_white_space() {
    assert_eq!(read_exe_path("  a b \r\n\t").unwrap(), "a b");
    assert_eq!(read_exe_path("\u{3000}x\u{a0}").unwrap(), "x");
}

#[test]
fn empty_exe_path_file_is_refused() {
    assert_eq!(read_exe_path(""), Err(ExePathFileError::Empty));
    assert_eq!(read_exe_path(" \n\t\r\n"), Err(ExePathFileError::Empty));
}

#[test]
fn decimal_digits() {
    assert_eq!(decimal(0), b"0".to_vec());
    assert_eq!(decimal(7), b"7".to_vec());
    assert_eq!(decimal(4096), b"4096".to_vec());
    assert_eq!(decimal(u32::MAX), b"4294967295".to_vec());
}

#[test]
fn write_plan_for_nested_file() {
    let path = vec![normal(".cargo-run-copy"), normal("current-exe")];
    let plan = plan_exe_path_file_write(&path, 1234, OsEncoding::Bytes);
    assert_eq!(plan.create_dir, Some(vec![normal(".cargo-run-copy")]));
    assert_eq!(
        plan.temp_file,
        Ok(vec![normal(".cargo-run-copy"), normal(".current-exe.1234.tmp")])
    );
}

#[test]
fn write_plan_for_file_in_current_directory() {
    let plan = plan_exe_path_file_write(&vec![normal("state")], 7, OsEncoding::Bytes);
    assert_eq!(plan.create_dir, None);
    assert_eq!(plan.temp_file, Ok(vec![normal(".state.7.tmp")]));
}

#[test]
fn write_plan_for_directory_path() {
    let path = vec![normal("state"), PathComponent::ParentDir];
    let plan = plan_exe_path_file_write(&path, 7, OsEncoding::Bytes);
    assert_eq!(plan.create_dir, Some(vec![normal("state")]));
    assert_eq!(plan.temp_file, Err(ExePathFileError::IsDirectory));
    let plan = plan_exe_path_file_write(&vec![PathComponent::RootDir], 7, OsEncoding::Bytes);
    assert_eq!(plan.create_dir, None);
    assert_eq!(plan.temp_file, Err(ExePathFileError::IsDirectory));
}

#[test]
fn temp_name_of_non_utf8_file_name_is_lossy() {
    let path = vec![PathComponent::Normal(vec![b'a', 0xff, b'b'])];
    let plan = plan_exe_path_file_write(&path, 1, OsEncoding::Bytes);
    assert_eq!(plan.temp_file, Ok(vec![normal(".a\u{fffd}b.1.tmp")]));
}

#[test]
fn temp_name_of_wtf8_file_name_replaces_each_surrogate_once() {
    // "a", an unpaired surrogate U+D800 as WTF-8, "b"
    let name = vec![b'a', 0xed, 0xa0, 0x80, b'b'];
    let plan = plan_exe_path_file_write(&vec![PathComponent::Normal(name.clone())], 1, OsEncoding::Wtf8);
    assert_eq!(plan.temp_file, Ok(vec![normal(".a\u{fffd}b.1.tmp")]));
    let plan = plan_exe_path_file_write(&vec![PathComponent::Normal(name)], 1, OsEncoding::Bytes);
    assert_eq!(plan.temp_file, Ok(vec![normal(".a\u{fffd}\u{fffd}\u{fffd}b.1.tmp")]));
}

#[test]
fn wtf8_lossy_keeps_utf8_and_replaces_surrogates() {
    assert_eq!(wtf8_to_utf8_lossy("héllo 越".as_bytes()), "héllo 越".as_bytes().to_vec());
    let high_then_low = vec![0xed, 0xa0, 0x80, 0xed, 0xb0, 0x80];
    assert_eq!(wtf8_to_utf8_lossy(&high_then_low), "\u{fffd}\u{fffd}".as_bytes().to_vec());
    assert_eq!(wtf8_to_utf8_lossy(&[0xed, 0x9f, 0xbf]), vec![0xed, 0x9f, 0xbf]);
    assert_eq!(wtf8_to_utf8_lossy(&[b'x', 0xed, 0xa0]), vec![b'x', 0xed, 0xa0]);
}
