use dirview::entry::{
    classify, classify_entry, color_code, format_entry, is_executable, is_hidden_name, Category,
    FileType, RawEntry, SkipReason, COLOR_BLUE_BOLD, COLOR_CYAN_BOLD, COLOR_GREEN_BOLD,
    COLOR_RESET,
};

const DIR: FileType = FileType { is_dir: true, is_file: false, is_symlink: false };
const FILE: FileType = FileType { is_dir: false, is_file: true, is_symlink: false };
const LINK: FileType = FileType { is_dir: false, is_file: false, is_symlink: true };
const SOCKET: FileType = FileType { is_dir: false, is_file: false, is_symlink: false };

fn raw(name: &str, file_type: FileType, mode: u32) -> RawEntry {
    RawEntry {
        path: format!("./{}", name).into_bytes(),
        name: Some(String::from(name)),
        file_type: Some(file_type),
        mode: Some(mode),
    }
}

#[test]
fn is_executable_looks_at_the_three_execute_bits() {
    assert!(!is_executable(0o644));
    assert!(!is_executable(0));
    assert!(is_executable(0o755));
    assert!(is_executable(0o100));
    assert!(is_executable(0o010));
    assert!(is_executable(0o001));
    assert!(is_executable(0o100644 | 0o001));
    assert!(!is_executable(0o100666));
    assert!(!is_executable(0o7666));
    assert!(is_executable(u32::MAX));
}

#[test]
fn classify_takes_the_first_type_that_matches() {
    assert_eq!(classify(DIR, 0o755), Category::Directory);
    assert_eq!(classify(FILE, 0o755), Category::ExecutableFile);
    assert_eq!(classify(FILE, 0o644), Category::RegularFile);
    assert_eq!(classify(LINK, 0o777), Category::Symlink);
    assert_eq!(classify(SOCKET, 0o777), Category::Other);
    // a type that claims more than one thing: the directory wins, then the file
    let both = FileType { is_dir: true, is_file: true, is_symlink: true };
    assert_eq!(classify(both, 0o644), Category::Directory);
    let file_and_link = FileType { is_dir: false, is_file: true, is_symlink: true };
    assert_eq!(classify(file_and_link, 0o644), Category::RegularFile);
}

#[test]
fn color_code_gives_the_escape_sequence_of_each_category() {
    assert_eq!(color_code(Category::Directory), "\x1b[34;1m");
    assert_eq!(color_code(Category::ExecutableFile), "\x1b[32;1m");
    assert_eq!(color_code(Category::Symlink), "\x1b[36;1m");
    assert_eq!(color_code(Category::RegularFile), "\x1b[0m");
    assert_eq!(color_code(Category::Other), "\x1b[0m");
    assert_eq!(COLOR_BLUE_BOLD, "\x1b[34;1m");
    assert_eq!(COLOR_GREEN_BOLD, "\x1b[32;1m");
    assert_eq!(COLOR_CYAN_BOLD, "\x1b[36;1m");
    assert_eq!(COLOR_RESET, "\x1b[0m");
}

#[test]
fn is_hidden_name_asks_for_a_leading_dot() {
    assert!(is_hidden_name(".hidden"));
    assert!(is_hidden_name("."));
    assert!(is_hidden_name(".."));
    assert!(!is_hidden_name("visible"));
    assert!(!is_hidden_name("a.b"));
    assert!(!is_hidden_name(""));
    assert!(!is_hidden_name("\u{2502}.x"));
}

#[test]
fn format_entry_of_a_plain_file() {
    let e = format_entry(&raw("apple", FILE, 0o644)).unwrap();
    assert_eq!(e.raw_output, "apple");
    assert_eq!(e.colored_output, "\x1b[0mapple\x1b[0m");
    assert!(!e.is_hidden);
}

#[test]
fn format_entry_of_a_directory() {
    let e = format_entry(&raw("Zebra", DIR, 0o755)).unwrap();
    assert_eq!(e.raw_output, "Zebra");
    assert_eq!(e.colored_output, "\x1b[34;1mZebra\x1b[0m");
    assert!(!e.is_hidden);
}

#[test]
fn format_entry_of_an_executable_and_of_a_link() {
    let e = format_entry(&raw("run.sh", FILE, 0o744)).unwrap();
    assert_eq!(e.colored_output, "\x1b[32;1mrun.sh\x1b[0m");
    let l = format_entry(&raw("link", LINK, 0o777)).unwrap();
    assert_eq!(l.colored_output, "\x1b[36;1mlink\x1b[0m");
    let s = format_entry(&raw("sock", SOCKET, 0o777)).unwrap();
    assert_eq!(s.colored_output, "\x1b[0msock\x1b[0m");
}

#[test]
fn format_entry_marks_a_dot_name_as_hidden() {
    let e = format_entry(&raw(".hidden", FILE, 0o644)).unwrap();
    assert_eq!(e.raw_output, ".hidden");
    assert!(e.is_hidden);
}

#[test]
fn format_entry_drops_what_cannot_be_read() {
    let mut no_type = raw("a", FILE, 0o644);
    no_type.file_type = None;
    assert!(format_entry(&no_type).is_none());
    let mut no_mode = raw("a", DIR, 0o644);
    no_mode.mode = None;
    assert!(format_entry(&no_mode).is_none());
    let mut no_name = raw("a", FILE, 0o644);
    no_name.name = None;
    assert!(format_entry(&no_name).is_none());
}

#[test]
fn classify_entry_names_the_first_reason() {
    let mut e = raw("a", FILE, 0o644);
    e.name = None;
    assert_eq!(classify_entry(&e).unwrap_err(), SkipReason::UndecodableName);
    e.mode = None;
    assert_eq!(classify_entry(&e).unwrap_err(), SkipReason::UnreadableMetadata);
    e.file_type = None;
    assert_eq!(classify_entry(&e).unwrap_err(), SkipReason::UnreadableType);
    let ok = classify_entry(&raw("a", FILE, 0o644)).unwrap();
    assert_eq!(ok.raw_output, "a");
}
