use lib::print::{file_name, DebugOutput};
use lib::symbols::LinkerSection;

#[test]
fn debug_output_indents_after_newlines() {
    assert_eq!(DebugOutput.encode(b"a\nb"), b"a\n  b".to_vec());
    assert_eq!(DebugOutput.encode(b"\n\n"), b"\n  \n  ".to_vec());
    assert_eq!(DebugOutput.encode(b""), Vec::<u8>::new());
}

#[test]
fn file_name_is_the_part_after_the_last_slash() {
    assert_eq!(file_name(b"src/mem/alloc.rs"), b"alloc.rs".to_vec());
    assert_eq!(file_name(b"main.rs"), b"main.rs".to_vec());
    assert_eq!(file_name(b"/main.rs"), b"main.rs".to_vec());
    assert_eq!(file_name(b""), Vec::<u8>::new());
    assert_eq!(file_name(b"dir/"), Vec::<u8>::new());
}

#[test]
fn section_size_and_membership() {
    let s = LinkerSection::new(0x1000, 0x3000);
    assert_eq!(s.start(), 0x1000);
    assert_eq!(s.end(), 0x3000);
    assert_eq!(s.size(), 0x2000);
    assert!(s.contains(0x1000));
    assert!(s.contains(0x2fff));
    assert!(!s.contains(0x3000));
    assert!(!s.contains(0xfff));
    let backwards = LinkerSection::new(0x3000, 0x1000);
    assert_eq!(backwards.size(), 0);
    assert!(!backwards.contains(0x2000));
}
