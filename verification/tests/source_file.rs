use kira::SourceFile;

#[test]
fn test_source_file_lookup() {
    let code = "int main() {\n    return 0;\n}".to_string();
    let src = SourceFile::new(code);

    assert_eq!(src.lookup_pos(0), (1, 1));
    assert_eq!(src.lookup_pos(4), (1, 5));
    assert_eq!(src.lookup_pos(12), (1, 13));
    assert_eq!(src.lookup_pos(13), (2, 1));
    assert_eq!(src.lookup_pos(17), (2, 5));
    assert_eq!(src.lookup_pos(27), (3, 1));
}

#[test]
fn test_empty_file() {
    let src = SourceFile::new("".to_string());
    assert_eq!(src.lookup_pos(0), (1, 1));
}

#[test]
fn test_utf() {
    let code = "int main() {\n  float /* 好耶😆 */ a;\n}";
    let src = SourceFile::new(code.to_string());

    let pos_of = |s: &str| code.find(s).unwrap();

    // start of first line
    assert_eq!(src.lookup_pos(0), (1, 1));
    // start of second line
    assert_eq!(src.lookup_pos(pos_of("  float")), (2, 1));
    assert_eq!(src.lookup_pos(pos_of("float")), (2, 3));
    assert_eq!(src.lookup_pos(pos_of("好")), (2, 12));
    assert_eq!(src.lookup_pos(pos_of("耶")), (2, 13));
    assert_eq!(src.lookup_pos(pos_of("😆")), (2, 14));
    assert_eq!(src.lookup_pos(pos_of("a;")), (2, 20));
}

#[test]
fn src_gives_back_the_content() {
    let code = "fn f() {}\n// 好\n";
    let src = SourceFile::new(code.to_string());
    assert_eq!(src.src(), code);
}

#[test]
fn offset_past_the_end_is_the_end() {
    let src = SourceFile::new("ab\ncd".to_string());
    assert_eq!(src.lookup_pos(5), (2, 3));
    assert_eq!(src.lookup_pos(6), (2, 3));
    assert_eq!(src.lookup_pos(100), (2, 3));
}

#[test]
fn offset_past_a_final_newline_is_on_the_next_line() {
    let src = SourceFile::new("ab\n".to_string());
    assert_eq!(src.lookup_pos(2), (1, 3));
    assert_eq!(src.lookup_pos(3), (2, 1));
    assert_eq!(src.lookup_pos(9), (2, 1));
}

#[test]
fn offset_inside_a_character_is_its_first_byte() {
    // "好" takes bytes 1..4, "😆" takes bytes 4..8.
    let src = SourceFile::new("x好😆y".to_string());
    assert_eq!(src.lookup_pos(1), (1, 2));
    assert_eq!(src.lookup_pos(2), (1, 2));
    assert_eq!(src.lookup_pos(3), (1, 2));
    assert_eq!(src.lookup_pos(4), (1, 3));
    assert_eq!(src.lookup_pos(5), (1, 3));
    assert_eq!(src.lookup_pos(7), (1, 3));
    // the emoji takes two UTF-16 code units
    assert_eq!(src.lookup_pos(8), (1, 5));
    assert_eq!(src.lookup_pos(9), (1, 6));
}

#[test]
fn carriage_return_is_a_column() {
    let src = SourceFile::new("a\r\nb".to_string());
    assert_eq!(src.lookup_pos(1), (1, 2));
    assert_eq!(src.lookup_pos(2), (1, 3));
    assert_eq!(src.lookup_pos(3), (2, 1));
    assert_eq!(src.lookup_pos(4), (2, 2));
}

#[test]
fn every_line_start_is_column_one() {
    let code = "a\n\nbc\n好\n";
    let src = SourceFile::new(code.to_string());
    let mut starts = vec![0];
    for (i, b) in code.bytes().enumerate() {
        if b == b'\n' {
            starts.push(i + 1);
        }
    }
    for (k, s) in starts.iter().enumerate() {
        assert_eq!(src.lookup_pos(*s), (k + 1, 1));
    }
}

#[test]
fn positions_never_go_back() {
    let code = "ab\n好😆\r\nxyz";
    let src = SourceFile::new(code.to_string());
    let mut last = (1, 1);
    for off in 0..code.len() + 3 {
        let pos = src.lookup_pos(off);
        assert!(pos.0 >= 1 && pos.1 >= 1);
        assert!(pos.0 > last.0 || (pos.0 == last.0 && pos.1 >= last.1));
        last = pos;
    }
}

#[test]
fn consecutive_newlines_make_empty_lines() {
    let src = SourceFile::new("\n\n\n".to_string());
    assert_eq!(src.lookup_pos(0), (1, 1));
    assert_eq!(src.lookup_pos(1), (2, 1));
    assert_eq!(src.lookup_pos(2), (3, 1));
    assert_eq!(src.lookup_pos(3), (4, 1));
}

#[test]
fn stepping_over_a_newline_adds_a_line() {
    let code = "ab\n好\r\n\n😆x\n";
    let src = SourceFile::new(code.to_string());
    let bytes = code.as_bytes();
    for o in 1..=code.len() {
        let before = src.lookup_pos(o - 1);
        let after = src.lookup_pos(o);
        if bytes[o - 1] == b'\n' {
            assert_eq!(after.0, before.0 + 1);
            assert_eq!(after.1, 1);
        } else {
            assert_eq!(after.0, before.0);
        }
    }
}
