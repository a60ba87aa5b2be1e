use pcf::{apply_patch, split_lines, Span};

#[test]
fn lines_follow_lf_and_crlf() {
    let ls = split_lines(b"a\r\nb\nc");
    assert_eq!(ls, vec![b"a".to_vec(), b"b".to_vec(), b"c".to_vec()]);
    assert_eq!(split_lines(b"a\n"), vec![b"a".to_vec()]);
    assert_eq!(split_lines(b""), Vec::<Vec<u8>>::new());
    assert_eq!(split_lines(b"\n\n"), vec![Vec::new(), Vec::new()]);
    assert_eq!(split_lines(b"x\r"), vec![b"x\r".to_vec()]);
}

#[test]
fn same_length_patch_changes_only_the_span() {
    let content = b"<a>\nversion=\"1.0.0\"\n</a>";
    let sp = Span { line: 1, col: 9, len: 5 };
    let out = apply_patch(content, sp, b"1.2.0").unwrap();
    assert_eq!(out, b"<a>\r\nversion=\"1.2.0\"\r\n</a>".to_vec());
}

#[test]
fn longer_patch_shifts_the_rest_of_the_line() {
    let content = b"version=\"1.0.0\" x\r\nnext";
    let sp = Span { line: 0, col: 9, len: 5 };
    let out = apply_patch(content, sp, b"10.20.30").unwrap();
    assert_eq!(out, b"version=\"10.20.30\" x\r\nnext".to_vec());
}

#[test]
fn shorter_patch_shifts_the_rest_of_the_line() {
    let content = b"version=\"10.0.0\" x";
    let sp = Span { line: 0, col: 9, len: 6 };
    let out = apply_patch(content, sp, b"1.2").unwrap();
    assert_eq!(out, b"version=\"1.2\" x".to_vec());
}

#[test]
fn patch_outside_the_text_is_refused() {
    let content = b"one\ntwo";
    assert_eq!(apply_patch(content, Span { line: 2, col: 0, len: 1 }, b"x"), None);
    assert_eq!(apply_patch(content, Span { line: 1, col: 2, len: 2 }, b"x"), None);
    assert_eq!(apply_patch(content, Span { line: 1, col: 3, len: 0 }, b"!"), Some(b"one\r\ntwo!".to_vec()));
}

#[test]
fn crlf_file_is_byte_identical_outside_the_span() {
    let content = b"{\r\n  \"version\": \"1.0.0\",\r\n  \"x\": 2\r\n}";
    let sp = Span { line: 1, col: 14, len: 5 };
    let out = apply_patch(content, sp, b"1.2.0").unwrap();
    assert_eq!(out.len(), content.len());
    let start = 3 + 14;
    for (j, (a, b)) in out.iter().zip(content.iter()).enumerate() {
        if j < start || j >= start + 5 {
            assert_eq!(a, b);
        }
    }
    assert_eq!(&out[start..start + 5], b"1.2.0");
}
