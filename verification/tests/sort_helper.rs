use kitchensync::sort_helper::{bytes_le_exec, is_buffer_line, process_input};

#[test]
fn sorts_runs_of_capitalized_lines() {
    let input = "B beta\nA alpha\nC gamma\nplain\nD delta\n";
    let mut output = Vec::new();

    process_input(input.as_bytes(), &mut output).unwrap();

    assert_eq!(
        String::from_utf8(output).unwrap(),
        "A alpha\nB beta\nC gamma\nplain\nD delta\n"
    );
}

#[test]
fn flushes_buffer_at_eof() {
    let input = "A zeta\nB alpha\n";
    let mut output = Vec::new();

    process_input(input.as_bytes(), &mut output).unwrap();

    assert_eq!(String::from_utf8(output).unwrap(), "A zeta\nB alpha\n");
}

#[test]
fn status_lines_need_a_capital_and_a_space() {
    assert!(is_buffer_line(b"A x"));
    assert!(is_buffer_line(b"Z "));
    assert!(!is_buffer_line(b"a x"));
    assert!(!is_buffer_line(b"AB"));
    assert!(!is_buffer_line(b"A"));
    assert!(!is_buffer_line(b""));
}

#[test]
fn other_lines_keep_their_place() {
    let input = "x\nU b\nA a\ny\nT z\nD c\n";
    let mut output = Vec::new();
    process_input(input.as_bytes(), &mut output).unwrap();
    assert_eq!(String::from_utf8(output).unwrap(), "x\nA a\nU b\ny\nD c\nT z\n");
}

#[test]
fn crlf_and_missing_final_newline() {
    let input = "B b\r\nA a\r\nend";
    let mut output = Vec::new();
    process_input(input.as_bytes(), &mut output).unwrap();
    assert_eq!(String::from_utf8(output).unwrap(), "A a\nB b\nend\n");
}

#[test]
fn empty_input_writes_nothing() {
    let mut output = Vec::new();
    process_input(b"", &mut output).unwrap();
    assert!(output.is_empty());
}

#[test]
fn invalid_utf8_stops_after_what_was_written() {
    let input: Vec<u8> = vec![b'x', b'\n', b'B', b' ', b'b', b'\n', 0xff, b'\n', b'y', b'\n'];
    let mut output = Vec::new();
    let err = process_input(&input, &mut output).unwrap_err();
    assert_eq!(err.line, 2);
    assert_eq!(String::from_utf8(output).unwrap(), "x\n");
}

#[test]
fn byte_order_is_lexicographic() {
    assert!(bytes_le_exec(b"A alpha", b"A beta"));
    assert!(bytes_le_exec(b"A", b"A b"));
    assert!(!bytes_le_exec(b"B", b"A z"));
    assert!(bytes_le_exec(b"same", b"same"));
}

#[test]
fn sorting_twice_changes_nothing() {
    let input = "C c\nA a\nB b\nq\nZ z\nY y\n";
    let mut once = Vec::new();
    process_input(input.as_bytes(), &mut once).unwrap();
    let mut twice = Vec::new();
    process_input(&once, &mut twice).unwrap();
    assert_eq!(once, twice);
}

#[test]
fn order_within_runs_does_not_matter() {
    let a = "start\nT t\nA a\nU u\nmiddle\nD d\nA b\n";
    let b = "start\nU u\nT t\nA a\nmiddle\nA b\nD d\n";
    let mut out_a = Vec::new();
    let mut out_b = Vec::new();
    process_input(a.as_bytes(), &mut out_a).unwrap();
    process_input(b.as_bytes(), &mut out_b).unwrap();
    assert_eq!(out_a, out_b);
    assert_eq!(String::from_utf8(out_a).unwrap(), "start\nA a\nT t\nU u\nmiddle\nA b\nD d\n");
}

#[test]
fn sorting_its_own_output_changes_nothing() {
    let input = "C c\nA a\nB b\nplain\nZ z\nY y\n";
    let mut once = Vec::new();
    process_input(input.as_bytes(), &mut once).unwrap();
    let mut twice = Vec::new();
    process_input(&once, &mut twice).unwrap();
    assert_eq!(once, twice);
    assert_eq!(String::from_utf8(twice).unwrap(), "A a\nB b\nC c\nplain\nY y\nZ z\n");
}
