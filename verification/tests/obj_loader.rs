use std::num::IntErrorKind;

use my_webgpu_app::sim::obj_loader::{parse_obj_layout, ObjError};
use my_webgpu_app::sim::tokens::{chars_of, parse_int, words_of, IntError};

fn chars(s: &str) -> Vec<char> {
    s.chars().collect()
}

fn kind_of(k: &IntErrorKind) -> IntError {
    match k {
        IntErrorKind::Empty => IntError::Empty,
        IntErrorKind::InvalidDigit => IntError::InvalidDigit,
        IntErrorKind::PosOverflow => IntError::PosOverflow,
        IntErrorKind::NegOverflow => IntError::NegOverflow,
        other => panic!("unexpected kind {:?}", other),
    }
}

const SAMPLES: [&str; 28] = [
    "", "+", "-", "0", "-0", "+5", "42", "12a", "a12", "1 2", "+-1", "--1", "0x10", "007",
    "9223372036854775807", "9223372036854775808", "-9223372036854775808",
    "-9223372036854775809", "99999999999999999999a", "-99999999999999999999a",
    "4294967295", "4294967296", "-1", "\u{663}", "1\u{663}", "123456789012345", "1234567890123456",
    "+0000000000000000000000001",
];

#[test]
fn signed_integers_read_as_the_standard_library_reads_them() {
    for s in SAMPLES {
        let c = chars(s);
        let mine = parse_int(&c, c.len(), true, i64::MIN, i64::MAX);
        let theirs = s.parse::<i64>().map_err(|e| kind_of(e.kind()));
        assert_eq!(mine, theirs, "input {:?}", s);
        if let Err(e) = s.parse::<i64>() {
            assert_eq!(mine.unwrap_err().message(), e.to_string(), "input {:?}", s);
        }
    }
}

#[test]
fn unsigned_integers_read_as_the_standard_library_reads_them() {
    for s in SAMPLES {
        let c = chars(s);
        let mine = parse_int(&c, c.len(), false, 0, u32::MAX as i64).map(|v| v as u32);
        let theirs = s.parse::<u32>().map_err(|e| kind_of(e.kind()));
        assert_eq!(mine, theirs, "input {:?}", s);
    }
}

#[test]
fn words_split_at_any_white_space() {
    let line = chars(" f\t1/2\u{a0}3  4\r");
    let w = words_of(&line);
    let w: Vec<String> = w.iter().map(|x| x.iter().collect()).collect();
    assert_eq!(w, vec!["f", "1/2", "3", "4"]);
    let std_words: Vec<&str> = " f\t1/2\u{a0}3  4\r".split_whitespace().collect();
    assert_eq!(w, std_words);
    assert_eq!(chars_of("añb"), vec!['a', 'ñ', 'b']);
}

fn comps(v: &[Vec<char>]) -> Vec<String> {
    v.iter().map(|x| x.iter().collect()).collect()
}

#[test]
fn obj_quad_is_fanned_into_two_triangles() {
    let text = "# a square\nv 0 0 0\nv 1 0 0\r\nv 1 1 0\nv 0 1 0\n\nvn 0 0 1\nf 1 2 3 4\n";
    let l = parse_obj_layout(text);
    assert_eq!(l.error, None);
    assert_eq!(l.faces, vec![[0, 1, 2], [0, 2, 3]]);
    let lines: Vec<usize> = l.vertex_lines.iter().map(|v| v.0).collect();
    assert_eq!(lines, vec![2, 3, 4, 5]);
    assert_eq!(comps(&l.vertex_lines[1].1), vec!["1", "0", "0"]);
}

#[test]
fn obj_corners_may_count_back_and_carry_slashes() {
    let text = "v 0 0 0\nv 1 0 0\nv 0 1 0\nf -3 -2 -1\nf 1/1/1 2//2 3/3\nf 1 2\n";
    let l = parse_obj_layout(text);
    assert_eq!(l.error, None);
    assert_eq!(l.faces, vec![[0, 1, 2], [0, 1, 2]]);
}

#[test]
fn obj_vertex_components_are_kept_as_written() {
    let text = "v 1.5 -2e3\nv 1 2 3 4\nf 1 2 1\n";
    let l = parse_obj_layout(text);
    assert_eq!(comps(&l.vertex_lines[0].1), vec!["1.5", "-2e3"]);
    assert_eq!(comps(&l.vertex_lines[1].1), vec!["1", "2", "3"]);
}

#[test]
fn obj_errors_name_their_line() {
    let l = parse_obj_layout("v 0 0 0\nf 1 2 3\nv 1 1 1\n");
    assert_eq!(l.error, Some(ObjError::IndexOutOfRange { line: 2 }));
    assert_eq!(l.error.unwrap().message(), "line 2: face index out of range");
    assert_eq!(l.vertex_lines.len(), 1);

    let l = parse_obj_layout("v 0 0 0\nv 0 0 0\nv 0 0 0\nf 1 x 3\n");
    assert_eq!(l.error, Some(ObjError::BadIndex { line: 4, kind: IntError::InvalidDigit }));
    assert_eq!(l.error.unwrap().message(), "line 4: invalid digit found in string");

    let l = parse_obj_layout("v 0 0 0\nv 0 0 0\nv 0 0 0\nf 0 1 2\n");
    assert_eq!(l.error, Some(ObjError::IndexOutOfRange { line: 4 }));

    let l = parse_obj_layout("v 0 0 0\nv 0 0 0\nv 0 0 0\nf /1 1 2\n");
    assert_eq!(l.error, Some(ObjError::BadIndex { line: 4, kind: IntError::Empty }));
}

#[test]
fn obj_without_vertices_or_faces_is_refused() {
    let l = parse_obj_layout("");
    assert_eq!(l.error, Some(ObjError::NoVertices));
    assert_eq!(l.error.unwrap().message(), "OBJ has no vertices");
    let l = parse_obj_layout("v 0 0 0\n# nothing else\n");
    assert_eq!(l.error, Some(ObjError::NoFaces));
    assert_eq!(l.error.unwrap().message(), "OBJ has no faces");
}
