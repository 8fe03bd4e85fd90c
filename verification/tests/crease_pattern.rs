use my_webgpu_app::sim::crease::{parse_cp_layout, CpError, CreaseType};

fn coords(v: &[Vec<char>]) -> Vec<String> {
    v.iter().map(|x| x.iter().collect()).collect()
}

#[test]
fn cp_rows_keep_kind_and_coordinates() {
    let text = "1 0 0 1 0\n 2 0.5 0 0.5 1 extra\r\n9 0 0 0 0\nshort line\n\n3 -1 -1 1 1";
    let l = parse_cp_layout(text);
    assert_eq!(l.error, None);
    let kinds: Vec<Option<CreaseType>> = l.rows.iter().map(|r| r.0).collect();
    assert_eq!(
        kinds,
        vec![Some(CreaseType::Boundary), Some(CreaseType::Mountain), None, Some(CreaseType::Valley)]
    );
    assert_eq!(coords(&l.rows[1].1), vec!["0.5", "0", "0.5", "1"]);
    assert_eq!(coords(&l.rows[3].1), vec!["-1", "-1", "1", "1"]);
}

#[test]
fn cp_type_ids_must_be_unsigned_integers() {
    let l = parse_cp_layout("1 0 0 1 0\nx 0 0 1 1\n2 0 0 1 1\n");
    assert_eq!(l.error, Some(CpError::InvalidType));
    assert_eq!(l.error.unwrap().message(), "invalid type");
    assert_eq!(l.rows.len(), 1);
    assert_eq!(parse_cp_layout("-1 0 0 1 1").error, Some(CpError::InvalidType));
    assert_eq!(parse_cp_layout("+2 0 0 1 1").error, None);
}

#[test]
fn cp_without_creases_is_refused() {
    let l = parse_cp_layout("4 0 0 1 1\n");
    assert_eq!(l.error, Some(CpError::NoLines));
    assert_eq!(l.error.unwrap().message(), "no valid crease lines found");
    assert_eq!(parse_cp_layout("").error, Some(CpError::NoLines));
}

#[test]
fn test_parse_simple() {
    let data = "1 0 0 100 0\n2 50 0 50 100\n3 25 50 75 50";
    let cp = parse_cp_layout(data);
    assert_eq!(cp.error, None);
    assert_eq!(cp.rows.len(), 3);
    assert_eq!(cp.rows[0].0, Some(CreaseType::Boundary));
    assert_eq!(cp.rows[1].0, Some(CreaseType::Mountain));
    assert_eq!(cp.rows[2].0, Some(CreaseType::Valley));
}
