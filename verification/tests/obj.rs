use renderer::obj::{build_mesh, parse_obj, split_words};

fn chars(s: &str) -> Vec<char> {
    s.chars().collect()
}

fn text(v: &[char]) -> String {
    v.iter().collect()
}

#[test]
fn split_words_on_unicode_white_space() {
    let words = split_words(&chars("  v\t1.0 \u{a0}2.5\r\n"));
    let words: Vec<String> = words.iter().map(|w| text(w)).collect();
    assert_eq!(words, vec!["v", "1.0", "2.5"]);
    assert!(split_words(&chars(" \t ")).is_empty());
}

#[test]
fn parse_obj_reads_positions_coords_and_faces() {
    let input = "# a comment\nv 0.0 1.0 2.0\nv 3 4 5 9\nvt 0.25 0.75\nvn 0 0 1\nvt 1 0\n\nf 1/1 2/2/7 2/1\r\n";
    let doc = parse_obj(&chars(input)).expect("well-formed");
    let positions: Vec<(String, String, String)> =
        doc.positions.iter().map(|p| (text(&p.0), text(&p.1), text(&p.2))).collect();
    assert_eq!(
        positions,
        vec![
            ("0.0".to_string(), "1.0".to_string(), "2.0".to_string()),
            ("3".to_string(), "4".to_string(), "5".to_string()),
        ]
    );
    let coords: Vec<(String, String)> =
        doc.texture_coords.iter().map(|t| (text(&t.0), text(&t.1))).collect();
    assert_eq!(coords, vec![("0.25".to_string(), "0.75".to_string()), ("1".to_string(), "0".to_string())]);
    // Corners are taken last to first, and made zero-based.
    assert_eq!(doc.indices, vec![1, 1, 0]);
    assert_eq!(doc.texture_indices, vec![0, 1, 0]);
}

#[test]
fn parse_obj_rejects_malformed_lines() {
    assert!(parse_obj(&chars("v 1 2\n")).is_none());
    assert!(parse_obj(&chars("vt 1\n")).is_none());
    assert!(parse_obj(&chars("f 1/1 2/2\n")).is_none());
    assert!(parse_obj(&chars("f 1 2 3\n")).is_none());
    assert!(parse_obj(&chars("f 0/1 1/1 1/1\n")).is_none());
    assert!(parse_obj(&chars("f 1/x 1/1 1/1\n")).is_none());
    assert!(parse_obj(&chars("f 4294967296/1 1/1 1/1\n")).is_none());
    assert!(parse_obj(&chars("f -1/1 1/1 1/1\n")).is_none());
    assert!(parse_obj(&chars("f +/1 1/1 1/1\n")).is_none());
}

#[test]
fn parse_obj_accepts_plus_signs_and_ignores_other_lines() {
    let doc = parse_obj(&chars("o head\ns off\nf +3/+2 4294967295/1 1/3/\n")).expect("parses");
    assert!(doc.positions.is_empty());
    assert_eq!(doc.indices, vec![0, 4294967294, 2]);
    assert!(parse_obj(&chars("f 1/1 1/1 1//\n")).is_none());
    let empty = parse_obj(&chars("")).expect("empty text is a model");
    assert!(empty.indices.is_empty());
}

#[test]
fn build_mesh_expands_face_corners() {
    let positions = vec![glam::Vec3::new(0.0, 0.0, 0.0), glam::Vec3::new(1.0, 0.0, 0.0)];
    let coords = vec![10u8, 20, 30];
    let mesh = build_mesh(&positions, &coords, &[1, 0, 1], &[2, 2, 0]).expect("in range");
    assert_eq!(mesh.positions(), &[positions[1], positions[0], positions[1]]);
    assert_eq!(mesh.data(), &[30, 30, 10]);
    assert!(build_mesh(&positions, &coords, &[2, 0, 1], &[0, 0, 0]).is_none());
    assert!(build_mesh(&positions, &coords, &[0, 0, 1], &[0, 3, 0]).is_none());
}
