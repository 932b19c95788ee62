use cg_tracing::obj::{parse_corner, parse_line, parse_usize, split_pieces, split_tokens, ObjError, ObjLine};

#[test]
fn tokens_split_on_whitespace() {
    let t = split_tokens(b"  v 1.0\t-2 \r\n3e1  ");
    let t: Vec<&[u8]> = t.iter().map(|v| v.as_slice()).collect();
    assert_eq!(t, vec![&b"v"[..], b"1.0", b"-2", b"3e1"]);
    assert!(split_tokens(b"   ").is_empty());
    assert!(split_tokens(b"").is_empty());
}

#[test]
fn pieces_keep_empty_ones() {
    let p = split_pieces(b"1//3", b'/');
    assert_eq!(p, vec![b"1".to_vec(), vec![], b"3".to_vec()]);
    assert_eq!(split_pieces(b"", b'/'), vec![Vec::<u8>::new()]);
}

#[test]
fn usize_reads_like_std() {
    for s in ["0", "12", "+7", "", "+", "-1", "1a", "18446744073709551615", "18446744073709551616", "007"] {
        assert_eq!(parse_usize(s.as_bytes()), s.parse::<usize>().ok(), "{}", s);
    }
}

#[test]
fn corners_of_faces() {
    assert_eq!(parse_corner(b"1/2/3"), Some((1, 2, 3)));
    assert_eq!(parse_corner(b"4//5"), Some((4, 0, 5)));
    assert_eq!(parse_corner(b"4/5"), Some((4, 0, 5)));
    assert_eq!(parse_corner(b"4"), None);
    assert_eq!(parse_corner(b"1/2/3/4"), None);
    assert_eq!(parse_corner(b"x/2/3"), Some((2, 0, 3)));
}

#[test]
fn lines_of_a_mesh_file() {
    assert_eq!(
        parse_line(b"v 1 2.5 -3"),
        Ok(ObjLine::Position(b"1".to_vec(), b"2.5".to_vec(), b"-3".to_vec()))
    );
    assert_eq!(parse_line(b"vt 0.5 1"), Ok(ObjLine::TexCoord(b"0.5".to_vec(), b"1".to_vec())));
    assert_eq!(
        parse_line(b"vn 0 0 1"),
        Ok(ObjLine::Normal(b"0".to_vec(), b"0".to_vec(), b"1".to_vec()))
    );
    assert_eq!(parse_line(b"f 1/1/1 2/2/2 3//3"), Ok(ObjLine::Face((1, 1, 1), (2, 2, 2), (3, 0, 3))));
    assert_eq!(parse_line(b"# comment"), Ok(ObjLine::Other));
    assert_eq!(parse_line(b""), Ok(ObjLine::Other));
    assert_eq!(parse_line(b"g group"), Ok(ObjLine::Other));
}

#[test]
fn rejected_lines() {
    assert_eq!(parse_line(b"f 1/1/1 2/2/2 3/3/3 4/4/4"), Err(ObjError::ExtraField));
    assert_eq!(parse_line(b"f 1/1/1 2/2/2"), Err(ObjError::MissingField));
    assert_eq!(parse_line(b"f 1/1/1 2 3/3/3"), Err(ObjError::BadCorner));
    assert_eq!(parse_line(b"v 1 2"), Err(ObjError::MissingField));
    assert_eq!(parse_line(b"v 1 2 3 4"), Err(ObjError::ExtraField));
    assert_eq!(parse_line(b"vt 1 2 3"), Err(ObjError::ExtraField));
}
