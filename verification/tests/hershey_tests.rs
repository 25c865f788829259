use vector_text::hershey::{from_line, load_file, load_mapping};

#[test]
fn record_with_pen_lift() {
    // ID 5, unused vertex count, bearings "MW", then two subpaths
    // separated by the " R" pen-lift marker.
    let line = b"    5 03MWOMOV RUMUV";
    let (id, glyph) = from_line(line).expect("record should parse");
    assert_eq!(id, 5);
    assert_eq!(glyph.left, ('M' as i8) - ('R' as i8));
    assert_eq!(glyph.right, ('W' as i8) - ('R' as i8));
    let pens: Vec<bool> = glyph.strokes.iter().map(|p| p.pen).collect();
    // the point after the lift is a move; all others in a subpath draw,
    // except each subpath's first point
    assert_eq!(pens, vec![false, true, false, true]);
    let xs: Vec<i8> = glyph.strokes.iter().map(|p| p.x).collect();
    assert_eq!(xs, vec![-3, -3, 3, 3]);
    let ys: Vec<i8> = glyph.strokes.iter().map(|p| p.y).collect();
    assert_eq!(ys, vec![-5, 4, -5, 4]);
}

#[test]
fn record_with_bad_id_is_dropped() {
    assert!(from_line(b"   x5 03MWOMOV").is_err());
    assert!(from_line(b"      03MWOMOV").is_err());
    // an ID too large for 16 bits fails to parse
    assert!(from_line(b"99999903MWOMOV").is_err());
}

#[test]
fn short_record_is_dropped() {
    assert!(from_line(b"    5 03M").is_err());
    assert!(from_line(b"").is_err());
}

#[test]
fn load_file_places_records_by_id() {
    let file = b"    7 02KWMN\n\n 4000 02KWMN\nbogus line\n";
    let table = load_file(file);
    assert_eq!(table.len(), 4000);
    let glyph = table.lookup(7).expect("glyph 7");
    assert_eq!(glyph.left, -7);
    assert_eq!(glyph.right, 5);
    assert_eq!(glyph.strokes.len(), 1);
    assert_eq!(glyph.strokes[0].x, -5);
    assert_eq!(glyph.strokes[0].y, -4);
    assert!(!glyph.strokes[0].pen);
    // ID 4000 lies outside the table and is dropped silently
    for cp in 0..4000 {
        if cp != 7 {
            assert!(table.lookup(cp).is_none());
        }
    }
}

#[test]
fn load_file_joins_continuation_lines() {
    // a physical line of exactly 72 characters continues on the next one
    let mut first = String::from("    9 99KW");
    while first.len() < 72 {
        first.push('M');
        first.push('N');
    }
    assert_eq!(first.len(), 72);
    let file = format!("{}\nAB\n", first);
    let table = load_file(file.as_bytes());
    let glyph = table.lookup(9).expect("glyph 9");
    // 31 pairs on the first line after the bearings, one on the second
    assert_eq!(glyph.strokes.len(), 32);
    let last = glyph.strokes[glyph.strokes.len() - 1];
    assert_eq!(last.x, ('A' as i8) - ('R' as i8));
    assert_eq!(last.y, ('B' as i8) - ('R' as i8));
}

#[test]
fn load_is_pure() {
    let file = b"    7 02KWMN\n   12 02KWOP\n";
    let t1 = load_file(file);
    let t2 = load_file(file);
    for cp in 0..4000 {
        match (t1.lookup(cp), t2.lookup(cp)) {
            (None, None) => {}
            (Some(a), Some(b)) => {
                assert_eq!(a.left, b.left);
                assert_eq!(a.right, b.right);
                assert_eq!(a.strokes, b.strokes);
            }
            _ => panic!("tables differ at {}", cp),
        }
    }
    assert_eq!(load_mapping(b"65 67\n"), load_mapping(b"65 67\n"));
}

#[test]
fn mapping_assigns_consecutive_codepoints() {
    // "65 67" starting from codepoint 32 assigns 65,66,67 to 32,33,34
    let mapping = load_mapping(b"65 67\n");
    assert_eq!(mapping.len(), 256);
    assert_eq!(mapping[32], 65);
    assert_eq!(mapping[33], 66);
    assert_eq!(mapping[34], 67);
    assert_eq!(mapping[35], 0);
    assert_eq!(mapping[31], 0);
}

#[test]
fn mapping_single_value_range() {
    // a zero second field means the single ID of the first field
    let mapping = load_mapping(b"65 67\n70 0\n");
    assert_eq!(mapping[35], 70);
    let seventies = mapping.iter().filter(|&&v| v == 70).count();
    assert_eq!(seventies, 1);
}

#[test]
fn mapping_stops_writing_at_the_table_end() {
    // IDs 1..=300 starting at codepoint 32: only 224 slots remain
    let mapping = load_mapping(b"1 300\n400 0\n");
    assert_eq!(mapping[32], 1);
    assert_eq!(mapping[255], 224);
    // the follow-up line's codepoint lies past the table: nothing written
    for v in mapping.iter() {
        assert_ne!(*v, 400);
    }
}

#[test]
fn record_of_72_characters_at_end_of_file() {
    let mut line = String::from("   11 99KW");
    while line.len() < 72 {
        line.push('M');
        line.push('N');
    }
    // the record asks for a continuation, but the file ends
    let table = load_file(line.as_bytes());
    let glyph = table.lookup(11).expect("glyph 11");
    assert_eq!(glyph.strokes.len(), 31);
}

#[test]
fn mapping_skips_malformed_lines() {
    let mapping = load_mapping(b"abc def\n65 67\n\nonlyone\n70 0\n");
    assert_eq!(mapping[32], 65);
    assert_eq!(mapping[35], 70);
}
