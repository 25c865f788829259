use vector_text::newstroke::{
    build_single, compose_two, merge_symbol_tables, parse_charlist, parse_lib_file, split_transform,
    ComposeErr, NsDiag, NsError,
};

const LIB: &str = "DEF A 0 0 0 N N\n\
P 2 0 1 0 0 0 100 -50 N\n\
X P 0 -100 0 R 50\n\
X S 0 150 0 R 50\n\
ENDDEF\n\
DEF DOT 0 0 0 N N\n\
P 1 0 1 0 0 0 N\n\
X ABOVE 0 100 150 R 50\n\
ENDDEF\n\
DEF BASE 0 0 0 N N\n\
P 1 0 1 0 0 0 N\n\
X ABOVE 0 50 50 R 50\n\
ENDDEF\n";

fn lib() -> Vec<vector_text::newstroke::RawSymbol> {
    parse_lib_file(LIB.as_bytes()).expect("library should parse")
}

#[test]
fn library_symbols_are_scaled_and_flipped() {
    let syms = lib();
    assert_eq!(syms.len(), 3);
    let a = &syms[0];
    assert_eq!(a.name, b"A".to_vec());
    // raw (0,0) and (100,-50): divided by 50, Y negated
    assert_eq!(a.strokes, vec![vec![(0, 0), (2, 1)]]);
    // the P pin sets the left bearing, the S pin the right
    assert_eq!(a.left, -2);
    assert_eq!(a.right, 3);
}

#[test]
fn library_errors_are_fatal() {
    assert!(matches!(
        parse_lib_file(b"DEF A 0\nDEF B 0\n"),
        Err(NsError::NestedDef(2))
    ));
    assert!(matches!(parse_lib_file(b"ENDDEF\n"), Err(NsError::StrayEnd(1))));
    assert!(matches!(
        parse_lib_file(b"P 1 0 1 0 0 0\n"),
        Err(NsError::StrayPoint(1))
    ));
    assert!(matches!(
        parse_lib_file(b"DEF A 0\n"),
        Err(NsError::UnterminatedDef)
    ));
    assert!(matches!(
        parse_lib_file(b"DEF A 0\nP 2 0 1 0 0 0 10\nENDDEF\n"),
        Err(NsError::MissingCoord(2))
    ));
    assert!(matches!(
        parse_lib_file(b"DEF A 0\nP 1 0 1 0 0 x\nENDDEF\n"),
        Err(NsError::InvalidCoord(2))
    ));
}

#[test]
fn unnamed_pin_sets_bearing_by_sign() {
    // the unnamed pin `~` sets the right bearing for positive x and the
    // left bearing otherwise
    let syms = parse_lib_file(b"DEF T 0\nX ~ 0 -100 0\nX ~ 0 150 0\nENDDEF\n").unwrap();
    let t = &syms[0];
    assert_eq!(t.left, -2);
    assert_eq!(t.right, 3);
}

#[test]
fn transform_sigils_select_mirror_and_offset() {
    let (flip, name) = split_transform(b"-CASE");
    assert_eq!((flip.scale_x, flip.scale_y, flip.offset_y), (1, -1, -14));
    assert_eq!(name, b"CASE".to_vec());
    let (sup, name) = split_transform(b"^X");
    assert_eq!((sup.scale_x, sup.scale_y, sup.offset_y), (1, 1, -13));
    assert_eq!(name, b"X".to_vec());
    let (rot, name) = split_transform(b"%Y");
    assert_eq!((rot.scale_x, rot.scale_y, rot.offset_y), (-1, -1, -21));
    assert_eq!(name, b"Y".to_vec());
    // no recognized sigil: identity, name kept whole
    let (id, name) = split_transform(b"PLAIN");
    assert_eq!((id.scale_x, id.scale_y, id.offset_y), (1, 1, 0));
    assert_eq!(name, b"PLAIN".to_vec());
}

#[test]
fn second_library_overrides_first() {
    let first = parse_lib_file(b"DEF A 0\nX S 0 100 0\nENDDEF\n").unwrap();
    let second = parse_lib_file(b"DEF A 0\nX S 0 200 0\nENDDEF\n").unwrap();
    let merged = merge_symbol_tables(first, second);
    let glyph = build_single(&merged, b"A").unwrap().unwrap();
    // the later definition wins: right bearing 200/50, not 100/50
    assert_eq!(glyph.right, 4);
}

#[test]
fn single_glyph_applies_baseline_shift() {
    let syms = lib();
    let glyph = build_single(&syms, b"A").unwrap().expect("known symbol");
    assert_eq!(glyph.left, -2);
    assert_eq!(glyph.right, 3);
    // y' = y * 1 + 0 + 9
    let pts: Vec<(i8, i8, bool)> = glyph.strokes.iter().map(|p| (p.x, p.y, p.pen)).collect();
    assert_eq!(pts, vec![(0, 9, false), (2, 10, true)]);
}

#[test]
fn unknown_single_symbol_is_soft() {
    let syms = lib();
    assert!(build_single(&syms, b"NOSUCH").unwrap().is_none());
}

#[test]
fn mirrored_transform_swaps_bearings() {
    // for a symbol with left = L and right = R, the horizontal-mirror
    // sigil yields left = -R and right = -L
    let syms = lib();
    let glyph = build_single(&syms, b"!A").unwrap().expect("known symbol");
    assert_eq!(glyph.left, -3);
    assert_eq!(glyph.right, 2);
    // and the points mirror on the x axis
    let pts: Vec<(i8, i8)> = glyph.strokes.iter().map(|p| (p.x, p.y)).collect();
    assert_eq!(pts, vec![(0, 9), (-2, 10)]);
}

#[test]
fn composition_translates_accent_by_anchor_difference() {
    // base anchor (1,-1), accent anchor (2,-3), both identity: the
    // accent lands translated by (bx-ax, by-ay) = (-1, 2)
    let syms = lib();
    let composed = compose_two(&syms, b"BASE", b"DOT ABOVE").expect("composable");
    let raw_accent = build_single(&syms, b"DOT").unwrap().unwrap();
    let raw_base = build_single(&syms, b"BASE").unwrap().unwrap();
    assert_eq!(composed.strokes.len(), raw_base.strokes.len() + raw_accent.strokes.len());
    let base_len = raw_base.strokes.len();
    for (k, p) in raw_accent.strokes.iter().enumerate() {
        let q = composed.strokes[base_len + k];
        assert_eq!(q.x, p.x - 1);
        assert_eq!(q.y, p.y + 2);
        assert_eq!(q.pen, p.pen);
    }
}

#[test]
fn composition_requires_base_anchor() {
    let syms = lib();
    assert!(matches!(
        compose_two(&syms, b"A", b"DOT ABOVE"),
        Err(ComposeErr::MissingAnchor)
    ));
    assert!(matches!(
        compose_two(&syms, b"NOSUCH", b"DOT ABOVE"),
        Err(ComposeErr::UnknownBase)
    ));
    assert!(matches!(
        compose_two(&syms, b"BASE", b"NOSUCH ABOVE"),
        Err(ComposeErr::UnknownAccent)
    ));
}

#[test]
fn charlist_builds_at_codepoints() {
    let syms = lib();
    let script = b"# a comment\n\
// another comment\n\
startchar 65\n\
+ A\n\
+ BASE DOT ABOVE\n\
skipcodes 2\n\
+ A # trailing comment\n\
font whatever\n";
    let (table, diags) = parse_charlist(script, &syms).expect("script should run");
    assert!(diags.is_empty());
    assert!(table.lookup(65).is_some());
    assert!(table.lookup(66).is_some());
    assert!(table.lookup(67).is_none());
    assert!(table.lookup(68).is_none());
    assert!(table.lookup(69).is_some());
    assert!(table.lookup(70).is_none());
}

#[test]
fn charlist_soft_issues_are_reported() {
    let syms = lib();
    let script = b"startchar 100\n+ NOSUCH\n+w A\n+ A\n";
    let (table, diags) = parse_charlist(script, &syms).expect("script should run");
    // the unknown single symbol and the unsupported form each advance
    // the cursor and leave their slot absent
    assert_eq!(
        diags,
        vec![NsDiag::UnknownSymbol(2), NsDiag::UnsupportedForm(3)]
    );
    assert!(table.lookup(100).is_none());
    assert!(table.lookup(101).is_none());
    assert!(table.lookup(102).is_some());
}

#[test]
fn charlist_group_forms_only_open_advances() {
    let syms = lib();
    // "+(" advances the cursor; "+|" and "+)" do not
    let script = b"startchar 200\n+( A\n+| A\n+) A\n+ A\n";
    let (table, diags) = parse_charlist(script, &syms).expect("script should run");
    assert_eq!(diags.len(), 3);
    assert!(table.lookup(200).is_none());
    assert!(table.lookup(201).is_some());
    assert!(table.lookup(202).is_none());
}

#[test]
fn charlist_errors_are_fatal() {
    let syms = lib();
    assert!(matches!(
        parse_charlist(b"startchar 10240\n", &syms),
        Err(NsError::StartcharOutOfRange(1))
    ));
    assert!(matches!(
        parse_charlist(b"startchar\n", &syms),
        Err(NsError::MissingStartchar(1))
    ));
    assert!(matches!(
        parse_charlist(b"startchar x\n", &syms),
        Err(NsError::InvalidStartchar(1))
    ));
    assert!(matches!(
        parse_charlist(b"nonsense 3\n", &syms),
        Err(NsError::UnsupportedCommand(1))
    ));
    assert!(matches!(
        parse_charlist(b"startchar 5\n+ BASE NOSUCH ABOVE\n", &syms),
        Err(NsError::UnknownAccentSymbol(2))
    ));
    assert!(matches!(
        parse_charlist(b"skipcodes\n", &syms),
        Err(NsError::MissingSkipcodes(1))
    ));
}

#[test]
fn build_is_pure() {
    let syms = lib();
    let script = b"startchar 65\n+ A\n";
    let (t1, _) = parse_charlist(script, &syms).unwrap();
    let (t2, _) = parse_charlist(script, &syms).unwrap();
    for cp in 0..t1.len() {
        match (t1.lookup(cp), t2.lookup(cp)) {
            (None, None) => {}
            (Some(a), Some(b)) => {
                assert_eq!(a.left, b.left);
                assert_eq!(a.right, b.right);
                assert_eq!(a.strokes, b.strokes);
            }
            _ => panic!("tables differ at {}", cp),
        }
    }
}
