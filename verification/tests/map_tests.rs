use tinkerfield::geometry::{Brush, Quat, Size3, Vec3, KIND_BOX, KIND_CONE, OP_ADD, QUAT_ONE};
use tinkerfield::maps::{
    build_world, is_valid_number, parse_map_text, save_map_text, serialize_brush, serialize_player,
    AxisText, BrushText, LoadedBrush, MapEntry, MapItem, ParseError, ParseErrorKind, PlayerText,
    RotationText, Span,
};
use tinkerfield::world::World;

const HOUSE: &str = "# A house\n\
(player x=0 y=1.8 z=-5 ra=90)\n\
# walls\n\
(box x=0 y=1 z=0 sx=4 sy=2 sz=4 mat='brick_01')\n\
(sub (cylinder x=0 y=1 z=2 s=1 ra=90 rx=1 mat=\"glass_01\"))\n\
# trailing\n";

fn text(t: &str, s: Span) -> &str {
    &t[s.start..s.end]
}

fn opt(t: &str, s: Option<Span>) -> Option<&str> {
    s.map(|s| text(t, s))
}

fn bytes(s: &str) -> Vec<u8> {
    s.as_bytes().to_vec()
}

#[test]
fn parse_house() {
    let doc = parse_map_text(HOUSE.as_bytes()).unwrap();
    assert_eq!(text(HOUSE, doc.header), "# A house\n");
    assert_eq!(doc.items.len(), 3);

    let MapItem { comment, entry } = doc.items[0];
    assert_eq!(comment, None);
    let MapEntry::Player(p) = entry else { panic!("player expected") };
    assert_eq!(opt(HOUSE, p.x), Some("0"));
    assert_eq!(opt(HOUSE, p.y), Some("1.8"));
    assert_eq!(opt(HOUSE, p.z), Some("-5"));
    assert_eq!(opt(HOUSE, p.ra), Some("90"));

    let MapItem { comment, entry } = doc.items[1];
    assert_eq!(opt(HOUSE, comment), Some("\n# walls\n"));
    let MapEntry::Brush(b) = entry else { panic!("brush expected") };
    assert!(!b.sub);
    assert_eq!(b.kind, KIND_BOX);
    assert_eq!(opt(HOUSE, b.x), Some("0"));
    assert_eq!(opt(HOUSE, b.y), Some("1"));
    assert_eq!(opt(HOUSE, b.sx), Some("4"));
    assert_eq!(opt(HOUSE, b.sy), Some("2"));
    assert_eq!(opt(HOUSE, b.s), None);
    assert_eq!(opt(HOUSE, b.ra), None);
    assert_eq!(opt(HOUSE, b.mat), Some("brick_01"));

    let MapItem { comment, entry } = doc.items[2];
    assert_eq!(opt(HOUSE, comment), Some("\n"));
    let MapEntry::Brush(b) = entry else { panic!("brush expected") };
    assert!(b.sub);
    assert_eq!(b.kind, 1);
    assert_eq!(opt(HOUSE, b.s), Some("1"));
    assert_eq!(opt(HOUSE, b.sx), None);
    assert_eq!(opt(HOUSE, b.ra), Some("90"));
    assert_eq!(opt(HOUSE, b.rx), Some("1"));
    assert_eq!(opt(HOUSE, b.ry), None);
    assert_eq!(opt(HOUSE, b.mat), Some("glass_01"));
}

#[test]
fn brush_first_becomes_header() {
    let t = "  (cone x=1)\n# c\n(player)";
    let doc = parse_map_text(t.as_bytes()).unwrap();
    assert_eq!(text(t, doc.header), "  ");
    assert_eq!(doc.items.len(), 2);
    assert_eq!(doc.items[0].comment, None);
    match doc.items[0].entry {
        MapEntry::Brush(b) => {
            assert_eq!(b.kind, KIND_CONE);
            assert_eq!(opt(t, b.x), Some("1"));
        },
        _ => panic!("brush expected"),
    }
    // A player entry keeps no comment.
    assert_eq!(doc.items[1].comment, None);
}

#[test]
fn later_attribute_overrides_earlier() {
    let t = "(sphere x=1 x=2)";
    let doc = parse_map_text(t.as_bytes()).unwrap();
    match doc.items[0].entry {
        MapEntry::Brush(b) => assert_eq!(opt(t, b.x), Some("2")),
        _ => panic!("brush expected"),
    }
}

#[test]
fn empty_map() {
    let doc = parse_map_text(b"  # nothing here\n").unwrap();
    assert_eq!(doc.header, Span { start: 0, end: 0 });
    assert!(doc.items.is_empty());
    assert!(parse_map_text(b"").unwrap().items.is_empty());
}

fn error_of(t: &str) -> ParseError {
    parse_map_text(t.as_bytes()).err().unwrap()
}

#[test]
fn parse_errors() {
    assert_eq!(error_of("box"), ParseError { pos: 0, kind: ParseErrorKind::ExpectedToken });
    assert_eq!(error_of("(box x 1)"), ParseError { pos: 7, kind: ParseErrorKind::ExpectedToken });
    assert_eq!(error_of("(box x=)"), ParseError { pos: 7, kind: ParseErrorKind::ExpectedNumber });
    assert_eq!(error_of("(box x=1.2.3)"), ParseError { pos: 7, kind: ParseErrorKind::ExpectedNumber });
    assert_eq!(error_of("(box 1=2)"), ParseError { pos: 5, kind: ParseErrorKind::ExpectedIdent });
    assert_eq!(error_of("(pyramid x=1)"), ParseError { pos: 8, kind: ParseErrorKind::UnknownShape });
    assert_eq!(error_of("(box q=1)"), ParseError { pos: 7, kind: ParseErrorKind::UnknownAttribute });
    assert_eq!(error_of("(box mat=x)"), ParseError { pos: 9, kind: ParseErrorKind::ExpectedString });
    assert_eq!(error_of("(box mat='x)"), ParseError { pos: 9, kind: ParseErrorKind::UnterminatedString });
    assert_eq!(error_of("(player sx=1)"), ParseError { pos: 11, kind: ParseErrorKind::UnknownPlayerAttribute });
    assert_eq!(error_of("(sub (box) x"), ParseError { pos: 11, kind: ParseErrorKind::ExpectedToken });
    assert_eq!(error_of("(box x=1"), ParseError { pos: 8, kind: ParseErrorKind::ExpectedIdent });
}

#[test]
fn players_keyword_is_a_whole_word() {
    // `playerx` is not the player keyword, and not a shape either.
    assert_eq!(error_of("(playerx)"), ParseError { pos: 8, kind: ParseErrorKind::UnknownShape });
}

#[test]
fn numbers() {
    for ok in ["0", "1.8", "-5", "+2.", ".5", "1e3", "2.5E-4", "-0.0"] {
        assert!(is_valid_number(&bytes(ok)), "{}", ok);
    }
    for bad in ["", "-", ".", "1.2.3", "1e", "e3", "1-2", "--1", "1e+"] {
        assert!(!is_valid_number(&bytes(bad)), "{}", bad);
    }
}

fn box_text() -> BrushText {
    BrushText {
        sub: false,
        kind: KIND_BOX,
        x: bytes("0"),
        y: bytes("1"),
        z: bytes("0"),
        sx: bytes("4"),
        sy: bytes("2"),
        sz: bytes("4"),
        rotation: None,
        mat: bytes("brick_01"),
    }
}

#[test]
fn write_entries() {
    let p = PlayerText { x: bytes("0"), y: bytes("1.8"), z: bytes("-5"), ra: bytes("90") };
    assert_eq!(String::from_utf8(serialize_player(&p)).unwrap(), "(player x=0 y=1.8 z=-5 ra=90)");
    assert_eq!(
        String::from_utf8(serialize_brush(&box_text())).unwrap(),
        "(box x=0 y=1 z=0 sx=4 sy=2 sz=4 mat='brick_01')"
    );
    let cyl = BrushText {
        sub: true,
        kind: 1,
        rotation: Some(RotationText {
            ra: bytes("90"),
            axis: Some(AxisText { x: bytes("1"), y: bytes("0"), z: bytes("0") }),
        }),
        mat: bytes("glass_01"),
        ..box_text()
    };
    assert_eq!(
        String::from_utf8(serialize_brush(&cyl)).unwrap(),
        "(sub (cylinder x=0 y=1 z=0 sx=4 sy=2 sz=4 ra=90 rx=1 ry=0 rz=0 mat='glass_01'))"
    );
    let turned = BrushText { kind: 9, rotation: Some(RotationText { ra: bytes("45"), axis: None }), ..box_text() };
    assert_eq!(
        String::from_utf8(serialize_brush(&turned)).unwrap(),
        "(box x=0 y=1 z=0 sx=4 sy=2 sz=4 ra=45 mat='brick_01')"
    );
}

fn cube(material: u32) -> Brush {
    Brush {
        pos: Vec3 { x: 0, y: 0, z: 0 },
        kind: KIND_BOX,
        scale: Size3 { x: 1_000_000, y: 1_000_000, z: 1_000_000 },
        material,
        rot: Quat { x: 0, y: 0, z: 0, w: QUAT_ONE },
        op: OP_ADD,
    }
}

#[test]
fn load_world_from_items() {
    let items = vec![
        LoadedBrush { comment: None, brush: cube(0) },
        LoadedBrush { comment: Some(bytes("\n# second\n")), brush: cube(1) },
        LoadedBrush { comment: Some(bytes("\n")), brush: cube(2) },
    ];
    let w = build_world(bytes("# head\n"), items).ok().unwrap();
    assert_eq!(w.header, bytes("# head\n"));
    assert_eq!(w.num_slots(), 3);
    let got: Vec<(u16, u32)> = w.active_brushes().iter().map(|(id, b)| (*id, b.material)).collect();
    assert_eq!(got, vec![(0, 0), (1, 1), (2, 2)]);
    assert_eq!(w.comment(0), None);
    assert_eq!(w.comment(1), Some(&bytes("\n# second\n")));
    assert_eq!(w.comment(2), Some(&bytes("\n")));
    assert_eq!(w.grid_size, [4, 4, 4]);
}

#[test]
fn save_keeps_header_and_comments() {
    let mut w = World::new();
    w.set_header(bytes("# Castle on a hill\n"));
    let a = w.add_brush(cube(0)).unwrap();
    let b = w.add_brush(cube(1)).unwrap();
    let c = w.add_brush(cube(2)).unwrap();
    w.set_comment(b, bytes("\n# === Ground ===\n"));
    w.set_comment(c, bytes("# no newline first\n"));
    assert_eq!((a, b, c), (0, 1, 2));
    let p = PlayerText { x: bytes("0"), y: bytes("1.8"), z: bytes("0"), ra: bytes("0") };
    let texts = vec![box_text(), box_text(), box_text()];
    let out = String::from_utf8(save_map_text(&w, &p, &texts)).unwrap();
    let entry = "(box x=0 y=1 z=0 sx=4 sy=2 sz=4 mat='brick_01')";
    let expected = format!(
        "# Castle on a hill\n(player x=0 y=1.8 z=0 ra=0)\n{e}\n# === Ground ===\n{e}\n# no newline first\n{e}\n",
        e = entry
    );
    assert_eq!(out, expected);
}

#[test]
fn save_then_parse_round_trip() {
    let mut w = World::new();
    w.set_header(bytes("# House\n\n"));
    w.add_brush(cube(0)).unwrap();
    w.add_brush(cube(1)).unwrap();
    w.set_comment(1, bytes("\n\n# roof\n"));
    let p = PlayerText { x: bytes("1"), y: bytes("2"), z: bytes("3"), ra: bytes("-45.5") };
    let second = BrushText {
        sub: true,
        kind: KIND_CONE,
        rotation: Some(RotationText { ra: bytes("30"), axis: None }),
        mat: bytes("roof_01"),
        ..box_text()
    };
    let saved = save_map_text(&w, &p, &vec![box_text(), second]);
    let t = String::from_utf8(saved.clone()).unwrap();
    let doc = parse_map_text(&saved).unwrap();
    assert_eq!(text(&t, doc.header), "# House\n\n");
    assert_eq!(doc.items.len(), 3);
    match doc.items[0].entry {
        MapEntry::Player(pf) => assert_eq!(opt(&t, pf.ra), Some("-45.5")),
        _ => panic!("player expected"),
    }
    assert_eq!(opt(&t, doc.items[1].comment), Some("\n"));
    assert_eq!(opt(&t, doc.items[2].comment), Some("\n\n# roof\n"));
    match doc.items[2].entry {
        MapEntry::Brush(bf) => {
            assert!(bf.sub);
            assert_eq!(bf.kind, KIND_CONE);
            assert_eq!(opt(&t, bf.ra), Some("30"));
            assert_eq!(opt(&t, bf.mat), Some("roof_01"));
            assert_eq!(opt(&t, bf.sz), Some("4"));
        },
        _ => panic!("brush expected"),
    }
    // Saving again gives the same text.
    let mut w2 = World::new();
    w2.set_header(bytes(text(&t, doc.header)));
    w2.add_brush(cube(0)).unwrap();
    w2.add_brush(cube(1)).unwrap();
    w2.set_comment(0, bytes("\n"));
    w2.set_comment(1, bytes("\n\n# roof\n"));
    let second = BrushText {
        sub: true,
        kind: KIND_CONE,
        rotation: Some(RotationText { ra: bytes("30"), axis: None }),
        mat: bytes("roof_01"),
        ..box_text()
    };
    assert_eq!(save_map_text(&w2, &p, &vec![box_text(), second]), saved);
}
