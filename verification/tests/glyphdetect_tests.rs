use glyphdetect::glyphdetect::color::{Color, ColorLedger, ColorType};
use glyphdetect::glyphdetect::fsm::{
    create_definition, DefinitionLedger, GlyphType, Transition, FSM,
};
use glyphdetect::glyphdetect::glyph::{gather_glyphs, Glyph};
use glyphdetect::glyphdetect::picture::{rotate, subpicture, Picture};
use glyphdetect::glyphdetect::point::{get_index, get_pos, BoundingBox, Point};
use glyphdetect::tokenizer::point::Point as TPoint;

fn white() -> Color {
    Color { r: 255, g: 255, b: 255 }
}

fn pic_from_rows(rows: Vec<Vec<Color>>) -> Picture {
    let height = rows.len() as i32;
    let width = rows[0].len() as i32;
    let mut pixels = Vec::new();
    for row in rows {
        assert_eq!(row.len() as i32, width);
        for c in row {
            pixels.push(c);
        }
    }
    Picture { pixels, width, height }
}

#[test]
fn classification_precedence_input_beats_loop() {
    // A color of the form (N, 0, 0) that is also registered as an input must
    // classify as an input, never as a loop marker.
    let both = Color { r: 5, g: 0, b: 0 };
    let ledger = ColorLedger {
        inputs: vec![both],
        outputs: vec![both],
        function: both,
    };
    assert_eq!(ledger.identify(&both), Some(ColorType::Input(both)));
}

#[test]
fn classification_precedence_chain() {
    let c_in = Color { r: 1, g: 2, b: 3 };
    let c_out = Color { r: 4, g: 5, b: 6 };
    let c_fn = Color { r: 7, g: 8, b: 9 };
    let c_loop = Color { r: 42, g: 0, b: 0 };
    let c_none = Color { r: 10, g: 11, b: 12 };
    let ledger = ColorLedger {
        inputs: vec![c_in],
        outputs: vec![c_out],
        function: c_fn,
    };
    assert_eq!(ledger.identify(&c_in), Some(ColorType::Input(c_in)));
    assert_eq!(ledger.identify(&c_out), Some(ColorType::Output(c_out)));
    assert_eq!(ledger.identify(&c_fn), Some(ColorType::Function));
    assert_eq!(ledger.identify(&c_loop), Some(ColorType::Loop(42)));
    assert_eq!(ledger.identify(&c_none), None);
}

#[test]
fn output_beats_function_and_loop() {
    let c = Color { r: 9, g: 0, b: 0 };
    let ledger = ColorLedger { inputs: vec![], outputs: vec![c], function: c };
    assert_eq!(ledger.identify(&c), Some(ColorType::Output(c)));
}

#[test]
fn index_position_roundtrip() {
    let p = get_pos(13, 5);
    assert_eq!(p, Point { x: 3, y: 2 });
    assert_eq!(get_index(p, 5), 13);
    assert_eq!(get_index(Point { x: 0, y: 0 }, 7), 0);
}

#[test]
fn rotate_maps_pixels() {
    // 2x1 picture [A B] rotates into a 1x2 picture with A at the bottom.
    let a = Color { r: 1, g: 1, b: 1 };
    let b = Color { r: 2, g: 2, b: 2 };
    let pic = pic_from_rows(vec![vec![a, b]]);
    let r = rotate(pic);
    assert_eq!(r.width, 1);
    assert_eq!(r.height, 2);
    assert_eq!(r.pixels[0], b);
    assert_eq!(r.pixels[1], a);
}

#[test]
fn subpicture_extracts_region() {
    let a = Color { r: 1, g: 0, b: 0 };
    let b = Color { r: 2, g: 0, b: 0 };
    let c = Color { r: 3, g: 0, b: 0 };
    let d = Color { r: 4, g: 0, b: 0 };
    let pic = pic_from_rows(vec![vec![a, b], vec![c, d]]);
    let sub = subpicture(
        &pic,
        BoundingBox { u_left: Point { x: 1, y: 0 }, l_right: Point { x: 1, y: 1 } },
    );
    assert_eq!(sub.width, 1);
    assert_eq!(sub.height, 2);
    assert_eq!(sub.pixels, vec![b, d]);
}

#[test]
fn gather_three_pixel_glyph() {
    // The 1x3 horizontal glyph of the function-marker color (255,127,248)
    // gathers as one glyph of 3 pixels with bounding box ((0,0),(2,0)).
    let f = Color { r: 255, g: 127, b: 248 };
    let pic = pic_from_rows(vec![vec![f, f, f]]);
    let ledger = ColorLedger { inputs: vec![], outputs: vec![], function: f };
    let glyphs = gather_glyphs(&pic, ledger);
    assert_eq!(glyphs.len(), 1);
    assert_eq!(glyphs[0].pixels.len(), 3);
    assert_eq!(glyphs[0].b.u_left, Point { x: 0, y: 0 });
    assert_eq!(glyphs[0].b.l_right, Point { x: 2, y: 0 });
    assert_eq!(glyphs[0].color, f);
}

#[test]
fn gather_separates_components() {
    let f = Color { r: 255, g: 127, b: 248 };
    let w = white();
    // Two groups separated by a blank column.
    let pic = pic_from_rows(vec![vec![f, w, f], vec![f, w, w]]);
    let ledger = ColorLedger { inputs: vec![], outputs: vec![], function: f };
    let glyphs = gather_glyphs(&pic, ledger);
    assert_eq!(glyphs.len(), 2);
    assert_eq!(glyphs[0].pixels.len(), 2);
    assert_eq!(glyphs[1].pixels.len(), 1);
}

#[test]
fn gather_joins_diagonal_pixels() {
    let f = Color { r: 255, g: 127, b: 248 };
    let w = white();
    let pic = pic_from_rows(vec![vec![f, w], vec![w, f]]);
    let ledger = ColorLedger { inputs: vec![], outputs: vec![], function: f };
    let glyphs = gather_glyphs(&pic, ledger);
    assert_eq!(glyphs.len(), 1);
    assert_eq!(glyphs[0].pixels.len(), 2);
}

fn build_fsm(pic: &Picture, ledger: &ColorLedger, seed: Point) -> FSM {
    let mut visited = vec![false; pic.pixels.len()];
    visited[get_index(seed, pic.width)] = true;
    FSM { states: glyphdetect::glyphdetect::fsm::follow(pic, ledger, seed, seed, &mut visited) }
}

fn glyph_of(pic: &Picture, f: Color) -> Glyph {
    let ledger = ColorLedger { inputs: vec![], outputs: vec![], function: f };
    let mut glyphs = gather_glyphs(pic, ledger);
    assert_eq!(glyphs.len(), 1);
    glyphs.remove(0)
}

#[test]
fn three_pixel_chain_machine_matches_itself() {
    // The machine from the 1x3 glyph is a chain: two consuming links, then a
    // terminal state, and it matches its own source picture.
    let f = Color { r: 255, g: 127, b: 248 };
    let pic = pic_from_rows(vec![vec![f, f, f]]);
    let ledger = ColorLedger { inputs: vec![], outputs: vec![], function: f };
    let fsm = build_fsm(&pic, &ledger, Point { x: 0, y: 0 });
    assert_eq!(fsm.states.len(), 3);
    assert_eq!(fsm.states[0].t.len(), 1);
    assert!(matches!(fsm.states[0].t[0].1, Transition::MoveRelativeStateConsume(..)));
    assert_eq!(fsm.states[1].t.len(), 1);
    assert!(matches!(fsm.states[1].t[0].1, Transition::MoveRelativeStateConsume(..)));
    assert_eq!(fsm.states[2].t.len(), 0);

    let glyph = glyph_of(&pic, f);
    let result = fsm.do_machine(glyph, pic);
    assert!(result.is_ok());
    let res = result.unwrap();
    assert_eq!(res.func.len(), 3);
}

#[test]
fn self_match_l_shape() {
    // A machine constructed from a glyph always matches the glyph's own
    // source picture.
    let f = Color { r: 10, g: 20, b: 30 };
    let w = white();
    let pic = pic_from_rows(vec![
        vec![w, w, w, w],
        vec![w, f, f, w],
        vec![w, w, f, w],
        vec![w, w, w, w],
    ]);
    let ledger = ColorLedger { inputs: vec![], outputs: vec![], function: f };
    let fsm = build_fsm(&pic, &ledger, Point { x: 1, y: 1 });
    let glyph = glyph_of(&pic, f);
    let result = fsm.do_machine(glyph, pic);
    assert!(result.is_ok());
}

#[test]
fn no_match_reports_missing() {
    // A machine demanding three pixels fails against a single-pixel glyph.
    let f = Color { r: 255, g: 127, b: 248 };
    let chain = pic_from_rows(vec![vec![f, f, f]]);
    let ledger = ColorLedger { inputs: vec![], outputs: vec![], function: f };
    let fsm = build_fsm(&chain, &ledger, Point { x: 0, y: 0 });
    let lone = pic_from_rows(vec![vec![f, white(), white()]]);
    let glyph = glyph_of(&lone, f);
    let result = fsm.do_machine(glyph, lone);
    assert!(matches!(result, Err(glyphdetect::glyphdetect::fsm::FSMError::Missing)));
}

#[test]
fn consumed_positions_are_distinct() {
    // No position appears twice among the consumed-pixel records of one
    // successful match.
    let f = Color { r: 10, g: 20, b: 30 };
    let w = white();
    let pic = pic_from_rows(vec![
        vec![f, f, w],
        vec![w, f, w],
        vec![w, f, f],
    ]);
    let ledger = ColorLedger { inputs: vec![], outputs: vec![], function: f };
    let fsm = build_fsm(&pic, &ledger, Point { x: 0, y: 0 });
    let glyph = glyph_of(&pic, f);
    let res = fsm.do_machine(glyph, pic).unwrap();
    let mut seen: Vec<Point> = Vec::new();
    for (p, _) in res.func.iter() {
        assert!(!seen.contains(p));
        seen.push(*p);
    }
    for (p, _, _) in res.inpt.iter() {
        assert!(!seen.contains(p));
        seen.push(*p);
    }
    for (p, _, _) in res.outp.iter() {
        assert!(!seen.contains(p));
        seen.push(*p);
    }
}

#[test]
fn capture_counts_run_length() {
    // A run of (5,0,0) pixels between a role pixel and a continuation yields
    // one capture entry tagged 5 whose count is the run length.
    let f = Color { r: 255, g: 127, b: 248 };
    let l = Color { r: 5, g: 0, b: 0 };
    let pic = pic_from_rows(vec![vec![f, l, f]]);
    let ledger = ColorLedger { inputs: vec![], outputs: vec![], function: f };
    let fsm = build_fsm(&pic, &ledger, Point { x: 0, y: 0 });
    let glyph = Glyph {
        color: f,
        pixels: vec![(Point { x: 0, y: 0 }, f)],
        b: BoundingBox { u_left: Point { x: 0, y: 0 }, l_right: Point { x: 0, y: 0 } },
    };
    let res = fsm.do_machine(glyph, pic).unwrap();
    assert_eq!(res.capt, vec![(5u8, 1i32)]);
}

fn reference_pic() -> Picture {
    // Corners carry the function-marker color; the glyph is an L-shape of it.
    let c = Color { r: 10, g: 20, b: 30 };
    let w = white();
    pic_from_rows(vec![
        vec![c, w, w, c],
        vec![w, c, c, w],
        vec![w, w, c, w],
        vec![c, w, w, c],
    ])
}

fn match_pic() -> Picture {
    // The same L-shape without the corner markers.
    let c = Color { r: 10, g: 20, b: 30 };
    let w = white();
    pic_from_rows(vec![
        vec![w, w, w, w],
        vec![w, c, c, w],
        vec![w, w, c, w],
        vec![w, w, w, w],
    ])
}

#[test]
fn definition_matches_own_glyph() {
    let c = Color { r: 10, g: 20, b: 30 };
    let def = create_definition(reference_pic(), vec![], vec![]);
    assert_eq!(def.instructions.len(), 4);
    let pic = match_pic();
    let glyph = glyph_of(&pic, c);
    let result = def.instructions[0].do_machine(glyph, pic);
    assert!(result.is_ok());
}

#[test]
fn rotated_glyph_matches_rotated_machine() {
    // The glyph rotated by 90, 180, and 270 degrees matches the definition's
    // corresponding orientation machine.
    let c = Color { r: 10, g: 20, b: 30 };
    let def = create_definition(reference_pic(), vec![], vec![]);
    let mut pic = match_pic();
    for orientation in 1..4 {
        pic = rotate(pic);
        let glyph = glyph_of(&pic, c);
        let result = def.instructions[orientation].do_machine(glyph, pic.duplicate());
        assert!(result.is_ok(), "orientation {orientation}");
    }
}

#[test]
fn identify_is_deterministic() {
    // Repeated identification of the same glyph in the same picture returns
    // the same identifier and the same role sets.
    let c = Color { r: 10, g: 20, b: 30 };
    let mut def = create_definition(reference_pic(), vec![], vec![]);
    def.identifier = GlyphType::Assign;
    let registry = DefinitionLedger { d: vec![def] };
    let pic = match_pic();
    let glyph = glyph_of(&pic, c);
    let first = registry.identify(&glyph, &pic).unwrap();
    let second = registry.identify(&glyph, &pic).unwrap();
    assert!(matches!(first.identifier, GlyphType::Assign));
    assert!(matches!(second.identifier, GlyphType::Assign));
    assert_eq!(first.inputs, second.inputs);
    assert_eq!(first.outputs, second.outputs);
}

#[test]
fn identify_unknown_glyph_is_none() {
    let c = Color { r: 10, g: 20, b: 30 };
    let registry = DefinitionLedger { d: vec![] };
    let pic = match_pic();
    let glyph = glyph_of(&pic, c);
    assert!(registry.identify(&glyph, &pic).is_none());
}

#[test]
fn gather_empty_picture() {
    let pic = Picture { pixels: vec![], width: 0, height: 0 };
    let f = Color { r: 1, g: 2, b: 3 };
    let ledger = ColorLedger { inputs: vec![], outputs: vec![], function: f };
    assert_eq!(gather_glyphs(&pic, ledger).len(), 0);
}

#[test]
fn color_from_builds_channels() {
    let c = Color::from(1, 2, 3);
    assert_eq!(c, Color { r: 1, g: 2, b: 3 });
}

#[test]
fn regex_has_single_state() {
    let r = glyphdetect::regex::Regex::new();
    let _ = r;
    let p = glyphdetect::picture::Picture { p: vec![[0u8; 4]; 1].into_boxed_slice(), w: 1, h: 1 };
    let _ = glyphdetect::regex::Regex::from_pic(p);
}

#[test]
fn flat_picture_index_and_point() {
    let p = glyphdetect::picture::Picture {
        p: vec![[0u8; 4]; 6].into_boxed_slice(),
        w: 3,
        h: 2,
    };
    assert_eq!(p.index(2, 1), 5);
    assert_eq!(p.point(5), (2, 1));
}

#[test]
fn tokenizer_point_arithmetic() {
    let a = TPoint::from(2, 3);
    let b = TPoint::from(-1, 4);
    assert_eq!(a.add(b), TPoint { x: 1, y: 7 });
    assert_eq!(a.sub(b), TPoint { x: 3, y: -1 });
    assert_eq!(a.mul(b), TPoint { x: -2, y: 12 });
    assert_eq!(a.scale(3), TPoint { x: 6, y: 9 });
    let mut c = TPoint::zero();
    c.add_assign(a);
    assert_eq!(c, a);
}

#[test]
fn witness_check_accepts_and_refuses() {
    let c = Color { r: 10, g: 20, b: 30 };
    let w = white();
    // A non-corner function-colored pixel is a usable seed.
    let good = pic_from_rows(vec![
        vec![c, w, c],
        vec![w, c, w],
        vec![c, w, c],
    ]);
    assert!(glyphdetect::glyphdetect::fsm::has_def_witness(&good, &vec![], &vec![]));
    // A picture whose only marks sit on its corners offers no seed.
    let bad = pic_from_rows(vec![
        vec![c, w, c],
        vec![w, w, w],
        vec![c, w, c],
    ]);
    assert!(!glyphdetect::glyphdetect::fsm::has_def_witness(&bad, &vec![], &vec![]));
}

#[test]
fn load_pic_glyph_registers_frame() {
    let mut registry = DefinitionLedger { d: vec![] };
    registry.load_pic_glyph(reference_pic());
    assert_eq!(registry.d.len(), 1);
    assert!(matches!(registry.d[0].identifier, GlyphType::Pic));
    assert_eq!(registry.d[0].instructions.len(), 4);
}

#[test]
fn load_dir_without_frame_fails() {
    // A picture with no recognizable frame leaves the registry unchanged.
    let mut registry = DefinitionLedger { d: vec![] };
    let blank = pic_from_rows(vec![vec![white(), white()], vec![white(), white()]]);
    assert!(registry.load_dir(blank).is_err());
    assert_eq!(registry.d.len(), 0);
}

#[test]
fn isolate_innards_cuts_interior() {
    let c = Color { r: 10, g: 20, b: 30 };
    let w = white();
    let pic = pic_from_rows(vec![
        vec![c, c, c],
        vec![c, w, c],
        vec![c, c, c],
    ]);
    let glyph = glyph_of(&pic, c);
    let ident = glyphdetect::glyphdetect::fsm::Identified {
        glyph,
        identifier: GlyphType::Pic,
        inputs: vec![],
        outputs: vec![],
    };
    let inner = glyphdetect::glyphdetect::fsm::isolate_pic_innards(&ident, &pic);
    assert_eq!(inner.width, 1);
    assert_eq!(inner.height, 1);
    assert_eq!(inner.pixels, vec![w]);
}

#[test]
fn flood_fill_accumulates_onto_glyph() {
    // The fill appends the discovered group after whatever the glyph already
    // holds, leaving the existing records untouched.
    let f = Color { r: 255, g: 127, b: 248 };
    let pic = pic_from_rows(vec![vec![f, f]]);
    let prior = (Point { x: 9, y: 9 }, white());
    let glyph = Glyph {
        color: f,
        pixels: vec![prior],
        b: BoundingBox { u_left: Point { x: 0, y: 0 }, l_right: Point { x: 0, y: 0 } },
    };
    let mut visited = vec![false; 2];
    let out = glyphdetect::glyphdetect::glyph::flood_fill(
        &pic,
        glyph,
        &mut visited,
        Point { x: 0, y: 0 },
    );
    assert_eq!(out.pixels.len(), 3);
    assert_eq!(out.pixels[0], prior);
    assert_eq!(out.pixels[1].0, Point { x: 0, y: 0 });
    assert!(visited[0] && visited[1]);
}

#[test]
fn pack_rgb_repacks_bytes() {
    // Three bytes per pixel, red then green then blue, row-major.
    let data = vec![1u8, 2, 3, 4, 5, 6, 7, 8, 9, 10, 11, 12];
    let p = glyphdetect::glyphdetect::picture::pack_rgb(&data, 2, 2);
    assert_eq!(p.width, 2);
    assert_eq!(p.height, 2);
    assert_eq!(p.pixels[0], Color { r: 1, g: 2, b: 3 });
    assert_eq!(p.pixels[3], Color { r: 10, g: 11, b: 12 });
}
