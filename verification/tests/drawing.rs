use zdt::actions::{action_of, Action, Order, Side};
use zdt::drawing::{
    align_word, backspace_typed, vertical_word, TextAlign, VerticalAlign, insert_typed, key_edit, newline_typed, of, parse, Band, Edit, Element, Key, Layer, Rgba8, Scheme,
    Tool, Typed,
};

fn elements(kinds: &[Layer]) -> Vec<Element> {
    kinds
        .iter()
        .map(|kind| Element {
            kind: *kind,
            is_deleted: false,
        })
        .collect()
}

fn alpha(held: Rgba8) -> f32 {
    f32::from(held.a) / 255.0
}

#[test]
fn a_six_digit_hex_reads() {
    let held = parse("#1e1e1e").expect("a colour");
    assert!((f32::from(held.r) / 255.0 - 30.0 / 255.0).abs() < 1e-6);
    assert!((alpha(held) - 1.0).abs() < 1e-6);
}

#[test]
fn the_short_form_doubles_each_digit() {
    assert_eq!(parse("#f00"), parse("#ff0000"));
    assert_eq!(parse("#f008"), parse("#ff000088"));
}

#[test]
fn an_eight_digit_hex_carries_its_own_alpha() {
    let held = parse("#00000080").expect("a colour");
    assert!((alpha(held) - 128.0 / 255.0).abs() < 1e-6);
}

#[test]
fn transparent_reads_as_nothing() {
    assert_eq!(parse("transparent").expect("a colour").a, 0);
    assert_eq!(parse("  TRANSPARENT ").expect("a colour").a, 0);
    assert_eq!(parse("#ffffff").expect("a colour").a, 255);
}

#[test]
fn what_is_not_a_colour_is_not_read() {
    assert!(parse("#12345").is_none());
    assert!(parse("nonsense").is_none());
    assert!(parse("rgb(1 2 3)").is_none());
    assert!(parse("#12g").is_none());
}

#[test]
fn a_word_reads() {
    assert_eq!(parse("black"), parse("#000000"));
    assert_eq!(parse("WHITE"), parse("#ffffff"));
    assert_eq!(
        parse("Gray"),
        Some(Rgba8 {
            r: 128,
            g: 128,
            b: 128,
            a: 255
        })
    );
}

#[test]
fn a_drawing_of_shapes_is_one_band() {
    let held = elements(&[Layer::Shape, Layer::Shape, Layer::Shape]);
    assert_eq!(of(&held), [Band::Shapes(0..3)]);
}

#[test]
fn words_cut_the_run_in_two() {
    let held = elements(&[Layer::Shape, Layer::Text, Layer::Shape]);
    assert_eq!(
        of(&held),
        [Band::Shapes(0..1), Band::Text(1), Band::Shapes(2..3)]
    );
}

#[test]
fn a_picture_is_its_own_layer() {
    let held = elements(&[Layer::Image, Layer::Shape]);
    assert_eq!(of(&held), [Band::Image(0), Band::Shapes(1..2)]);
}

#[test]
fn a_deleted_word_does_not_cut_the_run() {
    let gone = Element {
        kind: Layer::Text,
        is_deleted: true,
    };
    let mut held = elements(&[Layer::Shape, Layer::Shape]);
    held.insert(1, gone);
    assert_eq!(of(&held), [Band::Shapes(0..3)]);
}

#[test]
fn a_drawing_of_nothing_has_no_bands() {
    assert!(of(&[]).is_empty());
}

#[test]
fn a_deleted_element_is_never_painted() {
    let gone = Element {
        kind: Layer::Shape,
        is_deleted: true,
    };
    assert!(of(&[gone]).is_empty());
}

#[test]
fn every_band_knows_where_it_begins() {
    let held = elements(&[Layer::Shape, Layer::Text]);
    let bands = of(&held);
    assert_eq!(bands[0].at(), 0);
    assert_eq!(bands[1].at(), 1);
    assert_ne!(bands[0].kind(), bands[1].kind());
}

#[test]
fn a_deleted_shape_at_the_end_does_not_stretch_the_run() {
    let mut held = elements(&[Layer::Shape, Layer::Shape]);
    held.push(Element {
        kind: Layer::Shape,
        is_deleted: true,
    });
    assert_eq!(of(&held), [Band::Shapes(0..2)]);
}

#[test]
fn the_tools_say_how_they_draw() {
    assert!(Tool::Rectangle.drags_a_box());
    assert!(!Tool::Arrow.drags_a_box());
    assert!(Tool::Arrow.walks_points());
    assert!(Tool::Text.kind().is_none());
    assert!(Tool::Select.kind().is_none());
    assert!(Tool::Freedraw.kind().is_some());
}

#[test]
fn the_scheme_the_host_names_wins_over_the_desktops() {
    assert!(Scheme::Dark.is_dark(false));
    assert!(!Scheme::Light.is_dark(true));
    assert!(Scheme::System.is_dark(true));
    assert!(!Scheme::System.is_dark(false));
}

#[test]
fn each_tool_names_its_cursor() {
    assert_eq!(Tool::Freedraw.word(), "freedraw");
    assert_eq!(Tool::Select.word(), "select");
    assert_eq!(Tool::Eraser.word(), "eraser");
}

#[test]
fn typing_puts_words_into_the_element_it_opened() {
    let (typed, edit) = key_edit(true, &Key::Character("h".to_string()), false);
    assert_eq!(typed, Typed::Taken);
    let Edit::Insert(text) = edit else {
        panic!("{edit:?}")
    };
    let words = insert_typed("", &text).expect("taken");
    let words = insert_typed(&words, "i").expect("taken");
    assert_eq!(words, "hi");
    assert_eq!(newline_typed(&words), "hi\n");
    assert_eq!(backspace_typed(&words), "h");
    assert_eq!(backspace_typed(""), "");
}

#[test]
fn a_control_character_is_a_key_not_a_letter() {
    assert!(insert_typed("a", "\u{7}").is_none());
    assert!(insert_typed("a", "").is_none());
    assert!(insert_typed("a", "b\u{9f}").is_none());
    assert_eq!(insert_typed("a", "é").as_deref(), Some("aé"));
}

#[test]
fn enter_finishes_and_shift_enter_breaks_the_line() {
    assert!(matches!(key_edit(true, &Key::Enter, false), (Typed::Finished, Edit::Finish)));
    assert!(matches!(key_edit(true, &Key::Enter, true), (Typed::Taken, Edit::Newline)));
    assert!(matches!(key_edit(true, &Key::Escape, true), (Typed::Finished, Edit::Finish)));
    assert!(matches!(key_edit(true, &Key::Other, false), (Typed::Taken, Edit::Nothing)));
    assert!(matches!(key_edit(false, &Key::Character("a".to_string()), false), (Typed::Idle, Edit::Nothing)));
    match key_edit(true, &Key::Space, false) {
        (Typed::Taken, Edit::Insert(text)) => assert_eq!(text, " "),
        other => panic!("{other:?}"),
    }
}

#[test]
fn the_keymap_words_name_the_actions() {
    assert_eq!(action_of("freedraw"), Some(Action::Choose(Tool::Freedraw)));
    assert_eq!(action_of("zoom_in"), Some(Action::ZoomIn));
    assert_eq!(action_of("pan_left"), Some(Action::Pan(Side::Left)));
    assert_eq!(action_of("to_back"), Some(Action::Reorder(Order::Back)));
    assert_eq!(action_of("unlock"), Some(Action::Lock(false)));
    assert_eq!(action_of("shove_down"), Some(Action::Shove(Side::Down)));
    assert_eq!(action_of("escape"), Some(Action::Escape));
    assert_eq!(action_of("no_such_thing"), None);
    assert_eq!(action_of(""), None);
}

#[test]
fn alignments_are_written_as_style_sheet_words() {
    assert_eq!(align_word(TextAlign::Left), "left");
    assert_eq!(align_word(TextAlign::Center), "center");
    assert_eq!(align_word(TextAlign::Right), "right");
    assert_eq!(vertical_word(VerticalAlign::Top), "flex-start");
    assert_eq!(vertical_word(VerticalAlign::Middle), "center");
    assert_eq!(vertical_word(VerticalAlign::Bottom), "flex-end");
}
