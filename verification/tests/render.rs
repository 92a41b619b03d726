use roygbiv::fixed::SCALE;
use roygbiv::render::render;
use roygbiv::render::run;
use roygbiv::render::single_value;
use roygbiv::render::RenderItem;
use roygbiv::render::Rendered;
use roygbiv::render::Settings;
use roygbiv::spectrum::Color;

#[test]
fn single_value_ratio_zero() {
    // Ratio 0 maps to position 380, the dimmed edge of the domain.
    assert_eq!(single_value(0, SCALE, SCALE), Color { r: 76, g: 0, b: 0 });
    assert_eq!(single_value(0, 800000, SCALE), Color { r: 97, g: 0, b: 0 });
}

#[test]
fn single_value_ratio_one() {
    // Ratio 1 maps to position 780, the dimmed violet edge.
    assert_eq!(single_value(SCALE, SCALE, SCALE), Color { r: 76, g: 0, b: 76 });
    assert_eq!(single_value(SCALE, 800000, SCALE), Color { r: 97, g: 0, b: 97 });
}

#[test]
fn two_letters_get_distinct_colors() {
    let text: Vec<char> = "AB".chars().collect();
    let out = render(&text, 800000, SCALE);
    assert_eq!(out.len(), 2);
    assert_eq!(out[0], RenderItem::Colored(Color { r: 255, g: 0, b: 0 }, 'A'));
    assert_eq!(out[1], RenderItem::Colored(Color { r: 22, g: 255, b: 0 }, 'B'));
    assert_ne!(out[0], out[1]);
}

#[test]
fn single_letter_sits_mid_spectrum() {
    let text: Vec<char> = "a".chars().collect();
    let out = render(&text, 800000, SCALE);
    assert_eq!(out, vec![RenderItem::Colored(Color { r: 255, g: 255, b: 0 }, 'a')]);
}

#[test]
fn single_space_passes_through_uncolored() {
    let text: Vec<char> = " ".chars().collect();
    let out = render(&text, 800000, SCALE);
    assert_eq!(out, vec![RenderItem::Plain(' ')]);
}

#[test]
fn space_still_consumes_a_spectrum_slot() {
    let text: Vec<char> = "a b".chars().collect();
    let out = render(&text, SCALE, SCALE);
    assert_eq!(
        out,
        vec![
            RenderItem::Colored(Color { r: 255, g: 0, b: 0 }, 'a'),
            RenderItem::Plain(' '),
            RenderItem::Colored(Color { r: 0, g: 204, b: 255 }, 'b'),
        ]
    );
}

#[test]
fn trailing_newline_changes_nothing_else() {
    let with_newline: Vec<char> = "a\n".chars().collect();
    let without: Vec<char> = "a".chars().collect();
    let out = render(&with_newline, 800000, SCALE);
    let base = render(&without, 800000, SCALE);
    assert_eq!(out.len(), 2);
    assert_eq!(out[0], base[0]);
    assert_eq!(out[1], RenderItem::Plain('\n'));
}

#[test]
fn newline_mid_text_gives_its_slot_back() {
    let text: Vec<char> = "a\nb".chars().collect();
    let out = render(&text, SCALE, SCALE);
    assert_eq!(
        out,
        vec![
            RenderItem::Colored(Color { r: 255, g: 0, b: 0 }, 'a'),
            RenderItem::Plain('\n'),
            RenderItem::Colored(Color { r: 12, g: 255, b: 0 }, 'b'),
        ]
    );
}

#[test]
fn newline_only_text_stays_plain() {
    let text: Vec<char> = "\n".chars().collect();
    let out = render(&text, 800000, SCALE);
    assert_eq!(out, vec![RenderItem::Plain('\n')]);
}

#[test]
fn empty_text_renders_nothing() {
    let text: Vec<char> = Vec::new();
    let out = render(&text, 800000, SCALE);
    assert!(out.is_empty());
}

#[test]
fn run_single_value_mode_ignores_text() {
    let settings = Settings { gamma: SCALE, brightness: SCALE, ratio: Some(0) };
    let text: Vec<char> = "xyz".chars().collect();
    let out = run(&settings, &text);
    assert_eq!(out, Rendered::Single(Color { r: 76, g: 0, b: 0 }));
}

#[test]
fn run_per_character_mode_renders_text() {
    let settings = Settings { gamma: 800000, brightness: SCALE, ratio: None };
    let text: Vec<char> = "AB".chars().collect();
    let out = run(&settings, &text);
    match out {
        Rendered::Text(items) => {
            assert_eq!(items.len(), 2);
            assert_eq!(items[0], RenderItem::Colored(Color { r: 255, g: 0, b: 0 }, 'A'));
        },
        Rendered::Single(_) => panic!("expected per-character mode"),
    }
}

#[test]
fn rendering_is_deterministic() {
    let text: Vec<char> = "hello world\n".chars().collect();
    let first = render(&text, 800000, 1200000);
    let second = render(&text, 800000, 1200000);
    assert_eq!(first, second);
}
