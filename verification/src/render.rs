//! The text renderer: walks the characters of a text once, gives every
//! colorable character a position along the spectrum proportional to its
//! one-based index, and pairs it with the color the spectrum mapper
//! assigns to that position. Spaces keep their spectrum slot but stay
//! uncolored; newlines pass through and give their slot back.

use crate::fixed::SCALE;
use crate::spectrum::color_at;
use crate::spectrum::rgb_scale;
use crate::spectrum::Color;
use vstd::prelude::*;

verus! {

/// Upper bound on the number of characters the renderer accepts, so that
/// every position fits comfortably in 64-bit fixed-point arithmetic.
pub const MAX_TEXT_LEN: usize = 1000000000;

/// One rendered unit of output.
#[derive(PartialEq, Eq, Structural, Clone, Copy, Debug)]
pub enum RenderItem {
    /// A space or newline, passed through without color.
    Plain(char),
    /// A character together with the color it is rendered in.
    Colored(Color, char),
}

/// The number of colorable slots before rendering begins: the character
/// count, less one when the text ends in a newline.
pub open spec fn initial_count(text: Seq<char>) -> int {
    if text.len() > 0 && text[text.len() - 1] == '\n' {
        text.len() - 1
    } else {
        text.len() as int
    }
}

/// The fixed-point position of the `counter`-th colorable character while
/// `remaining` colorable slots are left: `380 + 400 * counter / (remaining
/// + 1)` units.
pub open spec fn char_position(counter: int, remaining: int) -> int {
    380 * SCALE as int + 400 * SCALE as int * counter / (remaining + 1)
}

/// The colored item a colorable character renders to: the character
/// itself, prefixed with the color of its position.
pub open spec fn colored_item(ch: char, gamma: int, brightness: int, counter: int, remaining: int) -> RenderItem {
    RenderItem::Colored(color_at(char_position(counter, remaining), gamma, brightness), ch)
}

/// The items rendered for the characters of `text` from index `i` on,
/// when the next colorable character is the `counter`-th and `remaining`
/// colorable slots are left. A space stays plain but consumes a slot; a
/// newline stays plain and gives a slot back (never below zero); any
/// other character is colored at its position and consumes a slot.
pub open spec fn render_rec(
    text: Seq<char>,
    gamma: int,
    brightness: int,
    i: int,
    counter: int,
    remaining: int,
) -> Seq<RenderItem>
    decreases text.len() - i,
{
    if i < 0 || i >= text.len() {
        Seq::empty()
    } else if text[i] == ' ' {
        seq![RenderItem::Plain(' ')] + render_rec(text, gamma, brightness, i + 1, counter + 1, remaining)
    } else if text[i] == '\n' {
        seq![RenderItem::Plain('\n')] + render_rec(
            text,
            gamma,
            brightness,
            i + 1,
            counter,
            if remaining > 0 {
                remaining - 1
            } else {
                0
            },
        )
    } else {
        seq![colored_item(text[i], gamma, brightness, counter, remaining)] + render_rec(
            text,
            gamma,
            brightness,
            i + 1,
            counter + 1,
            remaining,
        )
    }
}

/// Everything rendered for a text: counting starts at one with the
/// trailing-newline-adjusted colorable count.
pub open spec fn spec_render(text: Seq<char>, gamma: int, brightness: int) -> Seq<RenderItem> {
    render_rec(text, gamma, brightness, 0, 1, initial_count(text))
}

/// What kind of item a character renders to: spaces and newlines stay
/// plain, everything else is colored and keeps its character.
pub open spec fn item_matches(item: RenderItem, ch: char) -> bool {
    if ch == ' ' {
        item == RenderItem::Plain(' ')
    } else if ch == '\n' {
        item == RenderItem::Plain('\n')
    } else {
        item matches RenderItem::Colored(_, c) && c == ch
    }
}

/// Definitional unfolding: past the end of the text nothing is rendered.
proof fn lemma_unfold_end(text: Seq<char>, gamma: int, brightness: int, i: int, counter: int, remaining: int)
    requires
        i >= text.len(),
    ensures
        render_rec(text, gamma, brightness, i, counter, remaining) == Seq::<RenderItem>::empty(),
{
}

/// Definitional unfolding: a space renders plain and consumes a slot.
proof fn lemma_unfold_space(text: Seq<char>, gamma: int, brightness: int, i: int, counter: int, remaining: int)
    requires
        0 <= i < text.len(),
        text[i] == ' ',
    ensures
        render_rec(text, gamma, brightness, i, counter, remaining) == seq![RenderItem::Plain(' ')]
            + render_rec(text, gamma, brightness, i + 1, counter + 1, remaining),
{
    let step = render_rec(text, gamma, brightness, i, counter, remaining);
    let rest = render_rec(text, gamma, brightness, i + 1, counter + 1, remaining);
    assert(step == seq![RenderItem::Plain(' ')] + rest);
}

/// Definitional unfolding: a newline renders plain and gives a slot back.
proof fn lemma_unfold_newline(text: Seq<char>, gamma: int, brightness: int, i: int, counter: int, remaining: int)
    requires
        0 <= i < text.len(),
        text[i] == '\n',
    ensures
        render_rec(text, gamma, brightness, i, counter, remaining) == seq![RenderItem::Plain('\n')]
            + render_rec(
            text,
            gamma,
            brightness,
            i + 1,
            counter,
            if remaining > 0 {
                remaining - 1
            } else {
                0
            },
        ),
{
    let step = render_rec(text, gamma, brightness, i, counter, remaining);
    let nr: int = if remaining > 0 {
        remaining - 1
    } else {
        0
    };
    let rest = render_rec(text, gamma, brightness, i + 1, counter, nr);
    assert(step == seq![RenderItem::Plain('\n')] + rest);
}

/// Definitional unfolding: any other character renders colored at its
/// position and consumes a slot.
proof fn lemma_unfold_colored(text: Seq<char>, gamma: int, brightness: int, i: int, counter: int, remaining: int)
    requires
        0 <= i < text.len(),
        text[i] != ' ',
        text[i] != '\n',
    ensures
        render_rec(text, gamma, brightness, i, counter, remaining) == seq![
            colored_item(text[i], gamma, brightness, counter, remaining),
        ] + render_rec(text, gamma, brightness, i + 1, counter + 1, remaining),
{
    let step = render_rec(text, gamma, brightness, i, counter, remaining);
    let rest = render_rec(text, gamma, brightness, i + 1, counter + 1, remaining);
    assert(step == seq![colored_item(text[i], gamma, brightness, counter, remaining)] + rest);
}

/// Rendering yields one item per character, and each item is of the kind
/// its character calls for.
pub proof fn lemma_render_rec_shape(
    text: Seq<char>,
    gamma: int,
    brightness: int,
    i: int,
    counter: int,
    remaining: int,
)
    requires
        0 <= i <= text.len(),
    ensures
        render_rec(text, gamma, brightness, i, counter, remaining).len() == text.len() - i,
        forall|j: int|
            i <= j < text.len() ==> item_matches(
                #[trigger] render_rec(text, gamma, brightness, i, counter, remaining)[j - i],
                text[j],
            ),
    decreases text.len() - i,
{
    if i < text.len() {
        let step = render_rec(text, gamma, brightness, i, counter, remaining);
        if text[i] == ' ' {
            lemma_unfold_space(text, gamma, brightness, i, counter, remaining);
            lemma_render_rec_shape(text, gamma, brightness, i + 1, counter + 1, remaining);
            assert forall|j: int| i <= j < text.len() implies item_matches(step[j - i], text[j]) by {
                if j > i {
                    assert(item_matches(
                        render_rec(text, gamma, brightness, i + 1, counter + 1, remaining)[j - (i
                            + 1)],
                        text[j],
                    ));
                    assert(step[j - i] == render_rec(
                        text,
                        gamma,
                        brightness,
                        i + 1,
                        counter + 1,
                        remaining,
                    )[j - (i + 1)]);
                }
            }
        } else if text[i] == '\n' {
            let nr: int = if remaining > 0 {
                remaining - 1
            } else {
                0
            };
            lemma_unfold_newline(text, gamma, brightness, i, counter, remaining);
            lemma_render_rec_shape(text, gamma, brightness, i + 1, counter, nr);
            assert forall|j: int| i <= j < text.len() implies item_matches(step[j - i], text[j]) by {
                if j > i {
                    assert(item_matches(
                        render_rec(text, gamma, brightness, i + 1, counter, nr)[j - (i + 1)],
                        text[j],
                    ));
                    assert(step[j - i] == render_rec(text, gamma, brightness, i + 1, counter, nr)[j
                        - (i + 1)]);
                }
            }
        } else {
            lemma_unfold_colored(text, gamma, brightness, i, counter, remaining);
            lemma_render_rec_shape(text, gamma, brightness, i + 1, counter + 1, remaining);
            assert forall|j: int| i <= j < text.len() implies item_matches(step[j - i], text[j]) by {
                if j > i {
                    assert(item_matches(
                        render_rec(text, gamma, brightness, i + 1, counter + 1, remaining)[j - (i
                            + 1)],
                        text[j],
                    ));
                    assert(step[j - i] == render_rec(
                        text,
                        gamma,
                        brightness,
                        i + 1,
                        counter + 1,
                        remaining,
                    )[j - (i + 1)]);
                }
            }
        }
    }
}

/// Per-character mode: renders each character of `text` in order, exactly
/// as `spec_render` states, one item per character.
pub fn render(text: &Vec<char>, gamma: u64, brightness: u64) -> (out: Vec<RenderItem>)
    requires
        text@.len() <= MAX_TEXT_LEN,
    ensures
        out@ == spec_render(text@, gamma as int, brightness as int),
        out@.len() == text@.len(),
        forall|j: int| 0 <= j < text@.len() ==> item_matches(#[trigger] out@[j], text@[j]),
{
    let n: usize = text.len();
    let mut remaining: u64 = if n > 0 && text[n - 1] == '\n' {
        (n - 1) as u64
    } else {
        n as u64
    };
    let mut counter: u64 = 1;
    let mut i: usize = 0;
    let mut out: Vec<RenderItem> = Vec::new();
    proof {
        assert(out@ + render_rec(text@, gamma as int, brightness as int, 0, 1, remaining as int)
            =~= render_rec(text@, gamma as int, brightness as int, 0, 1, remaining as int));
    }
    while i < n
        invariant
            n == text@.len(),
            n <= MAX_TEXT_LEN,
            i <= n,
            1 <= counter <= i + 1,
            remaining <= n,
            out@.len() == i,
            spec_render(text@, gamma as int, brightness as int) == out@ + render_rec(
                text@,
                gamma as int,
                brightness as int,
                i as int,
                counter as int,
                remaining as int,
            ),
        decreases n - i,
    {
        let ch = text[i];
        if ch == ' ' {
            proof {
                lemma_unfold_space(
                    text@,
                    gamma as int,
                    brightness as int,
                    i as int,
                    counter as int,
                    remaining as int,
                );
                assert(out@ + render_rec(
                    text@,
                    gamma as int,
                    brightness as int,
                    i as int,
                    counter as int,
                    remaining as int,
                ) =~= out@.push(RenderItem::Plain(' ')) + render_rec(
                    text@,
                    gamma as int,
                    brightness as int,
                    i as int + 1,
                    counter as int + 1,
                    remaining as int,
                ));
            }
            out.push(RenderItem::Plain(' '));
            counter = counter + 1;
        } else if ch == '\n' {
            let next_remaining: u64 = if remaining > 0 {
                remaining - 1
            } else {
                0
            };
            proof {
                lemma_unfold_newline(
                    text@,
                    gamma as int,
                    brightness as int,
                    i as int,
                    counter as int,
                    remaining as int,
                );
                assert(out@ + render_rec(
                    text@,
                    gamma as int,
                    brightness as int,
                    i as int,
                    counter as int,
                    remaining as int,
                ) =~= out@.push(RenderItem::Plain('\n')) + render_rec(
                    text@,
                    gamma as int,
                    brightness as int,
                    i as int + 1,
                    counter as int,
                    next_remaining as int,
                ));
            }
            out.push(RenderItem::Plain('\n'));
            remaining = next_remaining;
        } else {
            proof {
                assert(400 * (SCALE as int) * (counter as int) <= 1000000001000000000int)
                    by (nonlinear_arith)
                    requires
                        counter as int <= 1000000001int,
                ;
            }
            let position = 380 * SCALE + 400 * SCALE * counter / (remaining + 1);
            let color = rgb_scale(position, gamma, brightness);
            proof {
                assert(position as int == char_position(counter as int, remaining as int));
                assert(ch == text@[i as int]);
                assert(RenderItem::Colored(color, ch) == colored_item(
                    ch,
                    gamma as int,
                    brightness as int,
                    counter as int,
                    remaining as int,
                ));
                lemma_unfold_colored(
                    text@,
                    gamma as int,
                    brightness as int,
                    i as int,
                    counter as int,
                    remaining as int,
                );
                assert(out@ + render_rec(
                    text@,
                    gamma as int,
                    brightness as int,
                    i as int,
                    counter as int,
                    remaining as int,
                ) =~= out@.push(RenderItem::Colored(color, ch)) + render_rec(
                    text@,
                    gamma as int,
                    brightness as int,
                    i as int + 1,
                    counter as int + 1,
                    remaining as int,
                ));
            }
            out.push(RenderItem::Colored(color, ch));
            counter = counter + 1;
        }
        i = i + 1;
    }
    proof {
        lemma_unfold_end(
            text@,
            gamma as int,
            brightness as int,
            n as int,
            counter as int,
            remaining as int,
        );
        assert(out@ + render_rec(
            text@,
            gamma as int,
            brightness as int,
            n as int,
            counter as int,
            remaining as int,
        ) =~= out@);
        lemma_render_rec_shape(text@, gamma as int, brightness as int, 0, 1, initial_count(text@));
    }
    out
}

/// Single-value mode: a ratio within `[0, 1]` units maps linearly onto the
/// position domain as `380 + 400 * ratio` and yields that one color.
pub fn single_value(ratio: u64, gamma: u64, brightness: u64) -> (c: Color)
    requires
        ratio <= SCALE,
    ensures
        c == color_at(
            380 * SCALE as int + 400 * ratio as int,
            gamma as int,
            brightness as int,
        ),
{
    rgb_scale(380 * SCALE + 400 * ratio, gamma, brightness)
}

/// The renderer's configuration: gamma and brightness in millionths, and,
/// when single-value mode is wanted, a ratio in millionths within one unit.
#[derive(Clone, Copy, Debug)]
pub struct Settings {
    pub gamma: u64,
    pub brightness: u64,
    pub ratio: Option<u64>,
}

/// Everything one invocation of the renderer produces.
#[derive(PartialEq, Eq, Debug)]
pub enum Rendered {
    /// Single-value mode: one color.
    Single(Color),
    /// Per-character mode: one item per character of the text.
    Text(Vec<RenderItem>),
}

/// Runs the renderer: a ratio within `[0, 1]` selects single-value mode
/// and the text is ignored; otherwise every character of the text is
/// rendered in order.
pub fn run(settings: &Settings, text: &Vec<char>) -> (out: Rendered)
    requires
        text@.len() <= MAX_TEXT_LEN,
        settings.ratio matches Some(q) ==> q <= SCALE,
    ensures
        match settings.ratio {
            Some(q) => out == Rendered::Single(
                color_at(
                    380 * SCALE as int + 400 * q as int,
                    settings.gamma as int,
                    settings.brightness as int,
                ),
            ),
            None => out matches Rendered::Text(items) && items@ == spec_render(
                text@,
                settings.gamma as int,
                settings.brightness as int,
            ),
        },
{
    match settings.ratio {
        Some(q) => Rendered::Single(single_value(q, settings.gamma, settings.brightness)),
        None => Rendered::Text(render(text, settings.gamma, settings.brightness)),
    }
}

/// Appending a trailing newline to a text that does not already end in
/// one appends a plain newline to the rendered items and changes nothing
/// else: the trailing newline neither consumes a spectrum slot nor shifts
/// any character's color.
pub proof fn lemma_trailing_newline(text: Seq<char>, gamma: int, brightness: int)
    requires
        text.len() == 0 || text[text.len() - 1] != '\n',
    ensures
        spec_render(text.push('\n'), gamma, brightness) == spec_render(text, gamma, brightness)
            .push(RenderItem::Plain('\n')),
{
    assert(text.push('\n')[text.len() as int] == '\n');
    assert(initial_count(text.push('\n')) == initial_count(text));
    lemma_trailing_newline_rec(text, gamma, brightness, 0, 1, initial_count(text));
}

proof fn lemma_trailing_newline_rec(
    text: Seq<char>,
    gamma: int,
    brightness: int,
    i: int,
    counter: int,
    remaining: int,
)
    requires
        0 <= i <= text.len(),
    ensures
        render_rec(text.push('\n'), gamma, brightness, i, counter, remaining) == render_rec(
            text,
            gamma,
            brightness,
            i,
            counter,
            remaining,
        ).push(RenderItem::Plain('\n')),
    decreases text.len() - i,
{
    let t2 = text.push('\n');
    if i == text.len() {
        assert(t2[i] == '\n');
        let nr: int = if remaining > 0 {
            remaining - 1
        } else {
            0
        };
        lemma_unfold_newline(t2, gamma, brightness, i, counter, remaining);
        lemma_unfold_end(t2, gamma, brightness, i + 1, counter, nr);
        lemma_unfold_end(text, gamma, brightness, i, counter, remaining);
        assert(render_rec(t2, gamma, brightness, i, counter, remaining) =~= render_rec(
            text,
            gamma,
            brightness,
            i,
            counter,
            remaining,
        ).push(RenderItem::Plain('\n')));
    } else {
        assert(t2[i] == text[i]);
        if text[i] == ' ' {
            lemma_unfold_space(t2, gamma, brightness, i, counter, remaining);
            lemma_unfold_space(text, gamma, brightness, i, counter, remaining);
            lemma_trailing_newline_rec(text, gamma, brightness, i + 1, counter + 1, remaining);
        } else if text[i] == '\n' {
            let nr: int = if remaining > 0 {
                remaining - 1
            } else {
                0
            };
            lemma_unfold_newline(t2, gamma, brightness, i, counter, remaining);
            lemma_unfold_newline(text, gamma, brightness, i, counter, remaining);
            lemma_trailing_newline_rec(text, gamma, brightness, i + 1, counter, nr);
        } else {
            lemma_unfold_colored(t2, gamma, brightness, i, counter, remaining);
            lemma_unfold_colored(text, gamma, brightness, i, counter, remaining);
            lemma_trailing_newline_rec(text, gamma, brightness, i + 1, counter + 1, remaining);
        }
        assert(render_rec(t2, gamma, brightness, i, counter, remaining) =~= render_rec(
            text,
            gamma,
            brightness,
            i,
            counter,
            remaining,
        ).push(RenderItem::Plain('\n')));
    }
}

} // verus!
