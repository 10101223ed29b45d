//! Command model and the LED render engine.
//!
//! A [`Led`] value is one command: the mode to enter, the palette color, the
//! fraction of the strip that is lit, and the animation rate. The engine,
//! [`LedController`], owns the retained last-applied command and the pixel
//! buffer, and turns each incoming command into the frame that the pixel sink
//! must show next, together with the pacing delay that follows it.

use vstd::prelude::*;
use vstd::arithmetic::div_mod::{
    lemma_add_mod_noop_right, lemma_mod_add_multiples_vanish, lemma_mod_bound, lemma_small_mod,
};

verus! {

/// Number of pixels on the strip; every frame has exactly this many entries.
pub const NUMBER_OF_LEDS: usize = 60;

/// One pixel, in the order the pixel sink takes it.
#[derive(Clone, Copy, Debug, PartialEq, Eq, Structural)]
pub struct Rgb {
    pub r: u8,
    pub g: u8,
    pub b: u8,
}

impl Rgb {
    /// The unlit pixel value.
    pub open spec fn dark_spec() -> Rgb {
        Rgb { r: 0, g: 0, b: 0 }
    }

    /// A pixel is lit exactly when it differs from the dark value.
    pub open spec fn is_lit(self) -> bool {
        self != Rgb::dark_spec()
    }

    pub fn dark() -> (p: Rgb)
        ensures
            p == Rgb::dark_spec(),
    {
        Rgb { r: 0, g: 0, b: 0 }
    }
}

/// The three render modes.
#[derive(Clone, Copy, Debug, PartialEq, Eq, Structural)]
pub enum LedState {
    On,
    Rotate,
    Off,
}

/// The fixed palette; commands carry one of these, never arbitrary RGB.
#[derive(Clone, Copy, Debug, PartialEq, Eq, Structural)]
pub enum Color {
    White,
    Red,
    Green,
    Blue,
    Purple,
    Yellow,
}

impl Color {
    /// The RGB triple each palette entry stands for.
    pub open spec fn rgb_spec(self) -> (u8, u8, u8) {
        match self {
            Color::White => (255u8, 255u8, 255u8),
            Color::Red => (255u8, 0u8, 0u8),
            Color::Green => (0u8, 255u8, 0u8),
            Color::Blue => (0u8, 0u8, 255u8),
            Color::Purple => (255u8, 0u8, 255u8),
            Color::Yellow => (255u8, 255u8, 0u8),
        }
    }

    pub fn to_rgb(&self) -> (rgb: (u8, u8, u8))
        ensures
            rgb == self.rgb_spec(),
    {
        match self {
            Color::White => (255, 255, 255),
            Color::Red => (255, 0, 0),
            Color::Green => (0, 255, 0),
            Color::Blue => (0, 0, 255),
            Color::Purple => (255, 0, 255),
            Color::Yellow => (255, 255, 0),
        }
    }
}

/// The pixel a palette color paints, as stored in the buffer.
pub open spec fn lit_pixel(color: Color) -> Rgb {
    Rgb { r: color.rgb_spec().0, g: color.rgb_spec().1, b: color.rgb_spec().2 }
}

/// Every palette color paints a lit (non-dark) pixel, so recoloring the lit
/// pixels of a frame never changes which indices are lit.
pub proof fn lemma_lit_pixel_is_lit(color: Color)
    ensures
        lit_pixel(color).is_lit(),
{
    match color {
        Color::White => assert(lit_pixel(color).r == 255),
        Color::Red => assert(lit_pixel(color).r == 255),
        Color::Green => assert(lit_pixel(color).g == 255),
        Color::Blue => assert(lit_pixel(color).b == 255),
        Color::Purple => assert(lit_pixel(color).r == 255),
        Color::Yellow => assert(lit_pixel(color).r == 255),
    }
}

/// One command, the unit exchanged between producers and the engine.
#[derive(Clone, Copy, Debug)]
pub struct Led {
    pub led_state: LedState,
    pub color: Color,
    /// Fraction of the strip that the base pattern lights, in [1, 100].
    pub percentage: u8,
    /// Animation rate divisor; only `Rotate` reads it, and it must then be
    /// nonzero (the tick delay is 10000 / speed milliseconds).
    pub speed: u8,
}

/// Command equality: structural over mode, color and percentage. Speed is
/// deliberately excluded — dedup is about visual pattern identity, not timing.
pub open spec fn same_pattern(a: Led, b: Led) -> bool {
    a.led_state == b.led_state && a.color == b.color && a.percentage == b.percentage
}

impl PartialEq for Led {
    fn eq(&self, other: &Self) -> (r: bool) {
        self.led_state == other.led_state && self.color == other.color && self.percentage
            == other.percentage
    }
}

impl vstd::std_specs::cmp::PartialEqSpecImpl for Led {
    open spec fn obeys_eq_spec() -> bool {
        true
    }

    open spec fn eq_spec(&self, other: &Led) -> bool {
        same_pattern(*self, *other)
    }
}

/// The command the engine starts from, and the one the button produces.
pub open spec fn initial_command() -> Led {
    Led { led_state: LedState::Off, color: Color::White, percentage: 1, speed: 0 }
}

impl Default for Led {
    /// The default command turns the strip off; all other fields are at the
    /// values the engine starts from.
    fn default() -> (led: Led)
        ensures
            led == initial_command(),
    {
        Led { led_state: LedState::Off, color: Color::White, percentage: 1, speed: 0 }
    }
}

/// The commands the engine accepts: a percentage that keeps the stride
/// divisor well defined, and a nonzero speed whenever `Rotate` will divide
/// by it.
pub open spec fn valid_command(led: Led) -> bool {
    1 <= led.percentage <= 100 && (led.led_state == LedState::Rotate ==> led.speed >= 1)
}

/// Runtime counterpart of [`valid_command`], for callers that receive a
/// command from outside the verified boundary.
pub fn command_is_valid(led: &Led) -> (r: bool)
    ensures
        r == valid_command(*led),
{
    1 <= led.percentage && led.percentage <= 100 && (!(led.led_state == LedState::Rotate)
        || led.speed >= 1)
}

/// The stride between lit pixels of the base pattern: floor(100 / percentage).
pub open spec fn stride_spec(percentage: u8) -> int {
    100int / (percentage as int)
}

/// A frame of nothing but dark pixels.
pub open spec fn dark_frame_spec() -> Seq<Rgb> {
    Seq::new(NUMBER_OF_LEDS as nat, |i: int| Rgb::dark_spec())
}

/// The base pattern: pixel `i` carries the command's color exactly when
/// `i` is a multiple of the stride, and is dark otherwise.
pub open spec fn base_pattern_spec(color: Color, percentage: u8) -> Seq<Rgb> {
    Seq::new(
        NUMBER_OF_LEDS as nat,
        |i: int|
            if i % stride_spec(percentage) == 0 {
                lit_pixel(color)
            } else {
                Rgb::dark_spec()
            },
    )
}

/// What one animation tick leaves at each pixel: the buffer shifted one
/// position towards higher indices (circularly), with every lit pixel
/// repainted in the command's color and every dark pixel kept dark.
pub open spec fn rotate_recolor_spec(s: Seq<Rgb>, color: Color) -> Seq<Rgb> {
    Seq::new(
        s.len(),
        |i: int|
            if s[(i - 1 + s.len()) % (s.len() as int)].is_lit() {
                lit_pixel(color)
            } else {
                Rgb::dark_spec()
            },
    )
}

/// An all-dark frame.
pub fn dark_frame() -> (out: Vec<Rgb>)
    ensures
        out@ == dark_frame_spec(),
{
    let mut out: Vec<Rgb> = Vec::new();
    let mut i: usize = 0;
    while i < NUMBER_OF_LEDS
        invariant
            i <= NUMBER_OF_LEDS,
            out@.len() == i,
            forall|k: int| 0 <= k < i ==> out@[k] == Rgb::dark_spec(),
        decreases NUMBER_OF_LEDS - i,
    {
        out.push(Rgb::dark());
        i += 1;
    }
    proof {
        assert(out@ =~= dark_frame_spec());
    }
    out
}

/// The pixel a palette color paints.
pub fn lit_rgb(color: Color) -> (p: Rgb)
    ensures
        p == lit_pixel(color),
{
    let (r, g, b) = color.to_rgb();
    Rgb { r, g, b }
}

/// Computes the stride-lit base pattern for `On` and for entering `Rotate`.
pub fn base_pattern(color: Color, percentage: u8) -> (out: Vec<Rgb>)
    requires
        1 <= percentage <= 100,
    ensures
        out@ == base_pattern_spec(color, percentage),
{
    let step: usize = (100 / percentage) as usize;
    proof {
        assert(1 <= 100int / (percentage as int) <= 100) by (nonlinear_arith)
            requires 1 <= percentage <= 100;
    }
    let lit = lit_rgb(color);
    let mut out: Vec<Rgb> = Vec::new();
    let mut i: usize = 0;
    while i < NUMBER_OF_LEDS
        invariant
            1 <= step <= 100,
            step == stride_spec(percentage),
            i <= NUMBER_OF_LEDS,
            out@.len() == i,
            lit == lit_pixel(color),
            forall|k: int|
                0 <= k < i ==> out@[k] == (if k % stride_spec(percentage) == 0 {
                    lit_pixel(color)
                } else {
                    Rgb::dark_spec()
                }),
        decreases NUMBER_OF_LEDS - i,
    {
        if i % step == 0 {
            out.push(lit);
        } else {
            out.push(Rgb::dark());
        }
        i += 1;
    }
    proof {
        assert(out@ =~= base_pattern_spec(color, percentage));
    }
    out
}

/// One animation tick: shift the frame one position (circularly) and repaint
/// the lit pixels in the given color.
pub fn rotate_and_recolor(pixels: &Vec<Rgb>, color: Color) -> (out: Vec<Rgb>)
    requires
        pixels@.len() >= 1,
    ensures
        out@ == rotate_recolor_spec(pixels@, color),
{
    let n: usize = pixels.len();
    let lit = lit_rgb(color);
    let dark = Rgb::dark();
    let mut out: Vec<Rgb> = Vec::new();
    let mut i: usize = 0;
    while i < n
        invariant
            n == pixels@.len(),
            n >= 1,
            i <= n,
            out@.len() == i,
            lit == lit_pixel(color),
            dark == Rgb::dark_spec(),
            forall|k: int|
                0 <= k < i ==> out@[k] == (if pixels@[(k - 1 + n) % (n as int)].is_lit() {
                    lit_pixel(color)
                } else {
                    Rgb::dark_spec()
                }),
        decreases n - i,
    {
        let src: usize = if i == 0 {
            n - 1
        } else {
            i - 1
        };
        proof {
            assert((i as int - 1 + n) % (n as int) == src as int) by {
                if i == 0 {
                    assert((n - 1) % (n as int) == n - 1) by (nonlinear_arith)
                        requires n >= 1;
                } else {
                    assert((i as int - 1) % (n as int) == i as int - 1) by (nonlinear_arith)
                        requires 1 <= i <= n;
                    assert((i as int - 1 + n) % (n as int) == (i as int - 1) % (n as int))
                        by (nonlinear_arith)
                        requires n >= 1;
                }
            }
        }
        let px = pixels[src];
        if px.r == 0 && px.g == 0 && px.b == 0 {
            out.push(dark);
        } else {
            out.push(lit);
        }
        i += 1;
    }
    proof {
        assert(out@ =~= rotate_recolor_spec(pixels@, color));
    }
    out
}

/// What the engine asks of its caller after a command: whether the pixel
/// buffer was rewritten (and must be pushed to the pixel sink), and how long
/// to pace before taking the next command.
#[derive(Clone, Copy, Debug, PartialEq, Eq, Structural)]
pub struct EngineAction {
    /// The buffer changed and holds the frame the sink must show now.
    pub wrote: bool,
    /// Milliseconds to wait before receiving the next command.
    pub sleep_ms: u64,
}

/// The render engine's private, single-owner state: the last applied command
/// and the frame the strip currently shows.
pub struct LedController {
    retained: Led,
    pixels: Vec<Rgb>,
}

impl LedController {
    /// The pixel buffer always holds one full frame, and the retained
    /// command is one the engine accepted.
    pub closed spec fn wf(&self) -> bool {
        self.pixels@.len() == NUMBER_OF_LEDS && valid_command(self.retained)
    }

    /// The last command the engine applied.
    pub closed spec fn retained_spec(&self) -> Led {
        self.retained
    }

    /// The frame the strip currently shows.
    pub closed spec fn buffer(&self) -> Seq<Rgb> {
        self.pixels@
    }

    /// A fresh engine: no command applied yet (the retained command is the
    /// default `Off`), and an all-dark frame that the caller writes to the
    /// sink once before the first command.
    pub fn new() -> (c: LedController)
        ensures
            c.wf(),
            c.retained_spec() == initial_command(),
            c.buffer() == dark_frame_spec(),
    {
        LedController { retained: Led::default(), pixels: dark_frame() }
    }

    /// A well-formed engine always holds one full frame.
    pub proof fn lemma_wf_frame_len(&self)
        requires
            self.wf(),
        ensures
            self.buffer().len() == NUMBER_OF_LEDS,
            valid_command(self.retained_spec()),
    {
    }

    /// Read access to the current frame, for pushing it to the pixel sink.
    pub fn pixels(&self) -> (v: &Vec<Rgb>)
        ensures
            v@ == self.buffer(),
    {
        &self.pixels
    }

    /// The last applied command, for a driver that re-applies it on a
    /// timed receive to keep the animation self-sustaining.
    pub fn last_command(&self) -> (led: Led)
        ensures
            led == self.retained_spec(),
    {
        self.retained
    }

    /// Applies one dequeued command. This is the whole state machine:
    ///
    /// - `Off` always repaints the frame dark and asks for an immediate next
    ///   receive.
    /// - `On` recomputes the stride-lit base pattern only when the command
    ///   differs from the retained one (mode, color or percentage changed);
    ///   an identical command is deduplicated: no write, only the 1000 ms
    ///   pacing sleep, so repeating a command cannot flicker the strip.
    /// - `Rotate` recomputes the base pattern when entering the mode or when
    ///   the percentage changed, and otherwise advances the animation by one
    ///   circular shift, repainting the lit pixels in the command's color
    ///   without resetting the phase. Either way the tick is paced by
    ///   10000 / speed milliseconds.
    ///
    /// The command becomes the retained one afterwards.
    pub fn set_led_state(&mut self, new_led: Led) -> (act: EngineAction)
        requires
            old(self).wf(),
            valid_command(new_led),
        ensures
            final(self).wf(),
            final(self).retained_spec() == new_led,
            new_led.led_state == LedState::Off ==> act == (EngineAction {
                wrote: true,
                sleep_ms: 0,
            }) && final(self).buffer() == dark_frame_spec(),
            new_led.led_state == LedState::On && !same_pattern(new_led, old(self).retained_spec())
                ==> act == (EngineAction { wrote: true, sleep_ms: 1000 }) && final(self).buffer()
                == base_pattern_spec(new_led.color, new_led.percentage),
            new_led.led_state == LedState::On && same_pattern(new_led, old(self).retained_spec())
                ==> act == (EngineAction { wrote: false, sleep_ms: 1000 }) && final(self).buffer()
                == old(self).buffer(),
            new_led.led_state == LedState::Rotate && (old(self).retained_spec().led_state
                != LedState::Rotate || old(self).retained_spec().percentage != new_led.percentage)
                ==> act == (EngineAction {
                wrote: true,
                sleep_ms: 10000u64 / (new_led.speed as u64),
            }) && final(self).buffer() == base_pattern_spec(new_led.color, new_led.percentage),
            new_led.led_state == LedState::Rotate && old(self).retained_spec().led_state
                == LedState::Rotate && old(self).retained_spec().percentage == new_led.percentage
                ==> act == (EngineAction {
                wrote: true,
                sleep_ms: 10000u64 / (new_led.speed as u64),
            }) && final(self).buffer() == rotate_recolor_spec(old(self).buffer(), new_led.color),
    {
        let mut wrote = false;
        let mut sleep_ms: u64 = 0;
        match new_led.led_state {
            LedState::On => {
                if !(new_led == self.retained) {
                    self.pixels = base_pattern(new_led.color, new_led.percentage);
                    wrote = true;
                }
                sleep_ms = 1000;
            },
            LedState::Rotate => {
                let re_init = !(self.retained.led_state == LedState::Rotate)
                    || self.retained.percentage != new_led.percentage;
                if re_init {
                    self.pixels = base_pattern(new_led.color, new_led.percentage);
                } else {
                    let stepped = rotate_and_recolor(&self.pixels, new_led.color);
                    self.pixels = stepped;
                }
                wrote = true;
                sleep_ms = 10000 / (new_led.speed as u64);
            },
            LedState::Off => {
                self.pixels = dark_frame();
                wrote = true;
            },
        }
        self.retained = new_led;
        EngineAction { wrote, sleep_ms }
    }

    /// Re-applies the retained command: the tick a driver issues when its
    /// timed receive ran out with no new command, so a `Rotate` animation
    /// advances on its own cadence without external re-publication. An `On`
    /// tick is deduplicated to nothing but the pacing sleep, and an `Off`
    /// tick repaints the dark frame.
    pub fn tick(&mut self) -> (act: EngineAction)
        requires
            old(self).wf(),
        ensures
            final(self).wf(),
            final(self).retained_spec() == old(self).retained_spec(),
            old(self).retained_spec().led_state == LedState::Off ==> act == (EngineAction {
                wrote: true,
                sleep_ms: 0,
            }) && final(self).buffer() == dark_frame_spec(),
            old(self).retained_spec().led_state == LedState::On ==> act == (EngineAction {
                wrote: false,
                sleep_ms: 1000,
            }) && final(self).buffer() == old(self).buffer(),
            old(self).retained_spec().led_state == LedState::Rotate ==> act == (EngineAction {
                wrote: true,
                sleep_ms: 10000u64 / (old(self).retained_spec().speed as u64),
            }) && final(self).buffer() == rotate_recolor_spec(
                old(self).buffer(),
                old(self).retained_spec().color,
            ),
    {
        let cur = self.retained;
        self.set_led_state(cur)
    }
}

/// For every percentage in [1, 100], the base pattern lights pixel `i`
/// exactly when `i` is a multiple of the stride floor(100/percentage);
/// at 100 every pixel is lit, at 1 only pixel 0.
pub proof fn lemma_base_pattern_lit(color: Color, percentage: u8)
    requires
        1 <= percentage <= 100,
    ensures
        forall|i: int|
            0 <= i < NUMBER_OF_LEDS ==> (#[trigger] base_pattern_spec(color, percentage)[i].is_lit()
                <==> i % stride_spec(percentage) == 0),
        percentage == 100 ==> forall|i: int|
            0 <= i < NUMBER_OF_LEDS ==> #[trigger] base_pattern_spec(color, percentage)[i].is_lit(),
        percentage == 1 ==> forall|i: int|
            0 <= i < NUMBER_OF_LEDS ==> (#[trigger] base_pattern_spec(color, percentage)[i].is_lit()
                <==> i == 0),
{
    lemma_lit_pixel_is_lit(color);
    if percentage == 100 {
        assert(stride_spec(percentage) == 1) by (nonlinear_arith)
            requires percentage == 100;
    }
    if percentage == 1 {
        assert(stride_spec(percentage) == 100) by (nonlinear_arith)
            requires percentage == 1;
        assert forall|i: int| 0 <= i < NUMBER_OF_LEDS implies ((#[trigger] (i % 100int)) == 0 <==> i
            == 0) by {
            lemma_small_mod(i as nat, 100nat);
        };
    }
}

/// The buffer after `n` animation ticks, each repainting in `color`.
pub open spec fn rotate_n_spec(s: Seq<Rgb>, color: Color, n: nat) -> Seq<Rgb>
    decreases n,
{
    if n == 0 {
        s
    } else {
        rotate_recolor_spec(rotate_n_spec(s, color, (n - 1) as nat), color)
    }
}

/// After `n` ticks, pixel `i` is lit exactly when pixel `(i - n) mod len`
/// of the starting buffer was: the lit-index set only moves, it never grows
/// or shrinks, whatever colors the ticks painted.
pub proof fn lemma_rotate_n_lit(s: Seq<Rgb>, color: Color, n: nat)
    requires
        s.len() >= 1,
    ensures
        rotate_n_spec(s, color, n).len() == s.len(),
        forall|i: int|
            0 <= i < s.len() ==> (#[trigger] rotate_n_spec(s, color, n)[i].is_lit() <==> s[(i
                - n) % (s.len() as int)].is_lit()),
    decreases n,
{
    let m = s.len() as int;
    lemma_lit_pixel_is_lit(color);
    if n == 0 {
        assert forall|i: int| 0 <= i < m implies (#[trigger] ((i - 0) % m)) == i by {
            lemma_small_mod(i as nat, m as nat);
        };
    } else {
        lemma_rotate_n_lit(s, color, (n - 1) as nat);
        let prev = rotate_n_spec(s, color, (n - 1) as nat);
        assert forall|i: int|
            0 <= i < m implies (#[trigger] rotate_n_spec(s, color, n)[i].is_lit() <==> s[(i
            - n) % m].is_lit()) by {
            let j = (i - 1 + m) % m;
            lemma_mod_bound(i - 1 + m, m);
            assert(rotate_n_spec(s, color, n)[i].is_lit() <==> prev[j].is_lit());
            lemma_add_mod_noop_right(1 - n, i - 1 + m, m);
            lemma_mod_add_multiples_vanish(i - n, m);
            assert((j - (n - 1)) % m == (i - n) % m);
        };
    }
}

/// One animation tick is a pure circular shift of the lit-index set by one
/// position, and a full strip length of ticks brings the pattern back to
/// its original alignment.
pub proof fn lemma_rotate_cycle(s: Seq<Rgb>, color: Color)
    requires
        s.len() == NUMBER_OF_LEDS,
    ensures
        forall|i: int|
            0 <= i < s.len() ==> (#[trigger] rotate_recolor_spec(s, color)[i].is_lit() <==> s[(i - 1
                + s.len()) % (s.len() as int)].is_lit()),
        forall|i: int|
            0 <= i < s.len() ==> (#[trigger] rotate_n_spec(
                s,
                color,
                NUMBER_OF_LEDS as nat,
            )[i].is_lit() <==> s[i].is_lit()),
{
    let m = s.len() as int;
    lemma_lit_pixel_is_lit(color);
    assert forall|i: int|
        0 <= i < m implies (#[trigger] rotate_recolor_spec(s, color)[i].is_lit() <==> s[(i - 1
        + m) % m].is_lit()) by {
        lemma_mod_bound(i - 1 + m, m);
    };
    lemma_rotate_n_lit(s, color, NUMBER_OF_LEDS as nat);
    assert forall|i: int| 0 <= i < m implies (#[trigger] ((i - m) % m)) == i by {
        lemma_mod_add_multiples_vanish(i - m, m);
        lemma_small_mod(i as nat, m as nat);
    };
}


} // verus!
