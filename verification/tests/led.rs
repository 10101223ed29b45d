use led_mcu::config::Config;
use led_mcu::led::{
    base_pattern, command_is_valid, dark_frame, Color, EngineAction, Led, LedController, LedState,
    Rgb, NUMBER_OF_LEDS,
};

fn cmd(led_state: LedState, color: Color, percentage: u8, speed: u8) -> Led {
    Led { led_state, color, percentage, speed }
}

fn lit_indices(frame: &Vec<Rgb>) -> Vec<usize> {
    let mut out = Vec::new();
    for (i, p) in frame.iter().enumerate() {
        if !(p.r == 0 && p.g == 0 && p.b == 0) {
            out.push(i);
        }
    }
    out
}

#[test]
fn to_rgb_matches_palette() {
    assert_eq!(Color::White.to_rgb(), (255, 255, 255));
    assert_eq!(Color::Red.to_rgb(), (255, 0, 0));
    assert_eq!(Color::Green.to_rgb(), (0, 255, 0));
    assert_eq!(Color::Blue.to_rgb(), (0, 0, 255));
    assert_eq!(Color::Purple.to_rgb(), (255, 0, 255));
    assert_eq!(Color::Yellow.to_rgb(), (255, 255, 0));
}

#[test]
fn command_equality_ignores_speed() {
    let a = cmd(LedState::On, Color::Red, 50, 0);
    let b = cmd(LedState::On, Color::Red, 50, 9);
    let c = cmd(LedState::On, Color::Red, 51, 0);
    let d = cmd(LedState::On, Color::Blue, 50, 0);
    let e = cmd(LedState::Off, Color::Red, 50, 0);
    assert!(a == b);
    assert!(a != c);
    assert!(a != d);
    assert!(a != e);
}

#[test]
fn default_command_turns_off() {
    let led = Led::default();
    assert!(led.led_state == LedState::Off);
    assert!(led.color == Color::White);
    assert_eq!(led.percentage, 1);
    assert_eq!(led.speed, 0);
}

#[test]
fn base_pattern_full_percentage_lights_all() {
    let frame = base_pattern(Color::Green, 100);
    assert_eq!(frame.len(), NUMBER_OF_LEDS);
    assert_eq!(lit_indices(&frame).len(), NUMBER_OF_LEDS);
}

#[test]
fn base_pattern_one_percent_lights_first_only() {
    let frame = base_pattern(Color::Green, 1);
    assert_eq!(lit_indices(&frame), vec![0]);
}

#[test]
fn base_pattern_half_percentage_strides_by_two() {
    let frame = base_pattern(Color::Red, 50);
    let expected: Vec<usize> = (0..NUMBER_OF_LEDS).step_by(2).collect();
    assert_eq!(lit_indices(&frame), expected);
    assert_eq!(frame[0], Rgb { r: 255, g: 0, b: 0 });
    assert_eq!(frame[1], Rgb { r: 0, g: 0, b: 0 });
}

#[test]
fn base_pattern_stride_rule_holds_for_every_percentage() {
    for p in 1..=100u8 {
        let stride = (100 / p) as usize;
        let frame = base_pattern(Color::White, p);
        for i in 0..NUMBER_OF_LEDS {
            let lit = !(frame[i].r == 0 && frame[i].g == 0 && frame[i].b == 0);
            assert_eq!(lit, i % stride == 0, "p={p} i={i}");
        }
    }
}

#[test]
fn engine_starts_off_and_dark() {
    let engine = LedController::new();
    assert_eq!(engine.pixels().len(), NUMBER_OF_LEDS);
    assert!(lit_indices(engine.pixels()).is_empty());
}

#[test]
fn identical_on_command_writes_once() {
    let mut engine = LedController::new();
    let on = cmd(LedState::On, Color::Red, 50, 0);
    let first = engine.set_led_state(on);
    assert_eq!(first, EngineAction { wrote: true, sleep_ms: 1000 });
    let before = engine.pixels().clone();
    let second = engine.set_led_state(on);
    assert_eq!(second, EngineAction { wrote: false, sleep_ms: 1000 });
    assert_eq!(engine.pixels(), &before);
}

#[test]
fn on_command_changes_when_color_changes() {
    let mut engine = LedController::new();
    engine.set_led_state(cmd(LedState::On, Color::Red, 50, 0));
    let act = engine.set_led_state(cmd(LedState::On, Color::Blue, 50, 0));
    assert!(act.wrote);
    assert_eq!(engine.pixels()[0], Rgb { r: 0, g: 0, b: 255 });
}

#[test]
fn off_command_always_writes_dark() {
    let mut engine = LedController::new();
    engine.set_led_state(cmd(LedState::On, Color::Red, 50, 0));
    let act = engine.set_led_state(cmd(LedState::Off, Color::White, 1, 0));
    assert_eq!(act, EngineAction { wrote: true, sleep_ms: 0 });
    assert!(lit_indices(engine.pixels()).is_empty());
}

#[test]
fn rotate_initializes_base_pattern_then_shifts() {
    let mut engine = LedController::new();
    let rot = cmd(LedState::Rotate, Color::Blue, 50, 5);
    let init = engine.set_led_state(rot);
    assert_eq!(init, EngineAction { wrote: true, sleep_ms: 2000 });
    let expected: Vec<usize> = (0..NUMBER_OF_LEDS).step_by(2).collect();
    assert_eq!(lit_indices(engine.pixels()), expected);
    let step = engine.set_led_state(rot);
    assert_eq!(step, EngineAction { wrote: true, sleep_ms: 2000 });
    let shifted: Vec<usize> = (0..NUMBER_OF_LEDS).skip(1).step_by(2).collect();
    assert_eq!(lit_indices(engine.pixels()), shifted);
}

#[test]
fn rotate_full_cycle_returns_to_alignment() {
    let mut engine = LedController::new();
    let rot = cmd(LedState::Rotate, Color::Blue, 30, 5);
    engine.set_led_state(rot);
    let base = lit_indices(engine.pixels());
    for _ in 0..NUMBER_OF_LEDS {
        engine.set_led_state(rot);
    }
    assert_eq!(lit_indices(engine.pixels()), base);
}

#[test]
fn rotate_recolors_lit_pixels_without_resetting_phase() {
    let mut engine = LedController::new();
    engine.set_led_state(cmd(LedState::Rotate, Color::Blue, 50, 5));
    engine.set_led_state(cmd(LedState::Rotate, Color::Blue, 50, 5));
    let phase = lit_indices(engine.pixels());
    // Same percentage, new color: the phase stays, the color changes.
    engine.set_led_state(cmd(LedState::Rotate, Color::Red, 50, 5));
    let after = lit_indices(engine.pixels());
    assert_eq!(after.len(), phase.len());
    for i in after.iter() {
        assert_eq!(engine.pixels()[*i], Rgb { r: 255, g: 0, b: 0 });
    }
}

#[test]
fn rotate_percentage_change_reinitializes() {
    let mut engine = LedController::new();
    let rot = cmd(LedState::Rotate, Color::Blue, 50, 5);
    engine.set_led_state(rot);
    engine.set_led_state(rot);
    // New percentage: the base pattern is recomputed from phase zero.
    engine.set_led_state(cmd(LedState::Rotate, Color::Blue, 25, 5));
    let expected: Vec<usize> = (0..NUMBER_OF_LEDS).step_by(4).collect();
    assert_eq!(lit_indices(engine.pixels()), expected);
}

#[test]
fn rotate_speed_sets_tick_delay() {
    let mut engine = LedController::new();
    let act = engine.set_led_state(cmd(LedState::Rotate, Color::Blue, 50, 10));
    assert_eq!(act.sleep_ms, 1000);
    let act = engine.set_led_state(cmd(LedState::Rotate, Color::Blue, 50, 1));
    assert_eq!(act.sleep_ms, 10000);
}

#[test]
fn end_to_end_scenario() {
    let mut engine = LedController::new();
    // Starts off and dark.
    assert!(lit_indices(engine.pixels()).is_empty());
    // {On, Red, 50, 0}: pixels 0, 2, ..., 58 red, the rest dark.
    let act = engine.set_led_state(cmd(LedState::On, Color::Red, 50, 0));
    assert!(act.wrote);
    for i in 0..NUMBER_OF_LEDS {
        if i % 2 == 0 {
            assert_eq!(engine.pixels()[i], Rgb { r: 255, g: 0, b: 0 });
        } else {
            assert_eq!(engine.pixels()[i], Rgb { r: 0, g: 0, b: 0 });
        }
    }
    // The same command again: no second write, only the pacing sleep.
    let act = engine.set_led_state(cmd(LedState::On, Color::Red, 50, 0));
    assert_eq!(act, EngineAction { wrote: false, sleep_ms: 1000 });
    // {Rotate, Blue, 50, 5}: base pattern in blue at stride 2, ~2000 ms ticks.
    let act = engine.set_led_state(cmd(LedState::Rotate, Color::Blue, 50, 5));
    assert_eq!(act, EngineAction { wrote: true, sleep_ms: 2000 });
    assert_eq!(engine.pixels()[0], Rgb { r: 0, g: 0, b: 255 });
    let before = lit_indices(engine.pixels());
    let act = engine.set_led_state(cmd(LedState::Rotate, Color::Blue, 50, 5));
    assert_eq!(act.sleep_ms, 2000);
    let after = lit_indices(engine.pixels());
    assert_eq!(after, before.iter().map(|i| (i + 1) % NUMBER_OF_LEDS).collect::<Vec<_>>());
    // {Off}: all dark again.
    engine.set_led_state(cmd(LedState::Off, Color::White, 1, 0));
    assert!(lit_indices(engine.pixels()).is_empty());
}

#[test]
fn dark_frame_is_all_dark() {
    let frame = dark_frame();
    assert_eq!(frame.len(), NUMBER_OF_LEDS);
    assert!(lit_indices(&frame).is_empty());
}

#[test]
fn config_defaults() {
    let c = Config::default();
    assert_eq!(c.mqtt_port, 1884);
    assert_eq!(c.mqtt_topic, "led");
    assert!(c.wifi_name.is_empty());
    assert!(c.wifi_password.is_empty());
    assert!(c.mqtt_host.is_empty());
}

#[test]
fn command_validity() {
    assert!(command_is_valid(&cmd(LedState::On, Color::Red, 1, 0)));
    assert!(command_is_valid(&cmd(LedState::On, Color::Red, 100, 0)));
    assert!(!command_is_valid(&cmd(LedState::On, Color::Red, 0, 0)));
    assert!(!command_is_valid(&cmd(LedState::On, Color::Red, 101, 0)));
    assert!(!command_is_valid(&cmd(LedState::Rotate, Color::Red, 50, 0)));
    assert!(command_is_valid(&cmd(LedState::Rotate, Color::Red, 50, 1)));
}

#[test]
fn last_command_tracks_retained() {
    let mut engine = LedController::new();
    assert!(engine.last_command() == Led::default());
    let rot = cmd(LedState::Rotate, Color::Blue, 50, 5);
    engine.set_led_state(rot);
    assert!(engine.last_command() == rot);
    assert_eq!(engine.last_command().speed, 5);
}

#[test]
fn tick_advances_rotate_without_new_command() {
    let mut engine = LedController::new();
    engine.set_led_state(cmd(LedState::Rotate, Color::Blue, 50, 5));
    let before = lit_indices(engine.pixels());
    let act = engine.tick();
    assert_eq!(act, EngineAction { wrote: true, sleep_ms: 2000 });
    let after = lit_indices(engine.pixels());
    assert_eq!(after, before.iter().map(|i| (i + 1) % NUMBER_OF_LEDS).collect::<Vec<_>>());
}

#[test]
fn tick_in_on_mode_only_paces() {
    let mut engine = LedController::new();
    engine.set_led_state(cmd(LedState::On, Color::Red, 50, 0));
    let before = engine.pixels().clone();
    let act = engine.tick();
    assert_eq!(act, EngineAction { wrote: false, sleep_ms: 1000 });
    assert_eq!(engine.pixels(), &before);
}
