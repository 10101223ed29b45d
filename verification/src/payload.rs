//! Payload extraction and command decoding.
//!
//! The transport hands the listener a debug-formatted envelope: the whole
//! string is backslash-escaped and embeds the command text as
//! `data: Ok("<json>")`. Extraction strips every backslash, cuts the text
//! between the marker and the first closing `")`, and decodes the cut text
//! as a JSON object with exactly the members `led_state` (a mode name),
//! `color` (a palette name), `percentage` and `speed` (byte-sized numbers),
//! in any order, with any whitespace between tokens. A missing, repeated or
//! unknown member, a percentage outside [1, 100] and a zero speed on a
//! `Rotate` command are decode errors, so no command that could divide by
//! zero ever reaches the render engine. String escapes are not interpreted:
//! no mode or color name needs one, and a value holding one reads as an
//! unknown name, which is a decode error either way.

use vstd::prelude::*;
use vstd::slice::slice_to_vec;
use vstd::string::StringSliceAdditionalSpecFns;
use crate::led::{Color, Led, LedState, valid_command};
use crate::scan::{
    bytes_eq, digit_run_end, digits_spec, digits_value, escape_quotes_spec, find_from,
    find_pattern, lemma_digit_run_end_exact, lemma_digits_spec_value, lemma_find_from_skip,
    lemma_strip_clean, lemma_strip_concat, lemma_strip_escape, match_at, matches_at,
    number_at_spec, parse_u8_run, skip_ws, skip_ws_run, strip_backslashes,
    strip_backslashes_spec, subvec,
};

verus! {

/// Errors the extractor can report.
#[derive(Clone, Copy, Debug, PartialEq, Eq, Structural)]
pub enum PayloadError {
    /// The envelope is malformed: the `data: Ok("` marker or its closing
    /// `")` is missing.
    FormatError,
    /// The embedded text is not a valid command.
    DecodeError,
}

/// The envelope marker the payload sits behind: `data: Ok("`.
pub open spec fn marker_spec() -> Seq<u8> {
    seq![100u8, 97, 116, 97, 58, 32, 79, 107, 40, 34]
}

fn marker_vec() -> (v: Vec<u8>)
    ensures
        v@ == marker_spec(),
{
    let v: Vec<u8> = vec![100u8, 97, 116, 97, 58, 32, 79, 107, 40, 34];
    proof {
        assert(v@ =~= marker_spec());
    }
    v
}

/// The closing of the embedded payload: `")`.
pub open spec fn end_marker_spec() -> Seq<u8> {
    seq![34u8, 41]
}

fn end_marker_vec() -> (v: Vec<u8>)
    ensures
        v@ == end_marker_spec(),
{
    let v: Vec<u8> = vec![34u8, 41];
    proof {
        assert(v@ =~= end_marker_spec());
    }
    v
}

/// The first word of every inbound event that carries a command: `Received`.
pub open spec fn received_spec() -> Seq<u8> {
    seq![82u8, 101, 99, 101, 105, 118, 101, 100]
}

fn received_vec() -> (v: Vec<u8>)
    ensures
        v@ == received_spec(),
{
    let v: Vec<u8> = vec![82u8, 101, 99, 101, 105, 118, 101, 100];
    proof {
        assert(v@ =~= received_spec());
    }
    v
}

/// The member name `led_state`.
pub open spec fn key_led_state_spec() -> Seq<u8> {
    seq![108u8, 101, 100, 95, 115, 116, 97, 116, 101]
}

/// The member name `color`.
pub open spec fn key_color_spec() -> Seq<u8> {
    seq![99u8, 111, 108, 111, 114]
}

/// The member name `percentage`.
pub open spec fn key_percentage_spec() -> Seq<u8> {
    seq![112u8, 101, 114, 99, 101, 110, 116, 97, 103, 101]
}

/// The member name `speed`.
pub open spec fn key_speed_spec() -> Seq<u8> {
    seq![115u8, 112, 101, 101, 100]
}

fn key_vecs() -> (r: (Vec<u8>, Vec<u8>, Vec<u8>, Vec<u8>))
    ensures
        r.0@ == key_led_state_spec(),
        r.1@ == key_color_spec(),
        r.2@ == key_percentage_spec(),
        r.3@ == key_speed_spec(),
{
    let a: Vec<u8> = vec![108u8, 101, 100, 95, 115, 116, 97, 116, 101];
    let b: Vec<u8> = vec![99u8, 111, 108, 111, 114];
    let c: Vec<u8> = vec![112u8, 101, 114, 99, 101, 110, 116, 97, 103, 101];
    let d: Vec<u8> = vec![115u8, 112, 101, 101, 100];
    proof {
        assert(a@ =~= key_led_state_spec());
        assert(b@ =~= key_color_spec());
        assert(c@ =~= key_percentage_spec());
        assert(d@ =~= key_speed_spec());
    }
    (a, b, c, d)
}

/// The textual name of each mode on the wire.
pub open spec fn state_name_spec(st: LedState) -> Seq<u8> {
    match st {
        LedState::On => seq![79u8, 110],
        LedState::Rotate => seq![82u8, 111, 116, 97, 116, 101],
        LedState::Off => seq![79u8, 102, 102],
    }
}

/// The textual name of each palette color on the wire.
pub open spec fn color_name_spec(c: Color) -> Seq<u8> {
    match c {
        Color::White => seq![87u8, 104, 105, 116, 101],
        Color::Red => seq![82u8, 101, 100],
        Color::Green => seq![71u8, 114, 101, 101, 110],
        Color::Blue => seq![66u8, 108, 117, 101],
        Color::Purple => seq![80u8, 117, 114, 112, 108, 101],
        Color::Yellow => seq![89u8, 101, 108, 108, 111, 119],
    }
}

/// The mode a value name decodes to, if any.
pub open spec fn led_state_of_name(b: Seq<u8>) -> Option<LedState> {
    if b == state_name_spec(LedState::On) {
        Some(LedState::On)
    } else if b == state_name_spec(LedState::Rotate) {
        Some(LedState::Rotate)
    } else if b == state_name_spec(LedState::Off) {
        Some(LedState::Off)
    } else {
        None
    }
}

/// The color a value name decodes to, if any.
pub open spec fn color_of_name(b: Seq<u8>) -> Option<Color> {
    if b == color_name_spec(Color::White) {
        Some(Color::White)
    } else if b == color_name_spec(Color::Red) {
        Some(Color::Red)
    } else if b == color_name_spec(Color::Green) {
        Some(Color::Green)
    } else if b == color_name_spec(Color::Blue) {
        Some(Color::Blue)
    } else if b == color_name_spec(Color::Purple) {
        Some(Color::Purple)
    } else if b == color_name_spec(Color::Yellow) {
        Some(Color::Yellow)
    } else {
        None
    }
}

fn led_state_from_name(b: &Vec<u8>) -> (r: Option<LedState>)
    ensures
        r == led_state_of_name(b@),
{
    let on: Vec<u8> = vec![79u8, 110];
    let rotate: Vec<u8> = vec![82u8, 111, 116, 97, 116, 101];
    let off: Vec<u8> = vec![79u8, 102, 102];
    proof {
        assert(on@ =~= state_name_spec(LedState::On));
        assert(rotate@ =~= state_name_spec(LedState::Rotate));
        assert(off@ =~= state_name_spec(LedState::Off));
    }
    if bytes_eq(b, &on) {
        Some(LedState::On)
    } else if bytes_eq(b, &rotate) {
        Some(LedState::Rotate)
    } else if bytes_eq(b, &off) {
        Some(LedState::Off)
    } else {
        None
    }
}

fn color_from_name(b: &Vec<u8>) -> (r: Option<Color>)
    ensures
        r == color_of_name(b@),
{
    let white: Vec<u8> = vec![87u8, 104, 105, 116, 101];
    let red: Vec<u8> = vec![82u8, 101, 100];
    let green: Vec<u8> = vec![71u8, 114, 101, 101, 110];
    let blue: Vec<u8> = vec![66u8, 108, 117, 101];
    let purple: Vec<u8> = vec![80u8, 117, 114, 112, 108, 101];
    let yellow: Vec<u8> = vec![89u8, 101, 108, 108, 111, 119];
    proof {
        assert(white@ =~= color_name_spec(Color::White));
        assert(red@ =~= color_name_spec(Color::Red));
        assert(green@ =~= color_name_spec(Color::Green));
        assert(blue@ =~= color_name_spec(Color::Blue));
        assert(purple@ =~= color_name_spec(Color::Purple));
        assert(yellow@ =~= color_name_spec(Color::Yellow));
    }
    if bytes_eq(b, &white) {
        Some(Color::White)
    } else if bytes_eq(b, &red) {
        Some(Color::Red)
    } else if bytes_eq(b, &green) {
        Some(Color::Green)
    } else if bytes_eq(b, &blue) {
        Some(Color::Blue)
    } else if bytes_eq(b, &purple) {
        Some(Color::Purple)
    } else if bytes_eq(b, &yellow) {
        Some(Color::Yellow)
    } else {
        None
    }
}

/// A string value at `v0`: an opening quote, the raw bytes up to the next
/// quote, and the position after that quote. Escapes are not interpreted.
pub open spec fn string_value_at(s: Seq<u8>, v0: int) -> Option<(int, Seq<u8>)> {
    if !(0 <= v0 < s.len() && s[v0] == 34) {
        None
    } else {
        match find_from(s, seq![34u8], v0 + 1) {
            None => None,
            Some(v1) => Some((v1 + 1, s.subrange(v0 + 1, v1))),
        }
    }
}

/// The fields gathered while reading an object's members.
pub struct Members {
    pub st: Option<LedState>,
    pub col: Option<Color>,
    pub pct: Option<u8>,
    pub spd: Option<u8>,
}

/// One `"name": value` member at `i`, tolerating whitespace around every
/// token. Yields the position just after the value and the updated fields;
/// `None` on an unknown name, a repeated name, or a malformed member.
pub open spec fn parse_member(s: Seq<u8>, i: int, m: Members) -> Option<(int, Members)> {
    let k0 = skip_ws(s, i);
    if !(k0 < s.len() && s[k0] == 34) {
        None
    } else {
        match find_from(s, seq![34u8], k0 + 1) {
            None => None,
            Some(k1) => {
                let key = s.subrange(k0 + 1, k1);
                let c0 = skip_ws(s, k1 + 1);
                if !(c0 < s.len() && s[c0] == 58) {
                    None
                } else {
                    let v0 = skip_ws(s, c0 + 1);
                    if key == key_led_state_spec() {
                        if m.st is Some {
                            None
                        } else {
                            match string_value_at(s, v0) {
                                None => None,
                                Some((ve, name)) => match led_state_of_name(name) {
                                    None => None,
                                    Some(st) => Some((ve, Members { st: Some(st), ..m })),
                                },
                            }
                        }
                    } else if key == key_color_spec() {
                        if m.col is Some {
                            None
                        } else {
                            match string_value_at(s, v0) {
                                None => None,
                                Some((ve, name)) => match color_of_name(name) {
                                    None => None,
                                    Some(col) => Some((ve, Members { col: Some(col), ..m })),
                                },
                            }
                        }
                    } else if key == key_percentage_spec() {
                        if m.pct is Some {
                            None
                        } else {
                            match number_at_spec(s, v0) {
                                None => None,
                                Some(n) => Some(
                                    (digit_run_end(s, v0), Members { pct: Some(n), ..m }),
                                ),
                            }
                        }
                    } else if key == key_speed_spec() {
                        if m.spd is Some {
                            None
                        } else {
                            match number_at_spec(s, v0) {
                                None => None,
                                Some(n) => Some(
                                    (digit_run_end(s, v0), Members { spd: Some(n), ..m }),
                                ),
                            }
                        }
                    } else {
                        None
                    }
                }
            },
        }
    }
}

/// The members from `i` to the object's closing brace. Any fifth member
/// would repeat or miss a name, which is already malformed, so reading
/// stops there whatever follows.
pub open spec fn parse_members(s: Seq<u8>, i: int, m: Members, fuel: nat) -> Option<(int, Members)>
    decreases fuel,
{
    match parse_member(s, i, m) {
        None => None,
        Some((ve, m2)) => {
            let t0 = skip_ws(s, ve);
            if !(0 <= t0 < s.len()) {
                None
            } else if s[t0] == 44 {
                if fuel == 0 {
                    None
                } else {
                    parse_members(s, t0 + 1, m2, (fuel - 1) as nat)
                }
            } else if s[t0] == 125 {
                Some((t0 + 1, m2))
            } else {
                None
            }
        },
    }
}

/// The structural reading of the wire format: one JSON object holding the
/// four members, in any order, with any whitespace between tokens, and
/// nothing but whitespace after it. `None` wherever the text deviates.
pub open spec fn parse_command_spec(s: Seq<u8>) -> Option<Led> {
    let i0 = skip_ws(s, 0);
    if !(i0 < s.len() && s[i0] == 123) {
        None
    } else {
        match parse_members(s, i0 + 1, Members { st: None, col: None, pct: None, spd: None }, 3) {
            None => None,
            Some((end, m)) => if skip_ws(s, end) != s.len() {
                None
            } else {
                match (m.st, m.col, m.pct, m.spd) {
                    (Some(st), Some(col), Some(pct), Some(spd)) => Some(
                        Led { led_state: st, color: col, percentage: pct, speed: spd },
                    ),
                    _ => None,
                }
            },
        }
    }
}

/// The command a well-formed text decodes to: the structural reading,
/// kept only when it is a command the engine accepts (percentage in
/// [1, 100], nonzero speed for `Rotate`).
pub open spec fn decoded_command_spec(s: Seq<u8>) -> Option<Led> {
    match parse_command_spec(s) {
        Some(led) => if valid_command(led) {
            Some(led)
        } else {
            None
        },
        None => None,
    }
}

/// Decodes extracted payload text into a command.
pub fn parse_command(content: &Vec<u8>) -> (r: Option<Led>)
    ensures
        r == decoded_command_spec(content@),
        r matches Some(led) ==> valid_command(led),
{
    let n: usize = content.len();
    let i0 = skip_ws_run(content, 0);
    if !(i0 < n && content[i0] == 123) {
        proof {
            assert(parse_command_spec(content@) is None);
        }
        return None;
    }
    let quote: Vec<u8> = vec![34u8];
    proof {
        assert(quote@ =~= seq![34u8]);
    }
    let (key_st, key_col, key_pct, key_spd) = key_vecs();
    let mut m = Members { st: None, col: None, pct: None, spd: None };
    let mut i: usize = i0 + 1;
    let mut fuel: u8 = 3;
    let mut end: usize = 0;
    loop
        invariant_except_break
            parse_members(
                content@,
                (i0 + 1) as int,
                (Members { st: None, col: None, pct: None, spd: None }),
                3nat,
            ) == parse_members(content@, i as int, m, fuel as nat),
        invariant
            n == content@.len(),
            i0 == skip_ws(content@, 0),
            i0 < n && content@[i0 as int] == 123,
            quote@ == seq![34u8],
            key_st@ == key_led_state_spec(),
            key_col@ == key_color_spec(),
            key_pct@ == key_percentage_spec(),
            key_spd@ == key_speed_spec(),
            i <= n,
            fuel <= 3,
        ensures
            end <= n,
            parse_members(
                content@,
                (i0 + 1) as int,
                (Members { st: None, col: None, pct: None, spd: None }),
                3nat,
            ) == Some((end as int, m)),
        decreases fuel,
    {
        let ghost m0 = m;
        let k0 = skip_ws_run(content, i);
        if !(k0 < n && content[k0] == 34) {
            proof {
                assert(parse_member(content@, i as int, m) is None);
                assert(parse_members(content@, i as int, m, fuel as nat) is None);
                assert(parse_command_spec(content@) is None);
            }
            return None;
        }
        let k1: usize = match find_pattern(content, &quote, k0 + 1) {
            None => {
                proof {
                    assert(parse_member(content@, i as int, m) is None);
                    assert(parse_members(content@, i as int, m, fuel as nat) is None);
                    assert(parse_command_spec(content@) is None);
                }
                return None;
            },
            Some(k) => k,
        };
        proof {
            crate::scan::lemma_find_from_first(content@, seq![34u8], (k0 + 1) as int);
        }
        let key = subvec(content, k0 + 1, k1);
        let c0 = skip_ws_run(content, k1 + 1);
        if !(c0 < n && content[c0] == 58) {
            proof {
                assert(parse_member(content@, i as int, m) is None);
                assert(parse_members(content@, i as int, m, fuel as nat) is None);
                assert(parse_command_spec(content@) is None);
            }
            return None;
        }
        let v0 = skip_ws_run(content, c0 + 1);
        let ve: usize;
        if bytes_eq(&key, &key_st) {
            if m.st.is_some() {
                proof {
                    assert(parse_member(content@, i as int, m) is None);
                    assert(parse_members(content@, i as int, m, fuel as nat) is None);
                    assert(parse_command_spec(content@) is None);
                }
                return None;
            }
            if !(v0 < n && content[v0] == 34) {
                proof {
                    assert(parse_member(content@, i as int, m) is None);
                    assert(parse_members(content@, i as int, m, fuel as nat) is None);
                    assert(parse_command_spec(content@) is None);
                }
                return None;
            }
            let v1: usize = match find_pattern(content, &quote, v0 + 1) {
                None => {
                    proof {
                        assert(parse_member(content@, i as int, m) is None);
                        assert(parse_members(content@, i as int, m, fuel as nat) is None);
                        assert(parse_command_spec(content@) is None);
                    }
                    return None;
                },
                Some(v) => v,
            };
            proof {
                crate::scan::lemma_find_from_first(content@, seq![34u8], (v0 + 1) as int);
                assert(string_value_at(content@, v0 as int) == Some(
                    ((v1 + 1) as int, content@.subrange((v0 + 1) as int, v1 as int)),
                ));
            }
            let name = subvec(content, v0 + 1, v1);
            match led_state_from_name(&name) {
                None => {
                    proof {
                        assert(parse_member(content@, i as int, m) is None);
                        assert(parse_members(content@, i as int, m, fuel as nat) is None);
                        assert(parse_command_spec(content@) is None);
                    }
                    return None;
                },
                Some(x) => {
                    m = Members { st: Some(x), ..m };
                },
            }
            ve = v1 + 1;
        } else if bytes_eq(&key, &key_col) {
            if m.col.is_some() {
                proof {
                    assert(parse_member(content@, i as int, m) is None);
                    assert(parse_members(content@, i as int, m, fuel as nat) is None);
                    assert(parse_command_spec(content@) is None);
                }
                return None;
            }
            if !(v0 < n && content[v0] == 34) {
                proof {
                    assert(parse_member(content@, i as int, m) is None);
                    assert(parse_members(content@, i as int, m, fuel as nat) is None);
                    assert(parse_command_spec(content@) is None);
                }
                return None;
            }
            let v1: usize = match find_pattern(content, &quote, v0 + 1) {
                None => {
                    proof {
                        assert(parse_member(content@, i as int, m) is None);
                        assert(parse_members(content@, i as int, m, fuel as nat) is None);
                        assert(parse_command_spec(content@) is None);
                    }
                    return None;
                },
                Some(v) => v,
            };
            proof {
                crate::scan::lemma_find_from_first(content@, seq![34u8], (v0 + 1) as int);
                assert(string_value_at(content@, v0 as int) == Some(
                    ((v1 + 1) as int, content@.subrange((v0 + 1) as int, v1 as int)),
                ));
            }
            let name = subvec(content, v0 + 1, v1);
            match color_from_name(&name) {
                None => {
                    proof {
                        assert(parse_member(content@, i as int, m) is None);
                        assert(parse_members(content@, i as int, m, fuel as nat) is None);
                        assert(parse_command_spec(content@) is None);
                    }
                    return None;
                },
                Some(x) => {
                    m = Members { col: Some(x), ..m };
                },
            }
            ve = v1 + 1;
        } else if bytes_eq(&key, &key_pct) {
            if m.pct.is_some() {
                proof {
                    assert(parse_member(content@, i as int, m) is None);
                    assert(parse_members(content@, i as int, m, fuel as nat) is None);
                    assert(parse_command_spec(content@) is None);
                }
                return None;
            }
            let (e, nopt) = parse_u8_run(content, v0);
            let nv: u8 = match nopt {
                None => {
                    proof {
                        assert(parse_member(content@, i as int, m) is None);
                        assert(parse_members(content@, i as int, m, fuel as nat) is None);
                        assert(parse_command_spec(content@) is None);
                    }
                    return None;
                },
                Some(x) => x,
            };
            m = Members { pct: Some(nv), ..m };
            ve = e;
        } else if bytes_eq(&key, &key_spd) {
            if m.spd.is_some() {
                proof {
                    assert(parse_member(content@, i as int, m) is None);
                    assert(parse_members(content@, i as int, m, fuel as nat) is None);
                    assert(parse_command_spec(content@) is None);
                }
                return None;
            }
            let (e, nopt) = parse_u8_run(content, v0);
            let nv: u8 = match nopt {
                None => {
                    proof {
                        assert(parse_member(content@, i as int, m) is None);
                        assert(parse_members(content@, i as int, m, fuel as nat) is None);
                        assert(parse_command_spec(content@) is None);
                    }
                    return None;
                },
                Some(x) => x,
            };
            m = Members { spd: Some(nv), ..m };
            ve = e;
        } else {
            proof {
                assert(parse_member(content@, i as int, m) is None);
                assert(parse_members(content@, i as int, m, fuel as nat) is None);
                assert(parse_command_spec(content@) is None);
            }
            return None;
        }
        proof {
            assert(parse_member(content@, i as int, m0) == Some((ve as int, m)));
        }
        let t0 = skip_ws_run(content, ve);
        if t0 >= n {
            proof {
                assert(parse_members(content@, i as int, m0, fuel as nat) is None);
                assert(parse_command_spec(content@) is None);
            }
            return None;
        }
        if content[t0] == 44 {
            if fuel == 0 {
                proof {
                    assert(parse_members(content@, i as int, m0, fuel as nat) is None);
                    assert(parse_command_spec(content@) is None);
                }
                return None;
            }
            proof {
                assert(parse_members(content@, i as int, m0, fuel as nat) == parse_members(
                    content@,
                    (t0 + 1) as int,
                    m,
                    (fuel - 1) as nat,
                ));
            }
            i = t0 + 1;
            fuel = fuel - 1;
        } else if content[t0] == 125 {
            proof {
                assert(parse_members(content@, i as int, m0, fuel as nat) == Some(
                    ((t0 + 1) as int, m),
                ));
            }
            end = t0 + 1;
            break;
        } else {
            proof {
                assert(parse_members(content@, i as int, m0, fuel as nat) is None);
                assert(parse_command_spec(content@) is None);
            }
            return None;
        }
    }
    let fin = skip_ws_run(content, end);
    if fin != n {
        proof {
            assert(parse_command_spec(content@) is None);
        }
        return None;
    }
    match (m.st, m.col, m.pct, m.spd) {
        (Some(st), Some(col), Some(pct), Some(spd)) => {
            let led = Led { led_state: st, color: col, percentage: pct, speed: spd };
            proof {
                assert(parse_command_spec(content@) == Some(led));
            }
            if crate::led::command_is_valid(&led) {
                Some(led)
            } else {
                None
            }
        },
        _ => {
            proof {
                assert(parse_command_spec(content@) is None);
            }
            None
        },
    }
}

/// What extraction yields on a raw event string: the text standing between
/// the first `data: Ok("` after backslash-stripping and the first `")`
/// after it, if both are present.
pub open spec fn extract_content_spec(raw: Seq<u8>) -> Option<Seq<u8>> {
    let t = strip_backslashes_spec(raw);
    match find_from(t, marker_spec(), 0) {
        None => None,
        Some(i) => match find_from(t, end_marker_spec(), i + marker_spec().len()) {
            None => None,
            Some(e) => Some(t.subrange(i + marker_spec().len(), e)),
        },
    }
}

/// Parses a raw inbound event string into a command.
///
/// The envelope is cut as [`extract_content_spec`] says; a missing marker
/// or closing is a `FormatError`. The embedded text is then decoded as
/// [`decoded_command_spec`] says; any deviation from the object grammar, an
/// unknown mode or color name, a percentage outside [1, 100] or a `Rotate`
/// with speed zero is a `DecodeError`. No other outcome exists: on every
/// other input the decoded command is returned.
pub fn extract_and_parse_payload(payload: &str) -> (r: Result<Led, PayloadError>)
    ensures
        (match extract_content_spec(payload.spec_bytes()) {
            None => r == Err::<Led, PayloadError>(PayloadError::FormatError),
            Some(c) => match decoded_command_spec(c) {
                Some(led) => r == Ok::<Led, PayloadError>(led),
                None => r == Err::<Led, PayloadError>(PayloadError::DecodeError),
            },
        }),
        r matches Ok(led) ==> valid_command(led),
{
    let raw = slice_to_vec(payload.as_bytes());
    let stripped = strip_backslashes(&raw);
    let _stripped_len: usize = stripped.len();
    let marker = marker_vec();
    let i: usize = match find_pattern(&stripped, &marker, 0) {
        None => {
            return Err(PayloadError::FormatError);
        },
        Some(i) => i,
    };
    proof {
        crate::scan::lemma_find_from_first(stripped@, marker_spec(), 0);
    }
    let start: usize = i + marker.len();
    let endpat = end_marker_vec();
    let e: usize = match find_pattern(&stripped, &endpat, start) {
        None => {
            return Err(PayloadError::FormatError);
        },
        Some(e) => e,
    };
    proof {
        crate::scan::lemma_find_from_first(stripped@, end_marker_spec(), start as int);
    }
    let content = subvec(&stripped, start, e);
    match parse_command(&content) {
        Some(led) => Ok(led),
        None => Err(PayloadError::DecodeError),
    }
}

/// Whether an inbound event's textual form begins with the marker word the
/// listener filters on before attempting extraction.
pub fn is_command_event(payload: &str) -> (r: bool)
    ensures
        r == matches_at(payload.spec_bytes(), received_spec(), 0),
{
    let raw = slice_to_vec(payload.as_bytes());
    let m = received_vec();
    match_at(&raw, &m, 0)
}

/// Up to the mode value of the canonical text: `{"led_state":"`.
pub open spec fn enc_head_spec() -> Seq<u8> {
    seq![123u8, 34, 108, 101, 100, 95, 115, 116, 97, 116, 101, 34, 58, 34]
}

/// Between the mode value and the color value of the canonical text: `","color":"`.
pub open spec fn enc_color_spec() -> Seq<u8> {
    seq![34u8, 44, 34, 99, 111, 108, 111, 114, 34, 58, 34]
}

/// Between the color value and the percentage digits of the canonical text: `","percentage":`.
pub open spec fn enc_percentage_spec() -> Seq<u8> {
    seq![34u8, 44, 34, 112, 101, 114, 99, 101, 110, 116, 97, 103, 101, 34, 58]
}

/// Between the percentage digits and the speed digits of the canonical text: `,"speed":`.
pub open spec fn enc_speed_spec() -> Seq<u8> {
    seq![44u8, 34, 115, 112, 101, 101, 100, 34, 58]
}

/// The canonical text of a command: the compact JSON spelling, members in
/// declaration order, no whitespace — what a standard JSON serializer
/// emits for it.
pub open spec fn encode_command_spec(led: Led) -> Seq<u8> {
    enc_head_spec() + state_name_spec(led.led_state) + enc_color_spec() + color_name_spec(
        led.color,
    ) + enc_percentage_spec() + digits_spec(led.percentage) + enc_speed_spec() + digits_spec(
        led.speed,
    ) + seq![125u8]
}

/// A well-formed wrapped event: the envelope marker, the escaped command
/// text, and the closing, as the transport's debug formatting produces it.
pub open spec fn wrap_payload_spec(led: Led) -> Seq<u8> {
    marker_spec() + escape_quotes_spec(encode_command_spec(led)) + end_marker_spec()
}

/// Name tables are injective on the wire: each mode name decodes back to
/// its mode, and no mode name holds a quote byte.
proof fn lemma_state_of_name(st: LedState)
    ensures
        led_state_of_name(state_name_spec(st)) == Some(st),
        forall|k: int|
            0 <= k < state_name_spec(st).len() ==> #[trigger] state_name_spec(st)[k] != 34,
{
    assert(state_name_spec(LedState::On).len() == 2);
    assert(state_name_spec(LedState::Rotate).len() == 6);
    assert(state_name_spec(LedState::Off).len() == 3);
    match st {
        LedState::On => {
        },
        LedState::Rotate => {
        },
        LedState::Off => {
        },
    }
}

/// Each color name decodes back to its color, and no color name holds a
/// quote byte.
proof fn lemma_color_of_name(c: Color)
    ensures
        color_of_name(color_name_spec(c)) == Some(c),
        forall|k: int|
            0 <= k < color_name_spec(c).len() ==> #[trigger] color_name_spec(c)[k] != 34,
{
    assert(color_name_spec(Color::White).len() == 5);
    assert(color_name_spec(Color::Red).len() == 3);
    assert(color_name_spec(Color::Green).len() == 5);
    assert(color_name_spec(Color::Blue).len() == 4);
    assert(color_name_spec(Color::Purple).len() == 6);
    assert(color_name_spec(Color::Yellow).len() == 6);
    assert(color_name_spec(Color::Green)[0] == 71);
    assert(color_name_spec(Color::White)[0] == 87);
    assert(color_name_spec(Color::Yellow)[0] == 89);
    assert(color_name_spec(Color::Purple)[0] == 80);
    match c {
        Color::White => {
        },
        Color::Red => {
        },
        Color::Green => {
        },
        Color::Blue => {
        },
        Color::Purple => {
        },
        Color::Yellow => {
        },
    }
}

/// Where each piece of the canonical text stands within it.
#[verifier::rlimit(80)]
proof fn lemma_encode_segments(led: Led)
    ensures
        ({
            let e = encode_command_spec(led);
            let sn = state_name_spec(led.led_state);
            let cn = color_name_spec(led.color);
            let dp = digits_spec(led.percentage);
            let ds = digits_spec(led.speed);
            let q1 = 14 + sn.len() as int;
            let p2 = q1 + 11;
            let q2 = p2 + cn.len();
            let p3 = q2 + 15;
            let e3 = p3 + dp.len();
            let p4 = e3 + 9;
            let e4 = p4 + ds.len();
            e.len() == e4 + 1 && e.subrange(0, 14) == enc_head_spec() && e.subrange(14, q1)
                == sn && e.subrange(q1, p2) == enc_color_spec() && e.subrange(p2, q2 as int) == cn
                && e.subrange(q2 as int, p3 as int) == enc_percentage_spec() && e.subrange(
                p3 as int,
                e3 as int,
            ) == dp && e.subrange(e3 as int, p4 as int) == enc_speed_spec() && e.subrange(
                p4 as int,
                e4 as int,
            ) == ds && e[e4 as int] == 125
        }),
{
    let e = encode_command_spec(led);
    let sn = state_name_spec(led.led_state);
    let cn = color_name_spec(led.color);
    let dp = digits_spec(led.percentage);
    let ds = digits_spec(led.speed);
    let q1 = 14 + sn.len() as int;
    let p2 = q1 + 11;
    let q2 = p2 + cn.len() as int;
    let p3 = q2 + 15;
    let e3 = p3 + dp.len() as int;
    let p4 = e3 + 9;
    let e4 = p4 + ds.len() as int;
    assert(enc_head_spec().len() == 14);
    assert(enc_color_spec().len() == 11);
    assert(enc_percentage_spec().len() == 15);
    assert(enc_speed_spec().len() == 9);
    let t2 = enc_head_spec() + sn;
    let t3 = t2 + enc_color_spec();
    let t4 = t3 + cn;
    let t5 = t4 + enc_percentage_spec();
    let t6 = t5 + dp;
    let t7 = t6 + enc_speed_spec();
    let t8 = t7 + ds;
    assert(e =~= t8 + seq![125u8]);
    assert(e.len() == e4 + 1);
    assert(e.subrange(0, 14) =~= enc_head_spec());
    assert(e.subrange(14, q1) =~= sn);
    assert(e.subrange(q1, p2) =~= enc_color_spec());
    assert(e.subrange(p2, q2) =~= cn);
    assert(e.subrange(q2, p3) =~= enc_percentage_spec());
    assert(e.subrange(p3, e3) =~= dp);
    assert(e.subrange(e3, p4) =~= enc_speed_spec());
    assert(e.subrange(p4, e4) =~= ds);
    assert(e[e4] == 125);
}

/// No byte of the canonical text is a backslash or a closing parenthesis,
/// so escaping and envelope scanning cannot cut it short.
#[verifier::rlimit(100)]
proof fn lemma_encode_clean(led: Led)
    ensures
        forall|k: int|
            0 <= k < encode_command_spec(led).len() ==> #[trigger] encode_command_spec(led)[k]
                != 92 && encode_command_spec(led)[k] != 41,
{
    let e = encode_command_spec(led);
    let sn = state_name_spec(led.led_state);
    let cn = color_name_spec(led.color);
    let dp = digits_spec(led.percentage);
    let ds = digits_spec(led.speed);
    let q1 = 14 + sn.len() as int;
    let p2 = q1 + 11;
    let q2 = p2 + cn.len() as int;
    let p3 = q2 + 15;
    let e3 = p3 + dp.len() as int;
    let p4 = e3 + 9;
    let e4 = p4 + ds.len() as int;
    lemma_encode_segments(led);
    lemma_digits_spec_value(led.percentage);
    lemma_digits_spec_value(led.speed);
    assert(forall|t: int|
        0 <= t < 14 ==> #[trigger] enc_head_spec()[t] != 92 && enc_head_spec()[t] != 41);
    assert(forall|t: int|
        0 <= t < 11 ==> #[trigger] enc_color_spec()[t] != 92 && enc_color_spec()[t] != 41);
    assert(forall|t: int|
        0 <= t < 15 ==> #[trigger] enc_percentage_spec()[t] != 92 && enc_percentage_spec()[t]
            != 41);
    assert(forall|t: int|
        0 <= t < 9 ==> #[trigger] enc_speed_spec()[t] != 92 && enc_speed_spec()[t] != 41);
    match led.led_state {
        LedState::On => {
            assert(forall|t: int| 0 <= t < sn.len() ==> #[trigger] sn[t] != 92 && sn[t] != 41);
        },
        LedState::Rotate => {
            assert(forall|t: int| 0 <= t < sn.len() ==> #[trigger] sn[t] != 92 && sn[t] != 41);
        },
        LedState::Off => {
            assert(forall|t: int| 0 <= t < sn.len() ==> #[trigger] sn[t] != 92 && sn[t] != 41);
        },
    }
    match led.color {
        Color::White => {
            assert(forall|t: int| 0 <= t < cn.len() ==> #[trigger] cn[t] != 92 && cn[t] != 41);
        },
        Color::Red => {
            assert(forall|t: int| 0 <= t < cn.len() ==> #[trigger] cn[t] != 92 && cn[t] != 41);
        },
        Color::Green => {
            assert(forall|t: int| 0 <= t < cn.len() ==> #[trigger] cn[t] != 92 && cn[t] != 41);
        },
        Color::Blue => {
            assert(forall|t: int| 0 <= t < cn.len() ==> #[trigger] cn[t] != 92 && cn[t] != 41);
        },
        Color::Purple => {
            assert(forall|t: int| 0 <= t < cn.len() ==> #[trigger] cn[t] != 92 && cn[t] != 41);
        },
        Color::Yellow => {
            assert(forall|t: int| 0 <= t < cn.len() ==> #[trigger] cn[t] != 92 && cn[t] != 41);
        },
    }
    assert forall|k: int| 0 <= k < e.len() implies (#[trigger] e[k]) != 92 && e[k] != 41 by {
        if k < 14 {
            assert(e.subrange(0, 14)[k] == e[k]);
        } else if k < q1 {
            assert(e.subrange(14, q1)[k - 14] == e[k]);
        } else if k < p2 {
            assert(e.subrange(q1, p2)[k - q1] == e[k]);
        } else if k < q2 {
            assert(e.subrange(p2, q2)[k - p2] == e[k]);
        } else if k < p3 {
            assert(e.subrange(q2, p3)[k - q2] == e[k]);
        } else if k < e3 {
            assert(e.subrange(p3, e3)[k - p3] == e[k]);
            assert(48 <= dp[k - p3] <= 57);
        } else if k < p4 {
            assert(e.subrange(e3, p4)[k - e3] == e[k]);
        } else if k < e4 {
            assert(e.subrange(p4, e4)[k - p4] == e[k]);
            assert(48 <= ds[k - p4] <= 57);
        } else {
            assert(k == e4);
        }
    };
}

/// In a region free of quote bytes that a quote closes, the quote search
/// lands exactly on the closing quote.
proof fn lemma_quote_free_region(s: Seq<u8>, a: int, b: int)
    requires
        0 <= a <= b,
        b + 1 <= s.len(),
        forall|j: int| a <= j < b ==> #[trigger] s[j] != 34,
        s[b] == 34,
    ensures
        find_from(s, seq![34u8], a) == Some(b),
{
    assert forall|j: int| a <= j < b implies !matches_at(s, seq![34u8], j) by {
        assert(seq![34u8][0] == 34);
        assert(s[j] != 34);
    };
    lemma_find_from_skip(s, seq![34u8], a, b);
    assert(matches_at(s, seq![34u8], b)) by {
        assert forall|k: int| 0 <= k < 1 implies s[b + k] == seq![34u8][k] by {
            assert(seq![34u8][0] == 34);
        };
    };
    assert(find_from(s, seq![34u8], b) == Some(b));
}


/// Reading the canonical text's mode member.
#[verifier::rlimit(100)]
proof fn lemma_member_state(led: Led)
    ensures
        ({
            let q1 = 14 + state_name_spec(led.led_state).len() as int;
            parse_member(
                encode_command_spec(led),
                1,
                (Members { st: None, col: None, pct: None, spd: None }),
            ) == Some(
                (
                    q1 + 1,
                    (Members { st: Some(led.led_state), col: None, pct: None, spd: None }),
                ),
            )
        }),
{
    let e = encode_command_spec(led);
    let sn = state_name_spec(led.led_state);
    let cn = color_name_spec(led.color);
    let dp = digits_spec(led.percentage);
    let ds = digits_spec(led.speed);
    let q1 = 14 + sn.len() as int;
    let p2 = q1 + 11;
    let q2 = p2 + cn.len() as int;
    let p3 = q2 + 15;
    let e3 = p3 + dp.len() as int;
    let p4 = e3 + 9;
    let e4 = p4 + ds.len() as int;
    lemma_encode_segments(led);
    lemma_state_of_name(led.led_state);
    assert forall|t: int| 0 <= t < 14 implies #[trigger] e[t] == enc_head_spec()[t] by {
        assert(e.subrange(0, 14)[t] == e[t]);
    };
    assert(e[1] == 34);
    assert(skip_ws(e, 1) == 1);
    assert forall|j: int| 2 <= j < 11 implies #[trigger] e[j] != 34 by {
        assert(e[j] == enc_head_spec()[j]);
    };
    assert(e[11] == 34);
    lemma_quote_free_region(e, 2, 11);
    assert(e.subrange(2, 11) =~= key_led_state_spec());
    assert(e[12] == 58);
    assert(skip_ws(e, 12) == 12);
    assert(e[13] == 34);
    assert(skip_ws(e, 13) == 13);
    assert forall|j: int| 14 <= j < q1 implies #[trigger] e[j] != 34 by {
        assert(e.subrange(14, q1)[j - 14] == e[j]);
        assert(sn[j - 14] != 34);
    };
    assert(e.subrange(q1, p2)[0] == e[q1]);
    assert(e[q1] == 34);
    lemma_quote_free_region(e, 14, q1);
    assert(string_value_at(e, 13) == Some((q1 + 1, sn)));
}

/// Reading the canonical text's color member.
#[verifier::rlimit(100)]
proof fn lemma_member_color(led: Led)
    ensures
        ({
            let q1 = 14 + state_name_spec(led.led_state).len() as int;
            let q2 = q1 + 11 + color_name_spec(led.color).len() as int;
            parse_member(
                encode_command_spec(led),
                q1 + 2,
                (Members { st: Some(led.led_state), col: None, pct: None, spd: None }),
            ) == Some(
                (
                    q2 + 1,
                    (
                        Members {
                            st: Some(led.led_state),
                            col: Some(led.color),
                            pct: None,
                            spd: None,
                        }
                    ),
                ),
            )
        }),
{
    let e = encode_command_spec(led);
    let sn = state_name_spec(led.led_state);
    let cn = color_name_spec(led.color);
    let dp = digits_spec(led.percentage);
    let ds = digits_spec(led.speed);
    let q1 = 14 + sn.len() as int;
    let p2 = q1 + 11;
    let q2 = p2 + cn.len() as int;
    let p3 = q2 + 15;
    let e3 = p3 + dp.len() as int;
    let p4 = e3 + 9;
    let e4 = p4 + ds.len() as int;
    lemma_encode_segments(led);
    lemma_digits_spec_value(led.percentage);
    lemma_digits_spec_value(led.speed);
    assert(sn.len() >= 2);
    assert(cn.len() >= 3);
    lemma_color_of_name(led.color);
    assert forall|t: int| 0 <= t < 11 implies #[trigger] e[q1 + t] == enc_color_spec()[t] by {
        assert(e.subrange(q1, p2)[t] == e[q1 + t]);
    };
    assert(e[q1 + 2] == 34);
    assert(skip_ws(e, q1 + 2) == q1 + 2);
    assert forall|j: int| q1 + 3 <= j < q1 + 8 implies #[trigger] e[j] != 34 by {
        assert(e[j] == enc_color_spec()[j - q1]);
    };
    assert(e[q1 + 8] == 34);
    lemma_quote_free_region(e, q1 + 3, q1 + 8);
    assert(e.subrange(q1 + 3, q1 + 8) =~= key_color_spec());
    assert(key_color_spec().len() == 5);
    assert(key_led_state_spec().len() == 9);
    assert(e[q1 + 9] == 58);
    assert(skip_ws(e, q1 + 9) == q1 + 9);
    assert(e[q1 + 10] == 34);
    assert(skip_ws(e, q1 + 10) == q1 + 10);
    assert forall|j: int| p2 <= j < q2 implies #[trigger] e[j] != 34 by {
        assert(e.subrange(p2, q2)[j - p2] == e[j]);
        assert(cn[j - p2] != 34);
    };
    assert(e.subrange(q2, p3)[0] == e[q2]);
    assert(e[q2] == 34);
    lemma_quote_free_region(e, p2, q2);
    assert(string_value_at(e, q1 + 10) == Some((q2 + 1, cn)));
}

/// Reading the canonical text's percentage member.
#[verifier::rlimit(100)]
proof fn lemma_member_percentage(led: Led)
    requires
        valid_command(led),
    ensures
        ({
            let q1 = 14 + state_name_spec(led.led_state).len() as int;
            let q2 = q1 + 11 + color_name_spec(led.color).len() as int;
            let e3 = q2 + 15 + digits_spec(led.percentage).len() as int;
            parse_member(
                encode_command_spec(led),
                q2 + 2,
                (
                    Members {
                        st: Some(led.led_state),
                        col: Some(led.color),
                        pct: None,
                        spd: None,
                    }
                ),
            ) == Some(
                (
                    e3,
                    (
                        Members {
                            st: Some(led.led_state),
                            col: Some(led.color),
                            pct: Some(led.percentage),
                            spd: None,
                        }
                    ),
                ),
            )
        }),
{
    let e = encode_command_spec(led);
    let sn = state_name_spec(led.led_state);
    let cn = color_name_spec(led.color);
    let dp = digits_spec(led.percentage);
    let ds = digits_spec(led.speed);
    let q1 = 14 + sn.len() as int;
    let p2 = q1 + 11;
    let q2 = p2 + cn.len() as int;
    let p3 = q2 + 15;
    let e3 = p3 + dp.len() as int;
    let p4 = e3 + 9;
    let e4 = p4 + ds.len() as int;
    lemma_encode_segments(led);
    lemma_digits_spec_value(led.percentage);
    lemma_digits_spec_value(led.speed);
    assert(sn.len() >= 2);
    assert(cn.len() >= 3);
    assert forall|t: int| 0 <= t < 15 implies #[trigger] e[q2 + t] == enc_percentage_spec()[t]
        by {
        assert(e.subrange(q2, p3)[t] == e[q2 + t]);
    };
    assert(e[q2 + 2] == 34);
    assert(skip_ws(e, q2 + 2) == q2 + 2);
    assert forall|j: int| q2 + 3 <= j < q2 + 13 implies #[trigger] e[j] != 34 by {
        assert(e[j] == enc_percentage_spec()[j - q2]);
    };
    assert(e[q2 + 13] == 34);
    lemma_quote_free_region(e, q2 + 3, q2 + 13);
    assert(e.subrange(q2 + 3, q2 + 13) =~= key_percentage_spec());
    assert(key_percentage_spec().len() == 10);
    assert(key_led_state_spec().len() == 9);
    assert(key_color_spec().len() == 5);
    assert(e[q2 + 14] == 58);
    assert(skip_ws(e, q2 + 14) == q2 + 14);
    assert forall|j: int| p3 <= j < e3 implies 48 <= #[trigger] e[j] <= 57 by {
        assert(e.subrange(p3, e3)[j - p3] == e[j]);
        assert(48 <= dp[j - p3] <= 57);
    };
    assert(e.subrange(p3, e3)[0] == e[p3]);
    assert(skip_ws(e, q2 + 15) == p3);
    assert(e.subrange(e3, p4)[0] == e[e3]);
    assert(e[e3] == 44);
    lemma_digit_run_end_exact(e, p3, e3);
    assert(number_at_spec(e, p3) == Some(led.percentage)) by {
        assert(e[p3] == dp[0]);
        assert(e.subrange(p3, e3) == dp);
        assert(digits_value(e.subrange(p3, e3)) == led.percentage);
    };
}

/// Reading the canonical text's speed member.
#[verifier::rlimit(100)]
proof fn lemma_member_speed(led: Led)
    ensures
        ({
            let q1 = 14 + state_name_spec(led.led_state).len() as int;
            let q2 = q1 + 11 + color_name_spec(led.color).len() as int;
            let e3 = q2 + 15 + digits_spec(led.percentage).len() as int;
            let e4 = e3 + 9 + digits_spec(led.speed).len() as int;
            parse_member(
                encode_command_spec(led),
                e3 + 1,
                (
                    Members {
                        st: Some(led.led_state),
                        col: Some(led.color),
                        pct: Some(led.percentage),
                        spd: None,
                    }
                ),
            ) == Some(
                (
                    e4,
                    (
                        Members {
                            st: Some(led.led_state),
                            col: Some(led.color),
                            pct: Some(led.percentage),
                            spd: Some(led.speed),
                        }
                    ),
                ),
            )
        }),
{
    let e = encode_command_spec(led);
    let sn = state_name_spec(led.led_state);
    let cn = color_name_spec(led.color);
    let dp = digits_spec(led.percentage);
    let ds = digits_spec(led.speed);
    let q1 = 14 + sn.len() as int;
    let p2 = q1 + 11;
    let q2 = p2 + cn.len() as int;
    let p3 = q2 + 15;
    let e3 = p3 + dp.len() as int;
    let p4 = e3 + 9;
    let e4 = p4 + ds.len() as int;
    lemma_encode_segments(led);
    lemma_digits_spec_value(led.percentage);
    lemma_digits_spec_value(led.speed);
    assert(sn.len() >= 2);
    assert(cn.len() >= 3);
    assert forall|t: int| 0 <= t < 9 implies #[trigger] e[e3 + t] == enc_speed_spec()[t] by {
        assert(e.subrange(e3, p4)[t] == e[e3 + t]);
    };
    assert(e[e3 + 1] == 34);
    assert(skip_ws(e, e3 + 1) == e3 + 1);
    assert forall|j: int| e3 + 2 <= j < e3 + 7 implies #[trigger] e[j] != 34 by {
        assert(e[j] == enc_speed_spec()[j - e3]);
    };
    assert(e[e3 + 7] == 34);
    lemma_quote_free_region(e, e3 + 2, e3 + 7);
    assert(e.subrange(e3 + 2, e3 + 7) =~= key_speed_spec());
    assert(key_speed_spec().len() == 5);
    assert(key_led_state_spec().len() == 9);
    assert(key_color_spec().len() == 5);
    assert(key_percentage_spec().len() == 10);
    assert(key_speed_spec()[0] == 115);
    assert(key_color_spec()[0] == 99);
    assert(e[e3 + 8] == 58);
    assert(skip_ws(e, e3 + 8) == e3 + 8);
    assert forall|j: int| p4 <= j < e4 implies 48 <= #[trigger] e[j] <= 57 by {
        assert(e.subrange(p4, e4)[j - p4] == e[j]);
        assert(48 <= ds[j - p4] <= 57);
    };
    assert(e.subrange(p4, e4)[0] == e[p4]);
    assert(skip_ws(e, e3 + 9) == p4);
    assert(e[e4] == 125);
    lemma_digit_run_end_exact(e, p4, e4);
    assert(number_at_spec(e, p4) == Some(led.speed)) by {
        assert(e[p4] == ds[0]);
        assert(ds[0] == 48 ==> led.speed == 0);
        assert(led.speed == 0 ==> ds.len() == 1);
        assert(e.subrange(p4, e4) == ds);
        assert(digits_value(e.subrange(p4, e4)) == led.speed);
    };
}

/// Reading the four members of the canonical text in order.
#[verifier::rlimit(100)]
proof fn lemma_members_chain(led: Led)
    requires
        valid_command(led),
    ensures
        ({
            let q1 = 14 + state_name_spec(led.led_state).len() as int;
            let q2 = q1 + 11 + color_name_spec(led.color).len() as int;
            let e3 = q2 + 15 + digits_spec(led.percentage).len() as int;
            let e4 = e3 + 9 + digits_spec(led.speed).len() as int;
            parse_members(
                encode_command_spec(led),
                1,
                (Members { st: None, col: None, pct: None, spd: None }),
                3nat,
            ) == Some(
                (
                    e4 + 1,
                    (
                        Members {
                            st: Some(led.led_state),
                            col: Some(led.color),
                            pct: Some(led.percentage),
                            spd: Some(led.speed),
                        }
                    ),
                ),
            )
        }),
{
    let e = encode_command_spec(led);
    let sn = state_name_spec(led.led_state);
    let cn = color_name_spec(led.color);
    let dp = digits_spec(led.percentage);
    let ds = digits_spec(led.speed);
    let q1 = 14 + sn.len() as int;
    let p2 = q1 + 11;
    let q2 = p2 + cn.len() as int;
    let p3 = q2 + 15;
    let e3 = p3 + dp.len() as int;
    let p4 = e3 + 9;
    let e4 = p4 + ds.len() as int;
    lemma_encode_segments(led);
    lemma_member_state(led);
    lemma_member_color(led);
    lemma_member_percentage(led);
    lemma_member_speed(led);
    let m0 = Members { st: None, col: None, pct: None, spd: None };
    let m1 = Members { st: Some(led.led_state), col: None, pct: None, spd: None };
    let m2 = Members { st: Some(led.led_state), col: Some(led.color), pct: None, spd: None };
    let m3 = Members {
        st: Some(led.led_state),
        col: Some(led.color),
        pct: Some(led.percentage),
        spd: None,
    };
    let m4 = Members {
        st: Some(led.led_state),
        col: Some(led.color),
        pct: Some(led.percentage),
        spd: Some(led.speed),
    };
    assert(e.subrange(q1, p2)[1] == e[q1 + 1]);
    assert(e[q1 + 1] == 44);
    assert(skip_ws(e, q1 + 1) == q1 + 1);
    assert(e.subrange(q2, p3)[1] == e[q2 + 1]);
    assert(e[q2 + 1] == 44);
    assert(skip_ws(e, q2 + 1) == q2 + 1);
    assert(e.subrange(e3, p4)[0] == e[e3]);
    assert(e[e3] == 44);
    assert(skip_ws(e, e3) == e3);
    assert(e[e4] == 125);
    assert(skip_ws(e, e4) == e4);
    assert(parse_members(e, e3 + 1, m3, 0nat) == Some((e4 + 1, m4)));
    assert(parse_members(e, q2 + 2, m2, 1nat) == Some((e4 + 1, m4)));
    assert(parse_members(e, q1 + 2, m1, 2nat) == Some((e4 + 1, m4)));
    assert(parse_members(e, 1, m0, 3nat) == Some((e4 + 1, m4)));
}

/// Decoding inverts encoding: the canonical text of any command the engine
/// accepts reads back as exactly that command.
#[verifier::rlimit(100)]
pub proof fn lemma_decode_encode(led: Led)
    requires
        valid_command(led),
    ensures
        parse_command_spec(encode_command_spec(led)) == Some(led),
        decoded_command_spec(encode_command_spec(led)) == Some(led),
{
    let e = encode_command_spec(led);
    let sn = state_name_spec(led.led_state);
    let cn = color_name_spec(led.color);
    let dp = digits_spec(led.percentage);
    let ds = digits_spec(led.speed);
    let q1 = 14 + sn.len() as int;
    let p2 = q1 + 11;
    let q2 = p2 + cn.len() as int;
    let p3 = q2 + 15;
    let e3 = p3 + dp.len() as int;
    let p4 = e3 + 9;
    let e4 = p4 + ds.len() as int;
    lemma_encode_segments(led);
    lemma_members_chain(led);
    assert(e.subrange(0, 14)[0] == e[0]);
    assert(e[0] == 123);
    assert(skip_ws(e, 0) == 0);
    assert(skip_ws(e, e4 + 1) == e4 + 1);
    assert(parse_command_spec(e) == Some(led));
}

/// Extraction inverts wrapping: stripping the backslashes of a well-formed
/// wrapped event and cutting at the markers yields exactly the embedded
/// command text.
#[verifier::rlimit(100)]
pub proof fn lemma_extract_wrap(led: Led)
    ensures
        extract_content_spec(wrap_payload_spec(led)) == Some(encode_command_spec(led)),
{
    let enc = encode_command_spec(led);
    let w = wrap_payload_spec(led);
    let esc = escape_quotes_spec(enc);
    lemma_encode_clean(led);
    assert(forall|i: int| 0 <= i < marker_spec().len() ==> #[trigger] marker_spec()[i] != 92);
    assert(forall|i: int|
        0 <= i < end_marker_spec().len() ==> #[trigger] end_marker_spec()[i] != 92);
    lemma_strip_concat(marker_spec() + esc, end_marker_spec());
    lemma_strip_concat(marker_spec(), esc);
    lemma_strip_clean(marker_spec());
    lemma_strip_escape(enc);
    lemma_strip_clean(end_marker_spec());
    let t = strip_backslashes_spec(w);
    assert(w =~= (marker_spec() + esc) + end_marker_spec());
    assert(t == (strip_backslashes_spec(marker_spec()) + strip_backslashes_spec(esc))
        + strip_backslashes_spec(end_marker_spec()));
    assert(t =~= (marker_spec() + enc) + end_marker_spec());
    let cend = 10 + enc.len() as int;
    assert(t.len() == cend + 2);
    assert(marker_spec().len() == 10);
    // The marker stands at the very front.
    assert(matches_at(t, marker_spec(), 0)) by {
        assert forall|k: int| 0 <= k < 10 implies t[k] == marker_spec()[k] by {
            assert(t[k] == (marker_spec() + enc)[k]);
        };
    };
    assert(find_from(t, marker_spec(), 0) == Some(0int));
    // The first closing `")` after the content start is the envelope\'s own.
    assert forall|j: int| 0 <= j < cend implies (#[trigger] t[j + 1]) != 41 by {
        if j + 1 < cend {
            if j + 1 >= 10 {
                assert(t[j + 1] == (marker_spec() + enc)[j + 1]);
                assert(t[j + 1] == enc[j + 1 - 10]);
            } else {
                assert(t[j + 1] == (marker_spec() + enc)[j + 1]);
                assert(t[j + 1] == marker_spec()[j + 1]);
            }
        } else {
            assert(t[j + 1] == end_marker_spec()[0]);
            assert(end_marker_spec()[0] == 34);
        }
    };
    assert forall|j: int| 10 <= j < cend implies !matches_at(t, end_marker_spec(), j) by {
        assert(end_marker_spec().len() == 2);
        assert(end_marker_spec()[1] == 41);
        assert(t[j + 1] != 41);
    };
    assert(matches_at(t, end_marker_spec(), cend)) by {
        assert forall|k: int| 0 <= k < 2 implies t[cend + k] == end_marker_spec()[k] by {
            assert(t[cend + k] == end_marker_spec()[k]);
        };
    };
    lemma_find_from_skip(t, end_marker_spec(), 10, cend);
    assert(find_from(t, end_marker_spec(), cend) == Some(cend));
    assert(find_from(t, end_marker_spec(), 10) == Some(cend));
    assert(t.subrange(10, cend) =~= enc);
}

/// Round trip: a well-formed wrapped, escaped event built from any command
/// the engine accepts extracts and decodes back to exactly that command.
pub proof fn lemma_payload_round_trip(led: Led)
    requires
        valid_command(led),
    ensures
        extract_content_spec(wrap_payload_spec(led)) == Some(encode_command_spec(led)),
        decoded_command_spec(encode_command_spec(led)) == Some(led),
{
    lemma_extract_wrap(led);
    lemma_decode_encode(led);
}

} // verus!
