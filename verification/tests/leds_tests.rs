use clawlight_firmware::leds::{leds_for_line, Leds};

fn leds(red: bool, yellow: bool, green: bool) -> Leds {
    Leds { red, yellow, green }
}

#[test]
fn single_codes() {
    assert_eq!(leds_for_line(b"R"), leds(true, false, false));
    assert_eq!(leds_for_line(b"Y"), leds(false, true, false));
    assert_eq!(leds_for_line(b"G"), leds(false, false, true));
    assert_eq!(leds_for_line(b"B"), leds(false, true, false));
}

#[test]
fn combinations() {
    assert_eq!(leds_for_line(b"RG"), leds(true, false, true));
    assert_eq!(leds_for_line(b"RYG"), leds(true, true, true));
    assert_eq!(leds_for_line(b"GR"), leds_for_line(b"RG"));
    assert_eq!(leds_for_line(b"RRR"), leds(true, false, false));
}

#[test]
fn empty_or_unknown_line_turns_all_off() {
    assert_eq!(leds_for_line(b""), leds(false, false, false));
    assert_eq!(leds_for_line(b"N"), leds(false, false, false));
    assert_eq!(leds_for_line(b" x r g y"), leds(false, false, false));
}

#[test]
fn unknown_bytes_are_ignored() {
    assert_eq!(leds_for_line(b" R N G "), leds(true, false, true));
}

#[test]
fn all_on_lights_everything() {
    assert_eq!(Leds::all_on(), leds(true, true, true));
}
