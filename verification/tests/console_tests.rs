use clawlight_firmware::console::{Command, Console, Input, IDLE_TIMEOUT_MS, LINE_MAX};
use clawlight_firmware::leds::Leds;

fn feed(console: &mut Console, bytes: &[u8]) -> Vec<Command> {
    bytes.iter().map(|&b| console.step(Input::Byte(b))).collect()
}

fn last_show(cmds: Vec<Command>) -> (Leds, bool) {
    match cmds.into_iter().last() {
        Some(Command::Show { leds, confirm }) => (leds, confirm),
        other => panic!("expected Show, got {:?}", other),
    }
}

#[test]
fn line_is_applied_on_newline_and_first_one_confirms() {
    let mut c = Console::new();
    let cmds = feed(&mut c, b"RG");
    assert!(cmds.iter().all(|x| matches!(x, Command::Nothing)));
    let (leds, confirm) = last_show(feed(&mut c, b"\n"));
    assert_eq!(leds, Leds { red: true, yellow: false, green: true });
    assert!(confirm);
    let (leds, confirm) = last_show(feed(&mut c, b"Y\n"));
    assert_eq!(leds, Leds { red: false, yellow: true, green: false });
    assert!(!confirm);
}

#[test]
fn carriage_return_also_ends_a_line() {
    let mut c = Console::new();
    let (leds, _) = last_show(feed(&mut c, b"G\r"));
    assert_eq!(leds, Leds { red: false, yellow: false, green: true });
}

#[test]
fn empty_line_turns_everything_off() {
    let mut c = Console::new();
    let (leds, _) = last_show(feed(&mut c, b"RYG\n\n"));
    assert_eq!(leds, Leds { red: false, yellow: false, green: false });
    let (leds, _) = last_show(feed(&mut c, b"N\n"));
    assert_eq!(leds, Leds { red: false, yellow: false, green: false });
}

#[test]
fn update_trigger_is_handed_over_without_confirming() {
    let mut c = Console::new();
    let cmds = feed(&mut c, b"OTA:5000:cbf43926\n");
    match cmds.last() {
        Some(Command::Update(args)) => assert_eq!(args.as_slice(), b"5000:cbf43926"),
        other => panic!("expected Update, got {:?}", other),
    }
    let (_, confirm) = last_show(feed(&mut c, b"R\n"));
    assert!(confirm);
}

#[test]
fn bytes_beyond_line_max_are_dropped() {
    let mut c = Console::new();
    let mut line = vec![b'N'; LINE_MAX];
    line.push(b'R');
    line.push(b'\n');
    let (leds, _) = last_show(feed(&mut c, &line));
    assert_eq!(leds, Leds { red: false, yellow: false, green: false });
    let mut line = vec![b'N'; LINE_MAX - 1];
    line.push(b'R');
    line.push(b'\n');
    let (leds, _) = last_show(feed(&mut c, &line));
    assert_eq!(leds, Leds { red: true, yellow: false, green: false });
}

#[test]
fn silence_declares_the_host_gone_once() {
    let mut c = Console::new();
    feed(&mut c, b"G");
    for _ in 1..IDLE_TIMEOUT_MS {
        assert!(matches!(c.step(Input::NoByte), Command::Nothing));
    }
    assert!(matches!(c.step(Input::NoByte), Command::NoHost));
    for _ in 0..100 {
        assert!(matches!(c.step(Input::NoByte), Command::Nothing));
    }
    // the half-received "G" was dropped
    let (leds, _) = last_show(feed(&mut c, b"\n"));
    assert_eq!(leds, Leds { red: false, yellow: false, green: false });
}

#[test]
fn a_byte_resets_the_silence() {
    let mut c = Console::new();
    for _ in 1..IDLE_TIMEOUT_MS {
        c.step(Input::NoByte);
    }
    c.step(Input::Byte(b'x'));
    for _ in 1..IDLE_TIMEOUT_MS {
        assert!(matches!(c.step(Input::NoByte), Command::Nothing));
    }
    assert!(matches!(c.step(Input::NoByte), Command::NoHost));
}
