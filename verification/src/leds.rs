//! Which of the three status LEDs a command line lights.
//!
//! A line names the LEDs that are on: `R` red, `Y` yellow (`B` is accepted
//! as a legacy alias), `G` green. Every LED not named is off, and every other
//! byte is ignored, so a line fully describes the board and an empty or
//! unknown line turns everything off.

use vstd::prelude::*;

verus! {

/// On/off state of the red, yellow and green LEDs.
#[derive(Clone, Copy, Debug, PartialEq, Eq, Structural)]
pub struct Leds {
    pub red: bool,
    pub yellow: bool,
    pub green: bool,
}

impl Leds {
    /// All three LEDs lit: the lamp test, and "no host daemon".
    pub fn all_on() -> (r: Leds)
        ensures
            r == (Leds { red: true, yellow: true, green: true }),
    {
        Leds { red: true, yellow: true, green: true }
    }
}

/// `R`: red.
pub const CODE_RED: u8 = 82;
/// `Y`: yellow.
pub const CODE_YELLOW: u8 = 89;
/// `B`: yellow (the yellow LED started as a blue one).
pub const CODE_YELLOW_LEGACY: u8 = 66;
/// `G`: green.
pub const CODE_GREEN: u8 = 71;

/// `b` names an LED.
pub open spec fn is_led_code(b: u8) -> bool {
    b == CODE_RED || b == CODE_YELLOW || b == CODE_YELLOW_LEGACY || b == CODE_GREEN
}

/// The LEDs that the line `line` lights: those it names.
pub open spec fn line_leds(line: Seq<u8>) -> Leds {
    Leds {
        red: line.contains(CODE_RED),
        yellow: line.contains(CODE_YELLOW) || line.contains(CODE_YELLOW_LEGACY),
        green: line.contains(CODE_GREEN),
    }
}

/// An LED is lit by the union of two sets when either lights it.
pub open spec fn leds_union(a: Leds, b: Leds) -> Leds {
    Leds { red: a.red || b.red, yellow: a.yellow || b.yellow, green: a.green || b.green }
}

proof fn lemma_contains_concat(a: Seq<u8>, b: Seq<u8>, x: u8)
    ensures
        (a + b).contains(x) == (a.contains(x) || b.contains(x)),
{
    if (a + b).contains(x) {
        let i = choose|i: int| 0 <= i < (a + b).len() && (a + b)[i] == x;
        if i < a.len() {
            assert(a[i] == x);
        } else {
            assert(b[i - a.len()] == x);
        }
    }
    if a.contains(x) {
        let i = choose|i: int| 0 <= i < a.len() && a[i] == x;
        assert((a + b)[i] == x);
    }
    if b.contains(x) {
        let i = choose|i: int| 0 <= i < b.len() && b[i] == x;
        assert((a + b)[a.len() + i] == x);
    }
}

/// A line lights the LEDs that either of its parts lights: the codes of a
/// line act independently of each other.
pub proof fn lemma_line_leds_concat(a: Seq<u8>, b: Seq<u8>)
    ensures
        line_leds(a + b) == leds_union(line_leds(a), line_leds(b)),
{
    lemma_contains_concat(a, b, CODE_RED);
    lemma_contains_concat(a, b, CODE_YELLOW);
    lemma_contains_concat(a, b, CODE_YELLOW_LEGACY);
    lemma_contains_concat(a, b, CODE_GREEN);
}

/// The order of the codes in a line does not matter.
pub proof fn lemma_line_leds_order_free(a: Seq<u8>, b: Seq<u8>)
    ensures
        line_leds(a + b) == line_leds(b + a),
{
    lemma_line_leds_concat(a, b);
    lemma_line_leds_concat(b, a);
}

/// A byte that names no LED changes nothing.
pub proof fn lemma_line_leds_ignores_other_bytes(line: Seq<u8>, b: u8)
    requires
        !is_led_code(b),
    ensures
        line_leds(line.push(b)) == line_leds(line),
{
    assert(line.push(b) =~= line + seq![b]);
    lemma_line_leds_concat(line, seq![b]);
    assert(!seq![b].contains(CODE_RED) && !seq![b].contains(CODE_YELLOW)
        && !seq![b].contains(CODE_YELLOW_LEGACY) && !seq![b].contains(CODE_GREEN)) by {
        if seq![b].contains(CODE_RED) || seq![b].contains(CODE_YELLOW) || seq![b].contains(
            CODE_YELLOW_LEGACY,
        ) || seq![b].contains(CODE_GREEN) {
            assert(seq![b][0] == b);
        }
    }
}

/// What each single byte lights: `R` red, `Y` or `B` yellow, `G` green,
/// anything else nothing; and an empty line lights nothing. With
/// [`lemma_line_leds_concat`] this fixes the LEDs of every line.
pub proof fn lemma_line_leds_of_one_byte(b: u8)
    ensures
        line_leds(seq![b]) == (Leds { red: b == 82, yellow: b == 89 || b == 66, green: b == 71 }),
        line_leds(Seq::<u8>::empty()) == (Leds { red: false, yellow: false, green: false }),
{
    assert(seq![b][0] == b);
    assert forall|x: u8| #[trigger] seq![b].contains(x) <==> x == b by {
        if seq![b].contains(x) {
            let k = choose|k: int| 0 <= k < 1 && seq![b][k] == x;
            assert(k == 0);
        }
    }
    assert(!Seq::<u8>::empty().contains(82u8));
    assert(!Seq::<u8>::empty().contains(89u8));
    assert(!Seq::<u8>::empty().contains(66u8));
    assert(!Seq::<u8>::empty().contains(71u8));
}

/// The LEDs that a complete command line asks for (see [`line_leds`]).
pub fn leds_for_line(line: &[u8]) -> (r: Leds)
    ensures
        r == line_leds(line@),
{
    let mut want_red = false;
    let mut want_yellow = false;
    let mut want_green = false;
    let mut i: usize = 0;
    while i < line.len()
        invariant
            0 <= i <= line.len(),
            (Leds { red: want_red, yellow: want_yellow, green: want_green }) == line_leds(
                line@.take(i as int),
            ),
        decreases line.len() - i,
    {
        let byte = line[i];
        proof {
            assert(line@.take(i as int + 1) =~= line@.take(i as int) + seq![byte]);
            lemma_line_leds_concat(line@.take(i as int), seq![byte]);
            assert(seq![byte][0] == byte);
            assert(seq![byte].contains(byte));
            assert forall|x: u8| x != byte implies !(#[trigger] seq![byte].contains(x)) by {
                if seq![byte].contains(x) {
                    let k = choose|k: int| 0 <= k < 1 && seq![byte][k] == x;
                    assert(k == 0);
                }
            }
        }
        if byte == CODE_RED {
            want_red = true;
        } else if byte == CODE_YELLOW || byte == CODE_YELLOW_LEGACY {
            want_yellow = true;
        } else if byte == CODE_GREEN {
            want_green = true;
        }
        i = i + 1;
    }
    assert(line@.take(line.len() as int) =~= line@);
    Leds { red: want_red, yellow: want_yellow, green: want_green }
}

} // verus!
