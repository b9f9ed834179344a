//! What the heads-up display shows: score lines, toggle labels, screen state.
use crate::game_state::{AppState, VisualEffectsMode};
use vstd::prelude::*;
use vstd::string::*;

verus! {

/// The character of decimal digit `d`.
pub open spec fn digit_char(d: int) -> char {
    (48 + d) as char
}

/// The decimal digits of `n`, most significant first, without leading zeros.
pub open spec fn decimal(n: nat) -> Seq<char>
    decreases n,
{
    if n < 10 {
        seq![digit_char(n as int)]
    } else {
        decimal(n / 10).push(digit_char((n % 10) as int))
    }
}

/// `s` with zeros in front up to `width` characters.
pub open spec fn zero_padded(s: Seq<char>, width: nat) -> Seq<char> {
    if s.len() >= width {
        s
    } else {
        Seq::new((width - s.len()) as nat, |i: int| '0') + s
    }
}

/// Whether every character of `s` is a decimal digit.
pub open spec fn all_digits(s: Seq<char>) -> bool {
    forall|i: int| 0 <= i < s.len() ==> '0' <= #[trigger] s[i] && s[i] <= '9'
}

/// The number that a string of decimal digits reads as, most significant first.
pub open spec fn digits_value(s: Seq<char>) -> int
    decreases s.len(),
{
    if s.len() == 0 {
        0
    } else {
        digits_value(s.drop_last()) * 10 + (s.last() as int - '0' as int)
    }
}

/// The decimal digits of `n` are digits that read back as `n`, with no
/// leading zero.
pub proof fn lemma_decimal_reads_back(n: nat)
    ensures
        all_digits(decimal(n)),
        digits_value(decimal(n)) == n,
        1 <= decimal(n).len(),
        n >= 10 ==> decimal(n)[0] != '0',
    decreases n,
{
    if n < 10 {
        let s = decimal(n);
        assert(s.drop_last().len() == 0);
        assert(digits_value(s.drop_last()) == 0);
    } else {
        lemma_decimal_reads_back(n / 10);
        let s = decimal(n);
        let p = decimal(n / 10);
        assert(s.drop_last() == p);
        assert forall|i: int| 0 <= i < s.len() implies '0' <= #[trigger] s[i] && s[i] <= '9' by {
            if i < p.len() {
                assert(s[i] == p[i]);
            }
        }
        assert(s[0] == p[0]);
    }
}

/// Zeros in front change neither that a string is all digits nor what it reads as.
pub proof fn lemma_zero_padded_reads_back(s: Seq<char>, width: nat)
    requires
        all_digits(s),
    ensures
        all_digits(zero_padded(s, width)),
        digits_value(zero_padded(s, width)) == digits_value(s),
        zero_padded(s, width).len() == if s.len() >= width { s.len() } else { width },
{
    if s.len() < width {
        let z = Seq::new((width - s.len()) as nat, |i: int| '0');
        lemma_zeros_prefix(z, s);
        assert forall|i: int| 0 <= i < (z + s).len() implies '0' <= #[trigger] (z + s)[i] && (z + s)[i] <= '9' by {
            if i >= z.len() {
                assert((z + s)[i] == s[i - z.len()]);
            }
        }
    }
}

proof fn lemma_zeros_prefix(z: Seq<char>, s: Seq<char>)
    requires
        forall|i: int| 0 <= i < z.len() ==> #[trigger] z[i] == '0',
    ensures
        digits_value(z + s) == digits_value(s),
    decreases s.len(),
{
    if s.len() == 0 {
        assert(z + s == z);
        lemma_zeros_value(z);
    } else {
        lemma_zeros_prefix(z, s.drop_last());
        assert((z + s).drop_last() == z + s.drop_last());
        assert((z + s).last() == s.last());
    }
}

proof fn lemma_zeros_value(z: Seq<char>)
    requires
        forall|i: int| 0 <= i < z.len() ==> #[trigger] z[i] == '0',
    ensures
        digits_value(z) == 0,
    decreases z.len(),
{
    if z.len() > 0 {
        assert forall|i: int| 0 <= i < z.drop_last().len() implies #[trigger] z.drop_last()[i] == '0' by {
            assert(z.drop_last()[i] == z[i]);
        }
        lemma_zeros_value(z.drop_last());
        assert(z.last() == z[z.len() - 1]);
    }
}

/// Whether `s` writes `n` in decimal with at least `width` digits: all
/// digits, reading as `n`, and zeros in front only to fill up to `width`.
pub open spec fn padded_number(s: Seq<char>, n: int, width: nat) -> bool {
    &&& all_digits(s)
    &&& digits_value(s) == n
    &&& s.len() >= width
    &&& s.len() > width ==> s[0] != '0'
}

/// `n` zero-padded to `width` digits is written as `padded_number` says.
pub proof fn lemma_padded_decimal(n: nat, width: nat)
    requires
        width >= 1,
    ensures
        padded_number(zero_padded(decimal(n), width), n as int, width),
{
    lemma_decimal_reads_back(n);
    lemma_zero_padded_reads_back(decimal(n), width);
    if zero_padded(decimal(n), width).len() > width {
        assert(zero_padded(decimal(n), width) == decimal(n));
        if n < 10 {
            assert(decimal(n).len() == 1);
        }
    }
}

/// The text of a decimal digit.
fn digit_str(d: u32) -> (s: &'static str)
    requires
        d < 10,
    ensures
        s@ == seq![digit_char(d as int)],
{
    proof {
        reveal_strlit("0");
        reveal_strlit("1");
        reveal_strlit("2");
        reveal_strlit("3");
        reveal_strlit("4");
        reveal_strlit("5");
        reveal_strlit("6");
        reveal_strlit("7");
        reveal_strlit("8");
        reveal_strlit("9");
    }
    match d {
        0 => "0",
        1 => "1",
        2 => "2",
        3 => "3",
        4 => "4",
        5 => "5",
        6 => "6",
        7 => "7",
        8 => "8",
        _ => "9",
    }
}

/// Appends the decimal digits of `n` to `s`.
fn append_decimal(s: &mut String, n: u32)
    ensures
        final(s)@ == old(s)@ + decimal(n as nat),
    decreases n,
{
    if n >= 10 {
        append_decimal(s, n / 10);
    }
    s.append(digit_str(n % 10));
    proof {
        if n >= 10 {
            assert(old(s)@ + decimal((n / 10) as nat) + seq![digit_char((n % 10) as int)]
                == old(s)@ + decimal(n as nat));
        } else {
            assert(decimal(n as nat) == seq![digit_char(n as int)]);
        }
    }
}

/// Number of decimal digits of `n`.
fn decimal_len(n: u32) -> (len: usize)
    ensures
        len == decimal(n as nat).len(),
        1 <= len <= n as int / 10 + 1,
    decreases n,
{
    if n >= 10 {
        decimal_len(n / 10) + 1
    } else {
        1
    }
}

/// Appends `n` in decimal, zero-padded to `width` digits, to `s`.
fn append_padded(s: &mut String, n: u32, width: usize)
    ensures
        final(s)@ == old(s)@ + zero_padded(decimal(n as nat), width as nat),
{
    let len = decimal_len(n);
    let ghost start = s@;
    let mut k: usize = len;
    while k < width
        invariant
            len <= k <= width || (width < len && k == len),
            s@ == start + Seq::new((k - len) as nat, |i: int| '0'),
        decreases width - k,
    {
        s.append("0");
        proof {
            reveal_strlit("0");
            assert(Seq::new((k - len) as nat, |i: int| '0').push('0') == Seq::new((k + 1 - len) as nat, |i: int| '0'));
        }
        k = k + 1;
    }
    let ghost zeros = s@;
    append_decimal(s, n);
    proof {
        if width > len {
            assert(start + Seq::new((width - len) as nat, |i: int| '0') + decimal(n as nat)
                == start + zero_padded(decimal(n as nat), width as nat));
        } else {
            assert(Seq::new(0, |i: int| '0') == Seq::<char>::empty());
            assert(start + Seq::<char>::empty() == start);
        }
    }
}

/// The current-score line: "Score: " and the total in six or more digits.
pub fn score_text(total: u32) -> (text: String)
    ensures
        text@ == "Score: "@ + zero_padded(decimal(total as nat), 6),
        text@.subrange(0, 7) == "Score: "@,
        padded_number(text@.subrange(7, text@.len() as int), total as int, 6),
{
    let mut s = String::from_str("Score: ");
    append_padded(&mut s, total, 6);
    proof {
        reveal_strlit("Score: ");
        lemma_padded_decimal(total as nat, 6);
        let p = "Score: "@;
        let z = zero_padded(decimal(total as nat), 6);
        assert((p + z).subrange(0, 7) =~= p);
        assert((p + z).subrange(7, (p + z).len() as int) =~= z);
    }
    s
}

/// The high-score line: "HI: " and the high score in six or more digits.
pub fn high_score_text(high: u32) -> (text: String)
    ensures
        text@ == "HI: "@ + zero_padded(decimal(high as nat), 6),
        text@.subrange(0, 4) == "HI: "@,
        padded_number(text@.subrange(4, text@.len() as int), high as int, 6),
{
    let mut s = String::from_str("HI: ");
    append_padded(&mut s, high, 6);
    proof {
        reveal_strlit("HI: ");
        lemma_padded_decimal(high as nat, 6);
        let p = "HI: "@;
        let z = zero_padded(decimal(high as nat), 6);
        assert((p + z).subrange(0, 4) =~= p);
        assert((p + z).subrange(4, (p + z).len() as int) =~= z);
    }
    s
}

/// The end-screen line: "final.score = " and the total in six or more digits.
pub fn final_score_text(total: u32) -> (text: String)
    ensures
        text@ == "final.score = "@ + zero_padded(decimal(total as nat), 6),
        text@.subrange(0, 14) == "final.score = "@,
        padded_number(text@.subrange(14, text@.len() as int), total as int, 6),
{
    let mut s = String::from_str("final.score = ");
    append_padded(&mut s, total, 6);
    proof {
        reveal_strlit("final.score = ");
        lemma_padded_decimal(total as nat, 6);
        let p = "final.score = "@;
        let z = zero_padded(decimal(total as nat), 6);
        assert((p + z).subrange(0, 14) =~= p);
        assert((p + z).subrange(14, (p + z).len() as int) =~= z);
    }
    s
}

/// A tier as the order and queue previews show it: its decimal digits.
pub fn tier_text(tier: u8) -> (text: String)
    ensures
        text@ == decimal(tier as nat),
        padded_number(text@, tier as int, 1),
{
    let mut s = String::new();
    append_decimal(&mut s, tier as u32);
    proof {
        assert(Seq::<char>::empty() + decimal(tier as nat) == decimal(tier as nat));
        lemma_padded_decimal(tier as nat, 1);
        assert(zero_padded(decimal(tier as nat), 1) == decimal(tier as nat));
    }
    s
}

/// A toggle button's label: the label, ": ", then "ON" or "OFF".
pub fn toggle_text(label: &str, on: bool) -> (text: String)
    ensures
        text@ == label@ + ": "@ + if on {
            "ON"@
        } else {
            "OFF"@
        },
{
    let mut s = String::from_str(label);
    s.append(": ");
    if on {
        s.append("ON");
    } else {
        s.append("OFF");
    }
    s
}

/// The numbers-overlay button's label: short in portrait, long otherwise.
pub fn colorblind_button_text(is_vertical: bool, on: bool) -> (text: String)
    ensures
        text@ == (if is_vertical {
            "Num"@
        } else {
            "Numbers"@
        }) + ": "@ + if on {
            "ON"@
        } else {
            "OFF"@
        },
{
    toggle_text(if is_vertical { "Num" } else { "Numbers" }, on)
}

/// The effects button's label.
pub fn effects_button_text(mode: VisualEffectsMode) -> (text: String)
    ensures
        text@ == "FX"@ + ": "@ + if mode == VisualEffectsMode::On {
            "ON"@
        } else {
            "OFF"@
        },
{
    toggle_text("FX", mode == VisualEffectsMode::On)
}

/// Whether the end screens are up: game over or win.
pub fn in_game_over_or_win_state(state: AppState) -> (b: bool)
    ensures
        b == (state == AppState::GameOver || state == AppState::Win),
{
    match state {
        AppState::GameOver | AppState::Win => true,
        _ => false,
    }
}

/// Flips the visual effects mode if a toggle was requested this frame.
pub fn toggle_visual_effects(mode: &mut VisualEffectsMode, toggle: bool)
    ensures
        *final(mode) == if toggle {
            if *old(mode) == VisualEffectsMode::On {
                VisualEffectsMode::Off
            } else {
                VisualEffectsMode::On
            }
        } else {
            *old(mode)
        },
{
    if toggle {
        *mode = match *mode {
            VisualEffectsMode::On => VisualEffectsMode::Off,
            VisualEffectsMode::Off => VisualEffectsMode::On,
        };
    }
}

} // verus!
