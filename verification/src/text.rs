//! Rendering values as text: decimal and hexadecimal digits, day and
//! time names, identifiers, and the enumerated availability listing.

use vstd::prelude::*;
use vstd::string::StringExecFns;
use crate::facilities::slot_on_day;
use crate::ids::Uuid;
use crate::time::{Day, Time};

verus! {

/// The decimal digit character for `d` in 0..=9.
pub open spec fn dec_digit(d: int) -> char {
    if d == 0 {
        '0'
    } else if d == 1 {
        '1'
    } else if d == 2 {
        '2'
    } else if d == 3 {
        '3'
    } else if d == 4 {
        '4'
    } else if d == 5 {
        '5'
    } else if d == 6 {
        '6'
    } else if d == 7 {
        '7'
    } else if d == 8 {
        '8'
    } else {
        '9'
    }
}

/// The hexadecimal digit character for `d` in 0..=15.
pub open spec fn hex_digit(d: int) -> char {
    if d < 10 {
        dec_digit(d)
    } else if d == 10 {
        'a'
    } else if d == 11 {
        'b'
    } else if d == 12 {
        'c'
    } else if d == 13 {
        'd'
    } else if d == 14 {
        'e'
    } else {
        'f'
    }
}

/// `n` in 0..=99, always as two decimal digits.
pub open spec fn two_digits(n: int) -> Seq<char> {
    seq![dec_digit(n / 10), dec_digit(n % 10)]
}

/// `n` in decimal, most significant digit first, no leading zeros.
pub open spec fn dec_chars(n: int) -> Seq<char>
    decreases n,
{
    if n < 10 {
        seq![dec_digit(n)]
    } else {
        dec_chars(n / 10) + seq![dec_digit(n % 10)]
    }
}

/// `v` as exactly `k` hexadecimal digits, most significant first.
pub open spec fn hex_fixed(v: int, k: nat) -> Seq<char>
    decreases k,
{
    if k == 0 {
        Seq::empty()
    } else {
        hex_fixed(v / 16, (k - 1) as nat) + seq![hex_digit(v % 16)]
    }
}

/// The hyphenated form of a 128-bit identifier: five groups of 8, 4, 4,
/// 4 and 12 hexadecimal digits.
pub open spec fn spec_uuid_text(v: int) -> Seq<char> {
    hex_fixed(v / 0x1000000000000000000000000, 8) + seq!['-'] + hex_fixed(
        (v / 0x100000000000000000000) % 0x10000,
        4,
    ) + seq!['-'] + hex_fixed((v / 0x10000000000000000) % 0x10000, 4) + seq!['-'] + hex_fixed(
        (v / 0x1000000000000) % 0x10000,
        4,
    ) + seq!['-'] + hex_fixed(v % 0x1000000000000, 12)
}

/// The short name of a day.
pub open spec fn day_text(d: Day) -> Seq<char> {
    match d {
        Day::Monday => "Mon"@,
        Day::Tuesday => "Tue"@,
        Day::Wednesday => "Wed"@,
        Day::Thursday => "Thu"@,
        Day::Friday => "Fri"@,
        Day::Saturday => "Sat"@,
        Day::Sunday => "Sun"@,
    }
}

/// An hour and minute as "HH:MM".
pub open spec fn hm_text(t: Time) -> Seq<char> {
    two_digits(t.hour.0 as int) + ":"@ + two_digits(t.minute.0 as int)
}

/// A time as "Day, HH:MM".
pub open spec fn time_text(t: Time) -> Seq<char> {
    day_text(t.day) + ", "@ + hm_text(t)
}

/// One line of the availability listing: "i. Day, HH:MM - HH:MM".
pub open spec fn slot_line(i: int, s: Time, e: Time) -> Seq<char> {
    dec_chars(i) + ". "@ + time_text(s) + " - "@ + hm_text(e)
}

/// The availability listing from slot `k` on: the numbered lines,
/// separated by line breaks.
pub open spec fn avail_text_from(slots: Seq<(Time, Time)>, k: int) -> Seq<char>
    decreases slots.len() - k,
{
    if k < 0 || k >= slots.len() {
        Seq::empty()
    } else if k == slots.len() - 1 {
        slot_line(k + 1, slots[k].0, slots[k].1)
    } else {
        slot_line(k + 1, slots[k].0, slots[k].1) + "\n"@ + avail_text_from(slots, k + 1)
    }
}

/// The whole availability listing.
pub open spec fn avail_text(slots: Seq<(Time, Time)>) -> Seq<char> {
    avail_text_from(slots, 0)
}

/// The decimal digit string for `d` in 0..=9.
fn digit_str(d: u8) -> (r: &'static str)
    requires
        d < 10,
    ensures
        r@ == seq![dec_digit(d as int)],
{
    proof {
        reveal_strlit("0");
        reveal_strlit("1");
        reveal_strlit("2");
        reveal_strlit("3");
        reveal_strlit("4");
        reveal_strlit("5");
        reveal_strlit("6");
        reveal_strlit("7");
        reveal_strlit("8");
        reveal_strlit("9");
    }
    let r = match d {
        0u8 => "0",
        1u8 => "1",
        2u8 => "2",
        3u8 => "3",
        4u8 => "4",
        5u8 => "5",
        6u8 => "6",
        7u8 => "7",
        8u8 => "8",
        _ => "9",
    };
    proof {
        assert(r@ =~= seq![dec_digit(d as int)]);
    }
    r
}

/// The hexadecimal digit string for `d` in 0..=15.
fn hex_digit_str(d: u8) -> (r: &'static str)
    requires
        d < 16,
    ensures
        r@ == seq![hex_digit(d as int)],
{
    if d < 10 {
        digit_str(d)
    } else {
        proof {
            reveal_strlit("a");
            reveal_strlit("b");
            reveal_strlit("c");
            reveal_strlit("d");
            reveal_strlit("e");
            reveal_strlit("f");
        }
        let r = match d {
            10u8 => "a",
            11u8 => "b",
            12u8 => "c",
            13u8 => "d",
            14u8 => "e",
            _ => "f",
        };
        proof {
            assert(r@ =~= seq![hex_digit(d as int)]);
        }
        r
    }
}

/// Appends `n` as exactly two decimal digits.
pub fn push_two_digits(s: &mut String, n: u8)
    requires
        n < 100,
    ensures
        final(s)@ == old(s)@ + two_digits(n as int),
{
    s.append(digit_str(n / 10));
    s.append(digit_str(n % 10));
    proof {
        assert(s@ =~= old(s)@ + two_digits(n as int));
    }
}

/// Appends `n` in decimal without leading zeros.
pub fn push_dec(s: &mut String, n: u64)
    ensures
        final(s)@ == old(s)@ + dec_chars(n as int),
    decreases n,
{
    if n < 10 {
        s.append(digit_str(n as u8));
    } else {
        push_dec(s, n / 10);
        s.append(digit_str((n % 10) as u8));
        proof {
            assert(s@ =~= old(s)@ + dec_chars(n as int));
        }
    }
}

/// Appends `v` as exactly `k` hexadecimal digits.
fn push_hex_fixed(s: &mut String, v: u128, k: usize)
    ensures
        final(s)@ == old(s)@ + hex_fixed(v as int, k as nat),
    decreases k,
{
    if k == 0 {
        proof {
            assert(s@ =~= old(s)@ + hex_fixed(v as int, 0));
        }
    } else {
        push_hex_fixed(s, v / 16, k - 1);
        s.append(hex_digit_str((v % 16) as u8));
        proof {
            assert(s@ =~= old(s)@ + hex_fixed(v as int, k as nat));
        }
    }
}

impl Uuid {
    /// The hyphenated text of the identifier.
    pub fn to_text(&self) -> (r: String)
        ensures
            r@ == spec_uuid_text(self.v as int),
    {
        let mut s = String::new();
        push_hex_fixed(&mut s, self.v / 0x1000000000000000000000000, 8);
        s.append("-");
        push_hex_fixed(&mut s, (self.v / 0x100000000000000000000) % 0x10000, 4);
        s.append("-");
        push_hex_fixed(&mut s, (self.v / 0x10000000000000000) % 0x10000, 4);
        s.append("-");
        push_hex_fixed(&mut s, (self.v / 0x1000000000000) % 0x10000, 4);
        s.append("-");
        push_hex_fixed(&mut s, self.v % 0x1000000000000, 12);
        proof {
            reveal_strlit("-");
            assert("-"@ =~= seq!['-']);
            assert(s@ =~= spec_uuid_text(self.v as int));
        }
        s
    }
}

impl Day {
    /// The short name of the day.
    pub fn to_text(&self) -> (r: String)
        ensures
            r@ == day_text(*self),
    {
        let name: &str = match self {
            Day::Monday => "Mon",
            Day::Tuesday => "Tue",
            Day::Wednesday => "Wed",
            Day::Thursday => "Thu",
            Day::Friday => "Fri",
            Day::Saturday => "Sat",
            Day::Sunday => "Sun",
        };
        String::from_str(name)
    }
}

/// Appends a time's hour and minute as "HH:MM".
pub fn push_hm(s: &mut String, t: &Time)
    requires
        t.wf(),
    ensures
        final(s)@ == old(s)@ + hm_text(*t),
{
    push_two_digits(s, t.hour.0);
    s.append(":");
    push_two_digits(s, t.minute.0);
    proof {
        assert(s@ =~= old(s)@ + hm_text(*t));
    }
}

impl Time {
    /// The time as "Day, HH:MM".
    pub fn to_text(&self) -> (r: String)
        requires
            self.wf(),
        ensures
            r@ == time_text(*self),
    {
        let mut s = self.day.to_text();
        s.append(", ");
        push_hm(&mut s, self);
        proof {
            assert(s@ =~= time_text(*self));
        }
        s
    }
}

/// Renders the slots as the enumerated availability listing.
#[verifier::loop_isolation(false)]
pub fn render_slots(slots: &Vec<(Time, Time)>, day: Day) -> (r: String)
    requires
        forall|k: int| 0 <= k < slots@.len() ==> slot_on_day(#[trigger] slots@[k], day),
    ensures
        r@ == avail_text(slots@),
{
    let mut s = String::new();
    let mut k: usize = 0;
    if slots.len() == 0 {
        return s;
    }
    loop
        invariant
            k < slots@.len(),
            s@ + avail_text_from(slots@, k as int) == avail_text(slots@),
        decreases slots@.len() - k,
    {
        let entry = &slots[k];
        let ghost s0 = s@;
        push_dec(&mut s, (k + 1) as u64);
        s.append(". ");
        let st = entry.0.to_text();
        s.append(st.as_str());
        s.append(" - ");
        push_hm(&mut s, &entry.1);
        proof {
            assert(s@ =~= s0 + slot_line(k as int + 1, slots@[k as int].0, slots@[k as int].1));
        }
        if k + 1 == slots.len() {
            proof {
                assert(s@ =~= avail_text(slots@));
            }
            return s;
        }
        s.append("\n");
        k += 1;
        proof {
            assert(s@ + avail_text_from(slots@, k as int) =~= avail_text(slots@));
        }
    }
}

} // verus!
