//! JSON string escaping for the terminal-recording encoder.

use vstd::prelude::*;

verus! {

/// Lowercase hexadecimal digit.
pub open spec fn hex_digit(d: int) -> char {
    if d < 10 {
        ((48 + d) as u8) as char
    } else {
        ((87 + d) as u8) as char
    }
}

/// Two lowercase hexadecimal digits of a small code point.
pub open spec fn hex_of(v: int) -> Seq<char> {
    seq![hex_digit(v / 16), hex_digit(v % 16)]
}

/// The escape of one character: named escapes for the common controls, a
/// four-digit `\u` code for the rest of the control range, the character
/// itself otherwise, so that the output is a valid JSON string body that
/// parses back to the input.
pub open spec fn escape_char(c: char) -> Seq<char> {
    if c == '"' {
        seq!['\\', '"']
    } else if c == '\\' {
        seq!['\\', '\\']
    } else if c == '\n' {
        seq!['\\', 'n']
    } else if c == '\r' {
        seq!['\\', 'r']
    } else if c == '\t' {
        seq!['\\', 't']
    } else if c as int <= 0x1f {
        seq!['\\', 'u', '0', '0'] + hex_of(c as int)
    } else {
        seq![c]
    }
}

/// The escape of a whole string, character by character.
pub open spec fn escape_seq(s: Seq<char>) -> Seq<char>
    decreases s.len(),
{
    if s.len() == 0 {
        Seq::empty()
    } else {
        escape_char(s.first()) + escape_seq(s.drop_first())
    }
}

proof fn lemma_escape_seq_snoc(s: Seq<char>, c: char)
    ensures
        escape_seq(s.push(c)) == escape_seq(s) + escape_char(c),
    decreases s.len(),
{
    if s.len() == 0 {
        assert(s.push(c).first() == c);
        assert(s.push(c).drop_first() =~= Seq::<char>::empty());
        assert(escape_seq(s.push(c)) == escape_char(c) + escape_seq(Seq::<char>::empty()));
        assert(escape_seq(Seq::<char>::empty()) == Seq::<char>::empty());
        assert(escape_char(c) + Seq::<char>::empty() =~= escape_char(c));
        assert(escape_seq(s) + escape_char(c) =~= escape_char(c));
    } else {
        assert(s.push(c).first() == s.first());
        assert(s.push(c).drop_first() =~= s.drop_first().push(c));
        lemma_escape_seq_snoc(s.drop_first(), c);
        assert((escape_char(s.first()) + escape_seq(s.drop_first())) + escape_char(c)
            =~= escape_char(s.first()) + (escape_seq(s.drop_first()) + escape_char(c)));
    }
}

/// Append the JSON escape of `s` to `w`.
#[verifier::loop_isolation(false)]
pub fn write_escaped(w: &mut Vec<char>, s: &Vec<char>)
    ensures
        final(w)@ == old(w)@ + escape_seq(s@),
{
    let ghost w0 = w@;
    proof {
        assert(s@.take(0) =~= Seq::<char>::empty());
        assert(w@ =~= w0 + escape_seq(s@.take(0)));
    }
    let mut i: usize = 0;
    while i < s.len()
        invariant
            i <= s@.len(),
            w@ == w0 + escape_seq(s@.take(i as int)),
        decreases s@.len() - i,
    {
        let c = s[i];
        if c == '"' {
            w.push('\\');
            w.push('"');
        } else if c == '\\' {
            w.push('\\');
            w.push('\\');
        } else if c == '\n' {
            w.push('\\');
            w.push('n');
        } else if c == '\r' {
            w.push('\\');
            w.push('r');
        } else if c == '\t' {
            w.push('\\');
            w.push('t');
        } else if char_val(c) <= 0x1f {
            w.push('\\');
            w.push('u');
            w.push('0');
            w.push('0');
            let v = char_val(c);
            w.push(hex_char((v / 16) as u8));
            w.push(hex_char((v % 16) as u8));
            proof {
                assert(v as int == c as int);
                assert(escape_char(c) =~= seq![
                    '\\',
                    'u',
                    '0',
                    '0',
                    hex_digit(c as int / 16),
                    hex_digit(c as int % 16),
                ]);
            }
        } else {
            w.push(c);
        }
        proof {
            lemma_escape_seq_snoc(s@.take(i as int), s@[i as int]);
            assert(s@.take(i as int).push(s@[i as int]) =~= s@.take(i as int + 1));
            assert(w@ =~= w0 + escape_seq(s@.take(i as int + 1)));
        }
        i = i + 1;
    }
    proof {
        assert(s@.take(s@.len() as int) =~= s@);
    }
}

/// Code point of a character.
fn char_val(c: char) -> (r: u32)
    ensures
        r == c as int,
{
    c as u32
}

/// Lowercase hexadecimal digit of a value below sixteen.
fn hex_char(d: u8) -> (r: char)
    requires
        d < 16,
    ensures
        r == hex_digit(d as int),
{
    if d < 10 {
        (48 + d) as char
    } else {
        (87 + d) as char
    }
}

} // verus!
