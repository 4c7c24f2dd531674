//! Text building blocks: comparison, decimal and hexadecimal numerals, and
//! the JSON string form every readout shares.
use vstd::prelude::*;

verus! {

/// `String::push` appends one character at the end of the string.
pub assume_specification[ String::push ](s: &mut String, c: char)
    ensures
        final(s)@ == old(s)@.push(c),
;

/// Whether two texts hold the same characters.
pub fn same_text(a: &str, b: &str) -> (same: bool)
    ensures
        same <==> a@ == b@,
{
    a.to_owned() == b.to_owned()
}

/// The decimal digit of a value below ten.
pub open spec fn digit_char(d: nat) -> char {
    (48 + d) as char
}

/// The decimal numeral of `n`, without leading zeros.
pub open spec fn decimal(n: nat) -> Seq<char>
    decreases n,
{
    if n < 10 {
        seq![digit_char(n)]
    } else {
        decimal(n / 10).push(digit_char(n % 10))
    }
}

/// The lower-case hexadecimal digit of a value below sixteen.
pub open spec fn hex_char(d: nat) -> char {
    if d < 10 {
        (48 + d) as char
    } else {
        (87 + d) as char
    }
}

/// The two-digit lower-case hexadecimal numeral of a byte.
pub open spec fn hex_byte(b: u8) -> Seq<char> {
    seq![hex_char((b / 16) as nat), hex_char((b % 16) as nat)]
}

fn hex_digit(d: u8) -> (c: char)
    requires
        d < 16,
    ensures
        c == hex_char(d as nat),
{
    if d < 10 {
        (48u8 + d) as char
    } else {
        (87u8 + d) as char
    }
}

/// Appends the decimal numeral of `n`.
pub fn push_decimal(s: &mut String, n: u128)
    ensures
        final(s)@ == old(s)@ + decimal(n as nat),
    decreases n,
{
    if n >= 10 {
        push_decimal(s, n / 10);
    }
    s.push((48u8 + (n % 10) as u8) as char);
    proof {
        assert(s@ =~= old(s)@ + decimal(n as nat));
    }
}

/// Appends the decimal numeral of a length.
pub fn push_len(s: &mut String, n: usize)
    ensures
        final(s)@ == old(s)@ + decimal(n as nat),
{
    push_decimal(s, n as u128);
}

/// Appends the two hexadecimal digits of a byte.
pub fn push_hex_byte(s: &mut String, b: u8)
    ensures
        final(s)@ == old(s)@ + hex_byte(b),
{
    s.push(hex_digit(b / 16));
    s.push(hex_digit(b % 16));
    proof {
        assert(s@ =~= old(s)@ + hex_byte(b));
    }
}

/// What stands before the `n`th item of a list.
pub open spec fn separator(n: nat) -> Seq<char> {
    if n > 1 {
        ","@
    } else {
        Seq::empty()
    }
}

/// A boolean as JSON writes it.
pub open spec fn bool_text(b: bool) -> Seq<char> {
    if b {
        "true"@
    } else {
        "false"@
    }
}

/// Appends `true` or `false`.
pub fn push_bool(s: &mut String, b: bool)
    ensures
        final(s)@ == old(s)@ + bool_text(b),
{
    if b {
        s.append("true");
    } else {
        s.append("false");
    }
}

/// One character of a JSON string: the quote, the backslash and the common
/// control characters by their short escapes, any other control character as
/// `\u00xx`, and every other character as itself.
pub open spec fn json_char(c: char) -> Seq<char> {
    if c == '"' {
        "\\\""@
    } else if c == '\\' {
        "\\\\"@
    } else if c == '\n' {
        "\\n"@
    } else if c == '\r' {
        "\\r"@
    } else if c == '\t' {
        "\\t"@
    } else if (c as u32) < 0x20 {
        "\\u00"@ + hex_byte(c as u8)
    } else {
        seq![c]
    }
}

/// The characters of `s`, each in its JSON form, one after the other.
pub open spec fn json_chars(s: Seq<char>) -> Seq<char>
    decreases s.len(),
{
    if s.len() == 0 {
        Seq::empty()
    } else {
        json_chars(s.drop_last()) + json_char(s.last())
    }
}

/// `s` as a quoted JSON string.
pub open spec fn json_text(s: Seq<char>) -> Seq<char> {
    seq!['"'] + json_chars(s) + seq!['"']
}

fn push_json_char(out: &mut String, c: char)
    ensures
        final(out)@ == old(out)@ + json_char(c),
{
    if c == '"' {
        out.append("\\\"");
    } else if c == '\\' {
        out.append("\\\\");
    } else if c == '\n' {
        out.append("\\n");
    } else if c == '\r' {
        out.append("\\r");
    } else if c == '\t' {
        out.append("\\t");
    } else if (c as u32) < 0x20 {
        out.append("\\u00");
        push_hex_byte(out, c as u8);
        proof {
            assert(out@ =~= old(out)@ + json_char(c));
        }
    } else {
        out.push(c);
        proof {
            assert(out@ =~= old(out)@ + json_char(c));
        }
    }
}

/// Appends `text` as a quoted JSON string.
pub fn push_json_string(out: &mut String, text: &str)
    ensures
        final(out)@ == old(out)@ + json_text(text@),
{
    out.push('"');
    let ghost start = out@;
    for c in iter: text.chars()
        invariant
            iter.seq() == text@,
            out@ == start + json_chars(text@.take(iter.index())),
    {
        push_json_char(out, c);
        proof {
            let i = iter.index();
            assert(text@.take(i + 1).drop_last() =~= text@.take(i));
            assert(out@ =~= start + json_chars(text@.take(i + 1)));
        }
    }
    out.push('"');
    proof {
        assert(text@.take(text@.len() as int) =~= text@);
        assert(out@ =~= old(out)@ + json_text(text@));
    }
}

/// The first `n` texts as JSON strings, with commas between them.
pub open spec fn json_list(list: Seq<String>, n: nat) -> Seq<char>
    decreases n,
{
    if n == 0 {
        Seq::empty()
    } else {
        json_list(list, (n - 1) as nat) + separator(n) + json_text(list[n - 1]@)
    }
}

/// Appends texts as JSON strings, with commas between them.
pub fn push_json_list(text: &mut String, list: &Vec<String>)
    ensures
        final(text)@ == old(text)@ + json_list(list@, list@.len()),
{
    let n: usize = list.len();
    let ghost before = text@;
    let mut i: usize = 0;
    proof {
        assert(before + json_list(list@, 0) =~= before);
    }
    while i < n
        invariant
            i <= n,
            n == list@.len(),
            text@ == before + json_list(list@, i as nat),
        decreases n - i,
    {
        if i > 0 {
            text.append(",");
        }
        push_json_string(text, list[i].as_str());
        i = i + 1;
        proof {
            assert(text@ =~= before + json_list(list@, i as nat));
        }
    }
}

/// `text` as a quoted JSON string. Names come from untrusted files, so a
/// quote, a backslash or a control character cannot end the string early.
pub fn json_string(text: &str) -> (quoted: String)
    ensures
        quoted@ == json_text(text@),
{
    let mut out: String = String::new();
    push_json_string(&mut out, text);
    proof {
        assert(out@ =~= json_text(text@));
    }
    out
}

/// Inside a JSON string no control character appears, whatever the text held:
/// the quoted form is always one line of printable escapes.
pub proof fn json_chars_hold_no_control(s: Seq<char>)
    ensures
        forall|i: int| 0 <= i < json_chars(s).len() ==> (#[trigger] json_chars(s)[i]) as u32 >= 0x20,
    decreases s.len(),
{
    if s.len() > 0 {
        json_chars_hold_no_control(s.drop_last());
        reveal_strlit("\\\"");
        reveal_strlit("\\\\");
        reveal_strlit("\\n");
        reveal_strlit("\\r");
        reveal_strlit("\\t");
        reveal_strlit("\\u00");
        let tail = json_char(s.last());
        assert forall|i: int| 0 <= i < tail.len() implies (#[trigger] tail[i]) as u32 >= 0x20 by {}
        let head = json_chars(s.drop_last());
        assert forall|i: int| 0 <= i < json_chars(s).len() implies (#[trigger] json_chars(
            s,
        )[i]) as u32 >= 0x20 by {
            if i < head.len() {
                assert(json_chars(s)[i] == head[i]);
            } else {
                assert(json_chars(s)[i] == tail[i - head.len()]);
            }
        }
    }
}

/// The character of a short escape.
pub open spec fn short_escape(c: char) -> Option<char> {
    if c == '"' || c == '\\' || c == '/' {
        Some(c)
    } else if c == 'b' {
        Some(8 as char)
    } else if c == 'f' {
        Some(12 as char)
    } else if c == 'n' {
        Some('\n')
    } else if c == 'r' {
        Some('\r')
    } else if c == 't' {
        Some('\t')
    } else {
        None
    }
}

/// The value of a hexadecimal digit of either case.
pub open spec fn hex_value(c: char) -> Option<nat> {
    let n = c as nat;
    if 48 <= n < 58 {
        Some((n - 48) as nat)
    } else if 97 <= n < 103 {
        Some((n - 87) as nat)
    } else if 65 <= n < 71 {
        Some((n - 55) as nat)
    } else {
        None
    }
}

/// The number that a `\uxxxx` escape at the front of `t` gives.
pub open spec fn code_unit(t: Seq<char>) -> Option<nat> {
    if t.len() < 6 || t[0] != '\\' || t[1] != 'u' {
        None
    } else {
        match (hex_value(t[2]), hex_value(t[3]), hex_value(t[4]), hex_value(t[5])) {
            (Some(a), Some(b), Some(c), Some(d)) => Some(4096 * a + 256 * b + 16 * c + d),
            _ => None,
        }
    }
}

/// The first character that the inside of a JSON string literal gives, and how
/// many characters of the literal it takes; none where no character can be read.
pub open spec fn first_char(t: Seq<char>) -> Option<(char, int)> {
    if t.len() == 0 || t[0] == '"' || (t[0] as nat) < 0x20 {
        None
    } else if t[0] != '\\' {
        Some((t[0], 1))
    } else {
        match code_unit(t) {
            Some(n) => if 0xd800 <= n < 0xdc00 {
                match code_unit(t.skip(6)) {
                    Some(m) if 0xdc00 <= m < 0xe000 => Some(
                        ((0x1_0000 + 0x400 * (n - 0xd800) + (m - 0xdc00)) as char, 12),
                    ),
                    _ => None,
                }
            } else if 0xdc00 <= n < 0xe000 {
                None
            } else {
                Some((n as char, 6))
            },
            None => if t.len() > 1 && short_escape(t[1]) is Some {
                Some((short_escape(t[1])->0, 2))
            } else {
                None
            },
        }
    }
}

/// What the rest of a JSON string literal, behind its opening quote, reads as;
/// none where it is not one literal to its end.
pub open spec fn read_rest(t: Seq<char>) -> Option<Seq<char>>
    decreases t.len(),
{
    if t == seq!['"'] {
        Some(Seq::empty())
    } else {
        match first_char(t) {
            Some((c, n)) => if 0 < n <= t.len() {
                match read_rest(t.skip(n)) {
                    Some(s) => Some(seq![c] + s),
                    None => None,
                }
            } else {
                None
            },
            None => None,
        }
    }
}

/// The text that a JSON string literal stands for.
pub open spec fn read_text(t: Seq<char>) -> Option<Seq<char>> {
    if t.len() > 0 && t[0] == '"' {
        read_rest(t.skip(1))
    } else {
        None
    }
}

proof fn lemma_front(s: Seq<char>)
    requires
        s.len() > 0,
    ensures
        json_chars(s) == json_char(s[0]) + json_chars(s.skip(1)),
    decreases s.len(),
{
    reveal_with_fuel(json_chars, 2);
    if s.len() == 1 {
        assert(s.drop_last().len() == 0);
        assert(s.skip(1).len() == 0);
        assert(json_chars(s) =~= json_char(s[0]) + json_chars(s.skip(1)));
    } else {
        lemma_front(s.drop_last());
        assert(s.drop_last().skip(1) =~= s.skip(1).drop_last());
        assert(s.skip(1).last() == s.last());
        assert(json_chars(s) =~= json_char(s[0]) + json_chars(s.skip(1)));
    }
}

proof fn lemma_first_char(c: char, rest: Seq<char>)
    ensures
        first_char(json_char(c) + rest) == Some((c, json_char(c).len() as int)),
        json_char(c).len() > 0,
        (json_char(c) + rest).skip(json_char(c).len() as int) == rest,
{
    reveal_strlit("\\\"");
    reveal_strlit("\\\\");
    reveal_strlit("\\n");
    reveal_strlit("\\r");
    reveal_strlit("\\t");
    reveal_strlit("\\u00");
    let head = json_char(c);
    let t = head + rest;
    assert(t.skip(head.len() as int) =~= rest);
    if c != '"' && c != '\\' && c != '\n' && c != '\r' && c != '\t' && (c as u32) < 0x20 {
        let b = c as u8;
        assert(b == c as nat);
        let (hi, lo) = ((b / 16) as nat, (b % 16) as nat);
        assert(head.len() == 6);
        assert(t[0] == '\\' && t[1] == 'u' && t[2] == '0' && t[3] == '0');
        assert(t[4] == hex_char(hi) && t[5] == hex_char(lo));
        assert(hex_value(t[2]) == Some(0nat) && hex_value(t[3]) == Some(0nat));
        assert(hex_value(hex_char(hi)) == Some(hi));
        assert(hex_value(hex_char(lo)) == Some(lo));
        assert(code_unit(t) == Some(c as nat));
    } else if head.len() == 1 {
        assert(t[0] == c);
    } else {
        assert(t[0] == head[0] && t[1] == head[1]);
        assert(t[1] != 'u');
    }
}

proof fn lemma_reads_back(s: Seq<char>)
    ensures
        read_rest(json_chars(s) + seq!['"']) == Some(s),
    decreases s.len(),
{
    let t = json_chars(s) + seq!['"'];
    if s.len() == 0 {
        assert(t =~= seq!['"']);
        assert(s =~= Seq::empty());
    } else {
        let rest = json_chars(s.skip(1)) + seq!['"'];
        lemma_front(s);
        lemma_reads_back(s.skip(1));
        lemma_first_char(s[0], rest);
        assert(t =~= json_char(s[0]) + rest);
        assert(t.len() > 1);
        assert(t != seq!['"']);
        assert(seq![s[0]] + s.skip(1) =~= s);
    }
}

/// The quoted form of a text is one JSON string literal, and reads back as the
/// text.
pub proof fn a_quoted_text_reads_back(s: Seq<char>)
    ensures
        json_text(s)[0] == '"',
        json_text(s).last() == '"',
        read_text(json_text(s)) == Some(s),
{
    lemma_reads_back(s);
    assert(json_text(s).skip(1) =~= json_chars(s) + seq!['"']);
}

/// No two texts share a quoted form.
pub proof fn quoted_texts_are_distinct(a: Seq<char>, b: Seq<char>)
    requires
        json_text(a) == json_text(b),
    ensures
        a == b,
{
    a_quoted_text_reads_back(a);
    a_quoted_text_reads_back(b);
}

/// A decimal is written as it is read: a digit put behind the decimal of a number is
/// the decimal of ten times the number and the digit, and a lone digit is its own.
pub proof fn a_decimal_grows_by_its_last_digit(n: nat, d: nat)
    requires
        d < 10,
    ensures
        n > 0 ==> decimal(10 * n + d) == decimal(n).push((48 + d) as char),
        decimal(d) == seq![(48 + d) as char],
{
    if n > 0 {
        assert((10 * n + d) / 10 == n && (10 * n + d) % 10 == d);
    }
}

} // verus!
