//! Text building: decimal numbers and HTML escaping.

use vstd::prelude::*;
use vstd::string::*;

verus! {

/// `String::push` appends one character to the end of the string.
pub assume_specification[ String::push ](s: &mut String, c: char)
    ensures
        final(s)@ == old(s)@.push(c),
;

/// The character for a decimal digit.
pub open spec fn digit(d: int) -> char {
    (48 + d) as char
}

/// A number in decimal, without leading zeros.
pub open spec fn decimal(n: nat) -> Seq<char>
    decreases n,
{
    if n < 10 {
        seq![digit(n as int)]
    } else {
        decimal(n / 10).push(digit((n % 10) as int))
    }
}

/// A number below one hundred in two decimal digits.
pub open spec fn two_digits(n: nat) -> Seq<char> {
    seq![digit((n / 10) as int), digit((n % 10) as int)]
}

/// The entity reference that stands for a character in HTML text and attributes,
/// or the character itself where it needs none.
pub open spec fn escape_char(c: char) -> Seq<char> {
    if c == '&' {
        "&amp;"@
    } else if c == '<' {
        "&lt;"@
    } else if c == '>' {
        "&gt;"@
    } else if c == '"' {
        "&quot;"@
    } else if c == '\'' {
        "&#39;"@
    } else {
        seq![c]
    }
}

/// Every character of a text escaped, in order.
pub open spec fn escaped(s: Seq<char>) -> Seq<char>
    decreases s.len(),
{
    if s.len() == 0 {
        s
    } else {
        escaped(s.drop_last()) + escape_char(s.last())
    }
}

/// Whether a character has a meaning of its own in HTML text or attributes.
pub open spec fn is_markup(c: char) -> bool {
    c == '&' || c == '<' || c == '>' || c == '"' || c == '\''
}

/// Appends the digit `d`.
fn push_digit(out: &mut String, d: u8)
    requires
        d < 10,
    ensures
        final(out)@ == old(out)@.push(digit(d as int)),
{
    out.push((48 + d) as char);
}

/// Appends a number in decimal.
pub fn push_decimal(out: &mut String, n: u64)
    ensures
        final(out)@ == old(out)@ + decimal(n as nat),
    decreases n,
{
    if n < 10 {
        push_digit(out, n as u8);
    } else {
        push_decimal(out, n / 10);
        push_digit(out, (n % 10) as u8);
    }
}

/// Appends a number below one hundred in two digits.
pub fn push_two_digits(out: &mut String, n: u8)
    requires
        n < 100,
    ensures
        final(out)@ == old(out)@ + two_digits(n as nat),
{
    push_digit(out, n / 10);
    push_digit(out, n % 10);
}

/// Replaces the characters that carry meaning in HTML by their entity references.
pub fn html_escape(s: &str) -> (out: String)
    ensures
        out@ == escaped(s@),
{
    let mut out = String::new();
    for ch in it: s.chars()
        invariant
            it.seq() == s@,
            out@ == escaped(s@.take(it.index())),
    {
        proof {
            assert(s@.take(it.index() + 1).drop_last() =~= s@.take(it.index()));
        }
        if ch == '&' {
            out.append("&amp;");
        } else if ch == '<' {
            out.append("&lt;");
        } else if ch == '>' {
            out.append("&gt;");
        } else if ch == '"' {
            out.append("&quot;");
        } else if ch == '\'' {
            out.append("&#39;");
        } else {
            out.push(ch);
        }
    }
    proof {
        assert(s@.take(s@.len() as int) =~= s@);
    }
    out
}

/// Escaping works character by character, so it can be done in pieces.
pub proof fn escaped_concat(a: Seq<char>, b: Seq<char>)
    ensures
        escaped(a + b) == escaped(a) + escaped(b),
    decreases b.len(),
{
    if b.len() == 0 {
        assert(a + b =~= a);
        assert(escaped(a) + escaped(b) =~= escaped(a));
    } else {
        escaped_concat(a, b.drop_last());
        assert((a + b).drop_last() =~= a + b.drop_last());
        assert((a + b).last() == b.last());
        assert(escaped(a) + (escaped(b.drop_last()) + escape_char(b.last())) =~= (escaped(a)
            + escaped(b.drop_last())) + escape_char(b.last()));
    }
}

/// Text without markup characters is left as it is.
pub proof fn escaped_plain(s: Seq<char>)
    requires
        forall|i: int| 0 <= i < s.len() ==> !is_markup(#[trigger] s[i]),
    ensures
        escaped(s) == s,
    decreases s.len(),
{
    if s.len() > 0 {
        assert forall|i: int| 0 <= i < s.drop_last().len() implies !is_markup(
            #[trigger] s.drop_last()[i],
        ) by {
            assert(s.drop_last()[i] == s[i]);
        }
        escaped_plain(s.drop_last());
        assert(!is_markup(s[s.len() - 1]));
        assert(s.drop_last() + seq![s.last()] =~= s);
    }
}

/// What `escape_char` yields holds no quote and no angle bracket, and an ampersand only
/// at its start.
proof fn escape_char_shape(c: char)
    ensures
        escape_char(c).len() > 0,
        forall|i: int|
            0 <= i < escape_char(c).len() ==> {
                let e = #[trigger] escape_char(c)[i];
                e != '<' && e != '>' && e != '"' && e != '\'' && (e == '&' ==> i == 0 && is_markup(
                    c,
                ))
            },
{
    reveal_strlit("&amp;");
    reveal_strlit("&lt;");
    reveal_strlit("&gt;");
    reveal_strlit("&quot;");
    reveal_strlit("&#39;");
}

/// Escaped text can stand between tags and inside a quoted attribute: it holds no angle
/// bracket and no quote.
pub proof fn escaped_has_no_markup(s: Seq<char>)
    ensures
        forall|i: int|
            0 <= i < escaped(s).len() ==> {
                let e = #[trigger] escaped(s)[i];
                e != '<' && e != '>' && e != '"' && e != '\''
            },
    decreases s.len(),
{
    if s.len() > 0 {
        escaped_has_no_markup(s.drop_last());
        escape_char_shape(s.last());
        let head = escaped(s.drop_last());
        let tail = escape_char(s.last());
        assert forall|i: int| 0 <= i < escaped(s).len() implies {
            let e = #[trigger] escaped(s)[i];
            e != '<' && e != '>' && e != '"' && e != '\''
        } by {
            if i < head.len() {
                assert(escaped(s)[i] == head[i]);
            } else {
                assert(escaped(s)[i] == tail[i - head.len()]);
            }
        }
    }
}

/// The first character decides how an escaped text starts.
proof fn escaped_first(s: Seq<char>)
    requires
        s.len() > 0,
    ensures
        escaped(s) == escape_char(s[0]) + escaped(s.drop_first()),
{
    let head = seq![s[0]];
    assert(head + s.drop_first() =~= s);
    escaped_concat(head, s.drop_first());
    assert(escaped(head) =~= escape_char(s[0])) by {
        reveal_with_fuel(escaped, 2);
        assert(head.drop_last() =~= Seq::<char>::empty());
    }
}

/// No two characters have escapes of which one starts the other.
proof fn escape_char_prefix_free(c: char, x: Seq<char>, d: char, y: Seq<char>)
    requires
        escape_char(c) + x == escape_char(d) + y,
    ensures
        c == d,
        x == y,
{
    reveal_strlit("&amp;");
    reveal_strlit("&lt;");
    reveal_strlit("&gt;");
    reveal_strlit("&quot;");
    reveal_strlit("&#39;");
    let left = escape_char(c) + x;
    let right = escape_char(d) + y;
    assert(left[0] == escape_char(c)[0]);
    assert(right[0] == escape_char(d)[0]);
    if is_markup(c) && is_markup(d) {
        assert(left[1] == escape_char(c)[1]);
        assert(right[1] == escape_char(d)[1]);
    }
    assert(c == d);
    let n = escape_char(c).len() as int;
    assert(x =~= left.skip(n));
    assert(y =~= right.skip(n));
}

/// Escaping loses nothing: two texts that escape to the same text are the same.
pub proof fn escaped_injective(a: Seq<char>, b: Seq<char>)
    requires
        escaped(a) == escaped(b),
    ensures
        a == b,
    decreases a.len(),
{
    if a.len() > 0 {
        escaped_first(a);
        escape_char_shape(a[0]);
    }
    if b.len() > 0 {
        escaped_first(b);
        escape_char_shape(b[0]);
    }
    if a.len() == 0 || b.len() == 0 {
        assert(a =~= b);
    } else {
        escape_char_prefix_free(a[0], escaped(a.drop_first()), b[0], escaped(b.drop_first()));
        escaped_injective(a.drop_first(), b.drop_first());
        assert(a =~= seq![a[0]] + a.drop_first());
        assert(b =~= seq![b[0]] + b.drop_first());
    }
}

/// The number that digits stand for.
pub open spec fn number(digits: Seq<char>) -> int
    decreases digits.len(),
{
    if digits.len() == 0 {
        0
    } else {
        10 * number(digits.drop_last()) + (digits.last() as int - '0' as int)
    }
}

/// Whether a text consists of decimal digits.
pub open spec fn all_digits(s: Seq<char>) -> bool {
    forall|i: int| 0 <= i < s.len() ==> '0' <= #[trigger] s[i] && s[i] <= '9'
}

/// Whether a text is the number `n`, written without zeros in front.
pub open spec fn spells(s: Seq<char>, n: int) -> bool {
    s.len() > 0 && all_digits(s) && number(s) == n && (s.len() > 1 ==> s[0] != '0')
}

/// A digit is the character that stands for it.
proof fn digit_value(d: int)
    requires
        0 <= d < 10,
    ensures
        digit(d) as int == 48 + d,
{
}

/// Numbers can be read back from their decimal text, which has no zeros in front.
pub proof fn decimal_reads_back(n: nat)
    ensures
        spells(decimal(n), n as int),
    decreases n,
{
    let s = decimal(n);
    digit_value((n % 10) as int);
    if n < 10 {
        digit_value(n as int);
        assert(s.drop_last() =~= Seq::<char>::empty());
        reveal_with_fuel(number, 2);
    } else {
        decimal_reads_back(n / 10);
        assert(s.drop_last() =~= decimal(n / 10));
        assert(s[0] == decimal(n / 10)[0]);
        if decimal(n / 10).len() == 1 {
            reveal_with_fuel(number, 2);
            assert(decimal(n / 10).drop_last() =~= Seq::<char>::empty());
            assert(decimal(n / 10)[0] as int == 48 + n / 10);
        }
    }
}

/// A number below one hundred can be read back from its two digits.
pub proof fn two_digits_read_back(n: nat)
    requires
        n < 100,
    ensures
        two_digits(n).len() == 2,
        all_digits(two_digits(n)),
        number(two_digits(n)) == n,
{
    let s = two_digits(n);
    digit_value((n / 10) as int);
    digit_value((n % 10) as int);
    reveal_with_fuel(number, 3);
    assert(s.drop_last() =~= seq![s[0]]);
    assert(s.drop_last().drop_last() =~= Seq::<char>::empty());
}

/// The five characters with a meaning in HTML are escaped by their own entities, every other
/// character stays; with `escaped_concat` this settles every text.
pub proof fn escaped_one(c: char)
    ensures
        c == '&' ==> escaped(seq![c]) == "&amp;"@,
        c == '<' ==> escaped(seq![c]) == "&lt;"@,
        c == '>' ==> escaped(seq![c]) == "&gt;"@,
        c == '"' ==> escaped(seq![c]) == "&quot;"@,
        c == '\'' ==> escaped(seq![c]) == "&#39;"@,
        c != '&' && c != '<' && c != '>' && c != '"' && c != '\'' ==> escaped(seq![c]) == seq![c],
{
    escaped_first(seq![c]);
    assert(seq![c].drop_first() =~= Seq::<char>::empty());
    assert(escape_char(c) + Seq::<char>::empty() =~= escape_char(c));
}

} // verus!
