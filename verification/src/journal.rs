use vstd::prelude::*;

use crate::error::Error;
use crate::mover::{record_views, MoveRecord};

verus! {

// The journal is persisted as a JSON array of `{"from":...,"to":...}`
// objects, in move order. The schema is the compatibility surface:
// `to_json` renders one canonical compact form, `from_json` accepts any
// schema-conformant spelling — whitespace between tokens, the short
// escapes, and `\u00XX` escapes for control characters — and the round
// trip is proved. `to_json` escapes `"` and `\` with a backslash, writes
// the line and tab controls as `\n`, `\r`, `\t`, and every other control
// character as `\u00XX`; any other character stands for itself.

/// The hexadecimal digit for a value below sixteen, in lower case.
pub open spec fn hex_digit(n: int) -> char {
    if n == 0 {
        '0'
    } else if n == 1 {
        '1'
    } else if n == 2 {
        '2'
    } else if n == 3 {
        '3'
    } else if n == 4 {
        '4'
    } else if n == 5 {
        '5'
    } else if n == 6 {
        '6'
    } else if n == 7 {
        '7'
    } else if n == 8 {
        '8'
    } else if n == 9 {
        '9'
    } else if n == 10 {
        'a'
    } else if n == 11 {
        'b'
    } else if n == 12 {
        'c'
    } else if n == 13 {
        'd'
    } else if n == 14 {
        'e'
    } else {
        'f'
    }
}

/// The value of a hexadecimal digit, either case, or `-1`.
pub open spec fn hex_val(c: char) -> int {
    if c == '0' {
        0
    } else if c == '1' {
        1
    } else if c == '2' {
        2
    } else if c == '3' {
        3
    } else if c == '4' {
        4
    } else if c == '5' {
        5
    } else if c == '6' {
        6
    } else if c == '7' {
        7
    } else if c == '8' {
        8
    } else if c == '9' {
        9
    } else if c == 'a' || c == 'A' {
        10
    } else if c == 'b' || c == 'B' {
        11
    } else if c == 'c' || c == 'C' {
        12
    } else if c == 'd' || c == 'D' {
        13
    } else if c == 'e' || c == 'E' {
        14
    } else if c == 'f' || c == 'F' {
        15
    } else {
        -1
    }
}

/// How one character is written inside a JSON string.
pub open spec fn escape_char(c: char) -> Seq<char> {
    if c == '"' {
        seq!['\\', '"']
    } else if c == '\\' {
        seq!['\\', '\\']
    } else if c == '\n' {
        seq!['\\', 'n']
    } else if c == '\r' {
        seq!['\\', 'r']
    } else if c == '\t' {
        seq!['\\', 't']
    } else if (c as u32) < 0x20 {
        seq!['\\', 'u', '0', '0', hex_digit((c as u32) as int / 16), hex_digit((c as u32) as int % 16)]
    } else {
        seq![c]
    }
}

/// A string's characters, escaped for a JSON string body.
pub open spec fn json_escape(s: Seq<char>) -> Seq<char>
    decreases s.len(),
{
    if s.len() == 0 {
        Seq::empty()
    } else {
        escape_char(s[0]) + json_escape(s.drop_first())
    }
}

/// The opening of one journal entry, up to the first string's content.
pub open spec fn lit_head() -> Seq<char> {
    seq!['{', '"', 'f', 'r', 'o', 'm', '"', ':', '"']
}

/// Between the two strings of an entry, up to the second's content.
pub open spec fn lit_mid() -> Seq<char> {
    seq![',', '"', 't', 'o', '"', ':', '"']
}

/// One journal entry: an object with the `from` and `to` fields.
pub open spec fn json_entry(f: Seq<char>, t: Seq<char>) -> Seq<char> {
    lit_head() + json_escape(f) + seq!['"'] + lit_mid() + json_escape(t) + seq!['"', '}']
}

/// The comma-separated entry list.
pub open spec fn json_entries(es: Seq<(Seq<char>, Seq<char>)>) -> Seq<char>
    decreases es.len(),
{
    if es.len() == 0 {
        Seq::empty()
    } else if es.len() == 1 {
        json_entry(es[0].0, es[0].1)
    } else {
        json_entry(es[0].0, es[0].1) + seq![','] + json_entries(es.drop_first())
    }
}

/// A whole journal: the entry list in brackets.
pub open spec fn json_journal(es: Seq<(Seq<char>, Seq<char>)>) -> Seq<char> {
    seq!['['] + json_entries(es) + seq![']']
}

/// Escaping distributes over concatenation.
pub proof fn lemma_escape_app(a: Seq<char>, b: Seq<char>)
    ensures
        json_escape(a + b) == json_escape(a) + json_escape(b),
    decreases a.len(),
{
    if a.len() == 0 {
        assert(a + b =~= b);
        assert(json_escape(a) + json_escape(b) =~= json_escape(b));
    } else {
        assert((a + b).drop_first() =~= a.drop_first() + b);
        lemma_escape_app(a.drop_first(), b);
        assert(escape_char((a + b)[0]) + (json_escape(a.drop_first()) + json_escape(b)) =~= (
        escape_char(a[0]) + json_escape(a.drop_first())) + json_escape(b));
    }
}

/// Appending one entry to a non-empty list appends a comma and the entry.
proof fn lemma_json_entries_push(es: Seq<(Seq<char>, Seq<char>)>, e: (Seq<char>, Seq<char>))
    requires
        es.len() >= 1,
    ensures
        json_entries(es.push(e)) == json_entries(es) + seq![','] + json_entry(e.0, e.1),
    decreases es.len(),
{
    if es.len() == 1 {
        assert(es.push(e).drop_first() =~= seq![e]);
        assert(json_entries(seq![e]) == json_entry(e.0, e.1));
    } else {
        assert(es.push(e).drop_first() =~= es.drop_first().push(e));
        lemma_json_entries_push(es.drop_first(), e);
        assert(json_entry(es[0].0, es[0].1) + seq![','] + (json_entries(es.drop_first())
            + seq![','] + json_entry(e.0, e.1)) =~= (json_entry(es[0].0, es[0].1) + seq![',']
            + json_entries(es.drop_first())) + seq![','] + json_entry(e.0, e.1));
    }
}

/// Relies on `String::push`: appends the one character.
#[verifier::external_body]
fn push_char(s: &mut String, c: char)
    ensures
        final(s)@ == old(s)@.push(c),
{
    s.push(c);
}

/// The hexadecimal digit character for a value below sixteen.
fn hex_digit_char(n: u32) -> (r: char)
    requires
        n < 16,
    ensures
        r == hex_digit(n as int),
{
    if n == 0 {
        '0'
    } else if n == 1 {
        '1'
    } else if n == 2 {
        '2'
    } else if n == 3 {
        '3'
    } else if n == 4 {
        '4'
    } else if n == 5 {
        '5'
    } else if n == 6 {
        '6'
    } else if n == 7 {
        '7'
    } else if n == 8 {
        '8'
    } else if n == 9 {
        '9'
    } else if n == 10 {
        'a'
    } else if n == 11 {
        'b'
    } else if n == 12 {
        'c'
    } else if n == 13 {
        'd'
    } else if n == 14 {
        'e'
    } else {
        'f'
    }
}

/// Append `s`'s characters to `out` in escaped form.
fn append_escaped(out: &mut String, s: &String)
    ensures
        final(out)@ == old(out)@ + json_escape(s@),
{
    let str_s: &str = s.as_str();
    let n = str_s.unicode_len();
    let mut i: usize = 0;
    proof {
        assert(s@.take(0) =~= Seq::<char>::empty());
        assert(out@ + json_escape(s@.take(0)) =~= out@);
    }
    while i < n
        invariant
            str_s@ == s@,
            n == s@.len(),
            i <= n,
            out@ == old(out)@ + json_escape(s@.take(i as int)),
        decreases n - i,
    {
        let c = str_s.get_char(i);
        let ghost pre = out@;
        if c == '"' {
            push_char(out, '\\');
            push_char(out, '"');
        } else if c == '\\' {
            push_char(out, '\\');
            push_char(out, '\\');
        } else if c == '\n' {
            push_char(out, '\\');
            push_char(out, 'n');
        } else if c == '\r' {
            push_char(out, '\\');
            push_char(out, 'r');
        } else if c == '\t' {
            push_char(out, '\\');
            push_char(out, 't');
        } else if (c as u32) < 0x20 {
            let u = c as u32;
            push_char(out, '\\');
            push_char(out, 'u');
            push_char(out, '0');
            push_char(out, '0');
            push_char(out, hex_digit_char(u / 16));
            push_char(out, hex_digit_char(u % 16));
        } else {
            push_char(out, c);
        }
        proof {
            assert(out@ =~= pre + escape_char(c));
            assert(s@.take(i + 1) =~= s@.take(i as int) + seq![c]);
            lemma_escape_app(s@.take(i as int), seq![c]);
            assert(json_escape(seq![c]) =~= escape_char(c)) by {
                reveal_with_fuel(json_escape, 2);
                assert(seq![c].len() == 1);
                assert(seq![c][0] == c);
                assert(seq![c].drop_first() =~= Seq::<char>::empty());
            }
            assert(out@ =~= old(out)@ + json_escape(s@.take(i + 1)));
        }
        i += 1;
    }
    proof {
        assert(s@.take(n as int) =~= s@);
    }
}

/// Whether `c` is one of JSON's short escape codes after a backslash.
pub open spec fn is_escape_code(c: char) -> bool {
    c == '"' || c == '\\' || c == '/' || c == 'b' || c == 'f' || c == 'n' || c == 'r' || c == 't'
}

/// The character a short escape code stands for.
pub open spec fn unescape_char(c: char) -> char {
    if c == '"' {
        '"'
    } else if c == '\\' {
        '\\'
    } else if c == '/' {
        '/'
    } else if c == 'b' {
        '\u{0008}'
    } else if c == 'f' {
        '\u{000c}'
    } else if c == 'n' {
        '\n'
    } else if c == 'r' {
        '\r'
    } else {
        '\t'
    }
}

/// JSON's whitespace characters.
pub open spec fn is_ws(c: char) -> bool {
    c == ' ' || c == '\n' || c == '\r' || c == '\t'
}

/// The first position at or after `i` that does not hold whitespace.
pub open spec fn skip_ws(s: Seq<char>, i: int) -> int
    decreases s.len() - i,
{
    if 0 <= i < s.len() && is_ws(s[i]) {
        skip_ws(s, i + 1)
    } else {
        i
    }
}

/// Skipping whitespace stays within the string and stops on a
/// non-whitespace character.
pub proof fn lemma_skip_ws(s: Seq<char>, i: int)
    requires
        0 <= i <= s.len(),
    ensures
        i <= skip_ws(s, i) <= s.len(),
        skip_ws(s, i) < s.len() ==> !is_ws(s[skip_ws(s, i)]),
    decreases s.len() - i,
{
    if i < s.len() && is_ws(s[i]) {
        lemma_skip_ws(s, i + 1);
    }
}

/// Advance past whitespace, by characters.
fn skip_ws_exec(s: &str, i: usize) -> (r: usize)
    requires
        i <= s@.len(),
    ensures
        r as int == skip_ws(s@, i as int),
        i <= r <= s@.len(),
    decreases s@.len() - i,
{
    let n = s.unicode_len();
    if i < n {
        let c = s.get_char(i);
        if c == ' ' || c == '\n' || c == '\r' || c == '\t' {
            return skip_ws_exec(s, i + 1);
        }
    }
    i
}

/// Whether `lit` occurs in `s` at position `i`.
pub open spec fn expect_spec(s: Seq<char>, i: int, lit: Seq<char>) -> bool {
    &&& 0 <= i
    &&& i + lit.len() <= s.len()
    &&& s.subrange(i, i + lit.len()) == lit
}

/// The decoded character of a `\u` escape whose four hex digits give the
/// value `v`, valid only for scalar values.
pub open spec fn scalar_char(v: int) -> char {
    (v as u32) as char
}

/// Parse a JSON string body starting at `i` (after the opening quote):
/// the decoded content and the position after the closing quote.
pub open spec fn parse_string_body(s: Seq<char>, i: int) -> Option<(Seq<char>, int)>
    decreases s.len() - i,
{
    if i < 0 || i >= s.len() {
        None
    } else if s[i] == '"' {
        Some((Seq::empty(), i + 1))
    } else if s[i] == '\\' {
        if i + 1 >= s.len() {
            None
        } else if s[i + 1] == 'u' {
            if i + 6 > s.len() {
                None
            } else {
                let v = ((hex_val(s[i + 2]) * 16 + hex_val(s[i + 3])) * 16 + hex_val(s[i + 4]))
                    * 16 + hex_val(s[i + 5]);
                if hex_val(s[i + 2]) >= 0 && hex_val(s[i + 3]) >= 0 && hex_val(s[i + 4]) >= 0
                    && hex_val(s[i + 5]) >= 0 && (v < 0xD800 || v >= 0xE000) {
                    match parse_string_body(s, i + 6) {
                        None => None,
                        Some((c, j)) => Some((seq![scalar_char(v)] + c, j)),
                    }
                } else {
                    None
                }
            }
        } else if is_escape_code(s[i + 1]) {
            match parse_string_body(s, i + 2) {
                None => None,
                Some((c, j)) => Some((seq![unescape_char(s[i + 1])] + c, j)),
            }
        } else {
            None
        }
    } else {
        match parse_string_body(s, i + 1) {
            None => None,
            Some((c, j)) => Some((seq![s[i]] + c, j)),
        }
    }
}

/// The `from` key with its quotes.
pub open spec fn lit_from() -> Seq<char> {
    seq!['"', 'f', 'r', 'o', 'm', '"']
}

/// The `to` key with its quotes.
pub open spec fn lit_to() -> Seq<char> {
    seq!['"', 't', 'o', '"']
}

/// Parse one journal entry at `i`, whitespace between tokens allowed: the
/// `(from, to)` pair and the position after the closing brace.
pub open spec fn parse_entry(s: Seq<char>, i: int) -> Option<((Seq<char>, Seq<char>), int)> {
    let i0 = skip_ws(s, i);
    if !(0 <= i0 < s.len() && s[i0] == '{') {
        None
    } else {
        let i1 = skip_ws(s, i0 + 1);
        if !expect_spec(s, i1, lit_from()) {
            None
        } else {
            let i2 = skip_ws(s, i1 + 6);
            if !(i2 < s.len() && s[i2] == ':') {
                None
            } else {
                let i3 = skip_ws(s, i2 + 1);
                if !(i3 < s.len() && s[i3] == '"') {
                    None
                } else {
                    match parse_string_body(s, i3 + 1) {
                        None => None,
                        Some((f, j1)) => {
                            let j2 = skip_ws(s, j1);
                            if !(0 <= j2 < s.len() && s[j2] == ',') {
                                None
                            } else {
                                let j3 = skip_ws(s, j2 + 1);
                                if !expect_spec(s, j3, lit_to()) {
                                    None
                                } else {
                                    let j4 = skip_ws(s, j3 + 4);
                                    if !(j4 < s.len() && s[j4] == ':') {
                                        None
                                    } else {
                                        let j5 = skip_ws(s, j4 + 1);
                                        if !(j5 < s.len() && s[j5] == '"') {
                                            None
                                        } else {
                                            match parse_string_body(s, j5 + 1) {
                                                None => None,
                                                Some((t, k1)) => {
                                                    let k2 = skip_ws(s, k1);
                                                    if 0 <= k2 < s.len() && s[k2] == '}' {
                                                        Some(((f, t), k2 + 1))
                                                    } else {
                                                        None
                                                    }
                                                },
                                            }
                                        }
                                    }
                                }
                            }
                        },
                    }
                }
            }
        }
    }
}

/// Parse a non-empty, comma-separated entry list at `i`. `fuel` bounds the
/// recursion; any value at least the number of entries gives the same
/// answer.
pub open spec fn parse_entries(s: Seq<char>, i: int, fuel: nat) -> Option<
    (Seq<(Seq<char>, Seq<char>)>, int),
>
    decreases fuel,
{
    if fuel == 0 {
        None
    } else {
        match parse_entry(s, i) {
            None => None,
            Some((e, j)) => {
                let j1 = skip_ws(s, j);
                if 0 <= j1 < s.len() && s[j1] == ',' {
                    match parse_entries(s, j1 + 1, (fuel - 1) as nat) {
                        None => None,
                        Some((rest, k)) => Some((seq![e] + rest, k)),
                    }
                } else {
                    Some((seq![e], j))
                }
            },
        }
    }
}

/// Parse a whole journal: the entry list in brackets, nothing but
/// whitespace around and after it.
pub open spec fn parse_journal(s: Seq<char>) -> Option<Seq<(Seq<char>, Seq<char>)>> {
    let i0 = skip_ws(s, 0);
    if !(i0 < s.len() && s[i0] == '[') {
        None
    } else {
        let i1 = skip_ws(s, i0 + 1);
        if i1 < s.len() && s[i1] == ']' {
            if skip_ws(s, i1 + 1) == s.len() {
                Some(Seq::empty())
            } else {
                None
            }
        } else {
            match parse_entries(s, i0 + 1, s.len() as nat) {
                None => None,
                Some((es, j)) => {
                    let j1 = skip_ws(s, j);
                    if j1 < s.len() && s[j1] == ']' && skip_ws(s, j1 + 1) == s.len() {
                        Some(es)
                    } else {
                        None
                    }
                },
            }
        }
    }
}

/// Relies on `char::from_u32`: `Some` exactly for Unicode scalar values
/// (below the surrogate range, or between it and the highest code point),
/// returning the character with that value.
#[verifier::external_body]
fn char_from_u32(v: u32) -> (r: Option<char>)
    ensures
        (v < 0xD800 || (0xE000 <= v && v < 0x110000)) <==> r is Some,
        r matches Some(c) ==> c as u32 == v,
{
    char::from_u32(v)
}

/// The value of a hexadecimal digit character, or `-1`.
fn hex_val_char(c: char) -> (r: i8)
    ensures
        r as int == hex_val(c),
{
    if c == '0' {
        0
    } else if c == '1' {
        1
    } else if c == '2' {
        2
    } else if c == '3' {
        3
    } else if c == '4' {
        4
    } else if c == '5' {
        5
    } else if c == '6' {
        6
    } else if c == '7' {
        7
    } else if c == '8' {
        8
    } else if c == '9' {
        9
    } else if c == 'a' || c == 'A' {
        10
    } else if c == 'b' || c == 'B' {
        11
    } else if c == 'c' || c == 'C' {
        12
    } else if c == 'd' || c == 'D' {
        13
    } else if c == 'e' || c == 'E' {
        14
    } else if c == 'f' || c == 'F' {
        15
    } else {
        -1
    }
}

/// Whether `lit` occurs in `s` at position `i`, by characters.
fn expect_lit(s: &str, i: usize, lit: &str) -> (r: bool)
    requires
        i <= s@.len(),
    ensures
        r == expect_spec(s@, i as int, lit@),
{
    let n = s.unicode_len();
    let m = lit.unicode_len();
    if m > n - i {
        return false;
    }
    let mut k: usize = 0;
    while k < m
        invariant
            n == s@.len(),
            m == lit@.len(),
            i + m <= n,
            k <= m,
            forall|t: int| 0 <= t < k ==> s@[i + t] == lit@[t],
        decreases m - k,
    {
        if s.get_char(i + k) != lit.get_char(k) {
            proof {
                assert(s@.subrange(i as int, i + m)[k as int] == s@[i + k]);
            }
            return false;
        }
        k += 1;
    }
    proof {
        assert(s@.subrange(i as int, i + m) =~= lit@);
    }
    true
}

/// Parse a JSON string body, appending the decoded content to `acc`.
fn parse_string_exec(s: &str, i: usize, acc: &mut String) -> (r: Option<usize>)
    requires
        i <= s@.len(),
    ensures
        match r {
            Some(j) => parse_string_body(s@, i as int) matches Some((c, jj)) && jj == j as int
                && j <= s@.len() && final(acc)@ == old(acc)@ + c,
            None => parse_string_body(s@, i as int) is None,
        },
    decreases s@.len() - i,
{
    let n = s.unicode_len();
    if i >= n {
        return None;
    }
    let c = s.get_char(i);
    if c == '"' {
        proof {
            assert(acc@ =~= acc@ + Seq::<char>::empty());
        }
        Some(i + 1)
    } else if c == '\\' {
        if i + 1 >= n {
            return None;
        }
        let e = s.get_char(i + 1);
        if e == 'u' {
            if n - i < 6 {
                return None;
            }
            let h1 = hex_val_char(s.get_char(i + 2));
            let h2 = hex_val_char(s.get_char(i + 3));
            let h3 = hex_val_char(s.get_char(i + 4));
            let h4 = hex_val_char(s.get_char(i + 5));
            if h1 < 0 || h2 < 0 || h3 < 0 || h4 < 0 {
                return None;
            }
            let v: u32 = ((h1 as u32 * 16 + h2 as u32) * 16 + h3 as u32) * 16 + h4 as u32;
            if !(v < 0xD800 || v >= 0xE000) {
                return None;
            }
            let d = match char_from_u32(v) {
                Some(d) => d,
                None => {
                    proof {
                        assert(false);
                    }
                    return None;
                },
            };
            proof {
                vstd::utf8::char_u32_cast(d, v);
                assert(d == scalar_char(v as int));
            }
            let ghost acc0 = acc@;
            push_char(acc, d);
            match parse_string_exec(s, i + 6, acc) {
                None => None,
                Some(j) => {
                    proof {
                        let (c2, jj) = parse_string_body(s@, i + 6).unwrap();
                        assert(acc@ =~= acc0 + (seq![d] + c2));
                    }
                    Some(j)
                },
            }
        } else if e == '"' || e == '\\' || e == '/' || e == 'b' || e == 'f' || e == 'n' || e == 'r'
            || e == 't' {
            let d = if e == '"' {
                '"'
            } else if e == '\\' {
                '\\'
            } else if e == '/' {
                '/'
            } else if e == 'b' {
                '\u{0008}'
            } else if e == 'f' {
                '\u{000c}'
            } else if e == 'n' {
                '\n'
            } else if e == 'r' {
                '\r'
            } else {
                '\t'
            };
            proof {
                assert(d == unescape_char(s@[i + 1]));
            }
            let ghost acc0 = acc@;
            push_char(acc, d);
            match parse_string_exec(s, i + 2, acc) {
                None => None,
                Some(j) => {
                    proof {
                        let (c2, jj) = parse_string_body(s@, i + 2).unwrap();
                        assert(acc@ =~= acc0 + (seq![d] + c2));
                    }
                    Some(j)
                },
            }
        } else {
            None
        }
    } else {
        let ghost acc0 = acc@;
        push_char(acc, c);
        match parse_string_exec(s, i + 1, acc) {
            None => None,
            Some(j) => {
                proof {
                    let (c2, jj) = parse_string_body(s@, i + 1).unwrap();
                    assert(acc@ =~= acc0 + (seq![c] + c2));
                }
                Some(j)
            },
        }
    }
}

/// Parse one journal entry, as the record and the next position.
fn parse_entry_exec(s: &str, i: usize) -> (r: Option<(MoveRecord, usize)>)
    requires
        i <= s@.len(),
    ensures
        match r {
            Some((m, j)) => parse_entry(s@, i as int) matches Some((ft, jj)) && jj == j as int
                && j <= s@.len() && m.from@ == ft.0 && m.to@ == ft.1,
            None => parse_entry(s@, i as int) is None,
        },
{
    let lit_f: &str = "\"from\"";
    let lit_t: &str = "\"to\"";
    proof {
        reveal_strlit("\"from\"");
        reveal_strlit("\"to\"");
        assert(lit_f@ =~= lit_from());
        assert(lit_t@ =~= lit_to());
    }
    let n = s.unicode_len();
    let i0 = skip_ws_exec(s, i);
    if !(i0 < n && s.get_char(i0) == '{') {
        return None;
    }
    let i1 = skip_ws_exec(s, i0 + 1);
    if !expect_lit(s, i1, lit_f) {
        return None;
    }
    proof {
        assert(lit_from().len() == 6);
        assert(i1 + 6 <= n);
    }
    let i2 = skip_ws_exec(s, i1 + 6);
    if !(i2 < n && s.get_char(i2) == ':') {
        return None;
    }
    let i3 = skip_ws_exec(s, i2 + 1);
    if !(i3 < n && s.get_char(i3) == '"') {
        return None;
    }
    let mut from_s = String::new();
    let j1 = match parse_string_exec(s, i3 + 1, &mut from_s) {
        None => {
            return None;
        },
        Some(j) => j,
    };
    let j2 = skip_ws_exec(s, j1);
    if !(j2 < n && s.get_char(j2) == ',') {
        return None;
    }
    let j3 = skip_ws_exec(s, j2 + 1);
    if !expect_lit(s, j3, lit_t) {
        return None;
    }
    proof {
        assert(lit_to().len() == 4);
        assert(j3 + 4 <= n);
    }
    let j4 = skip_ws_exec(s, j3 + 4);
    if !(j4 < n && s.get_char(j4) == ':') {
        return None;
    }
    let j5 = skip_ws_exec(s, j4 + 1);
    if !(j5 < n && s.get_char(j5) == '"') {
        return None;
    }
    let mut to_s = String::new();
    let k1 = match parse_string_exec(s, j5 + 1, &mut to_s) {
        None => {
            return None;
        },
        Some(j) => j,
    };
    let k2 = skip_ws_exec(s, k1);
    if k2 < n && s.get_char(k2) == '}' {
        Some((MoveRecord { from: from_s, to: to_s }, k2 + 1))
    } else {
        None
    }
}

/// Parse a non-empty entry list, appending the records to `out`.
fn parse_entries_exec(s: &str, i: usize, fuel: usize, out: &mut Vec<MoveRecord>) -> (r: Option<
    usize,
>)
    requires
        i <= s@.len(),
    ensures
        match r {
            Some(j) => parse_entries(s@, i as int, fuel as nat) matches Some((es, jj)) && jj
                == j as int && j <= s@.len() && record_views(final(out)@) == record_views(
                old(out)@,
            ) + es,
            None => parse_entries(s@, i as int, fuel as nat) is None,
        },
    decreases fuel,
{
    if fuel == 0 {
        return None;
    }
    let (m, j) = match parse_entry_exec(s, i) {
        None => {
            return None;
        },
        Some(p) => p,
    };
    let n = s.unicode_len();
    let ghost e = (m.from@, m.to@);
    let ghost out0 = out@;
    let j1 = skip_ws_exec(s, j);
    if j1 < n && s.get_char(j1) == ',' {
        out.push(m);
        proof {
            assert(record_views(out@) =~= record_views(out0).push(e));
        }
        match parse_entries_exec(s, j1 + 1, fuel - 1, out) {
            None => None,
            Some(k) => {
                proof {
                    let (rest, kk) = parse_entries(s@, j1 + 1, (fuel - 1) as nat).unwrap();
                    assert(record_views(out@) =~= record_views(out0) + (seq![e] + rest));
                }
                Some(k)
            },
        }
    } else {
        out.push(m);
        proof {
            assert(record_views(out@) =~= record_views(out0) + seq![e]);
        }
        Some(j)
    }
}

/// Persistent record of moves performed, enabling rollback.
#[derive(Debug)]
pub struct Journal {
    pub entries: Vec<MoveRecord>,
}

impl Journal {
    /// Create a new empty journal.
    pub fn new() -> (r: Journal)
        ensures
            r.entries@ == Seq::<MoveRecord>::empty(),
    {
        let j = Journal { entries: Vec::new() };
        proof {
            assert(j.entries@ =~= Seq::<MoveRecord>::empty());
        }
        j
    }

    /// Record a batch of moves, appending them in order.
    pub fn record(&mut self, moves: Vec<MoveRecord>)
        ensures
            final(self).entries@ == old(self).entries@ + moves@,
    {
        let ghost orig = moves@;
        let mut moves = moves;
        proof {
            assert(self.entries@ + orig.take(0) =~= self.entries@);
        }
        let ghost mut k: int = 0;
        while moves.len() > 0
            invariant
                0 <= k <= orig.len(),
                moves@ =~= orig.skip(k),
                self.entries@ == old(self).entries@ + orig.take(k),
            decreases moves@.len(),
        {
            let m = moves.remove(0);
            proof {
                assert(orig.skip(k)[0] == orig[k]);
                assert(orig.skip(k).remove(0) =~= orig.skip(k + 1));
                assert((old(self).entries@ + orig.take(k)).push(orig[k]) =~= old(
                    self,
                ).entries@ + orig.take(k + 1));
            }
            self.entries.push(m);
            proof {
                k = k + 1;
            }
        }
        proof {
            assert(orig.skip(k).len() == 0);
            assert(orig.take(k) =~= orig);
        }
    }

    /// The moves to undo, in reverse order of how they were performed:
    /// later moves could depend on earlier ones having vacated a path, so
    /// rollback must walk the log backwards.
    pub fn rollback_plan(&self) -> (r: Vec<MoveRecord>)
        ensures
            r@.len() == self.entries@.len(),
            forall|i: int|
                #![trigger r@[i]]
                0 <= i < r@.len() ==> {
                    &&& r@[i].from@ == self.entries@[self.entries@.len() - 1 - i].from@
                    &&& r@[i].to@ == self.entries@[self.entries@.len() - 1 - i].to@
                },
    {
        let mut out: Vec<MoveRecord> = Vec::new();
        let mut i: usize = self.entries.len();
        while i > 0
            invariant
                i <= self.entries@.len(),
                out@.len() == self.entries@.len() - i,
                forall|j: int|
                    #![trigger out@[j]]
                    0 <= j < out@.len() ==> {
                        &&& out@[j].from@ == self.entries@[self.entries@.len() - 1 - j].from@
                        &&& out@[j].to@ == self.entries@[self.entries@.len() - 1 - j].to@
                    },
            decreases i,
        {
            i -= 1;
            let rec = &self.entries[i];
            out.push(MoveRecord { from: rec.from.clone(), to: rec.to.clone() });
        }
        out
    }

    /// Render the journal in its on-disk form.
    pub fn to_json(&self) -> (r: String)
        ensures
            r@ == json_journal(record_views(self.entries@)),
    {
        let ghost es = record_views(self.entries@);
        let mut out = String::new();
        push_char(&mut out, '[');
        proof {
            assert(out@ =~= seq!['[']);
            assert(es.take(0) =~= Seq::<(Seq<char>, Seq<char>)>::empty());
            assert(out@ =~= seq!['['] + json_entries(es.take(0)));
        }
        let mut i: usize = 0;
        while i < self.entries.len()
            invariant
                es == record_views(self.entries@),
                i <= es.len(),
                es.len() == self.entries@.len(),
                out@ == seq!['['] + json_entries(es.take(i as int)),
            decreases es.len() - i,
        {
            if i > 0 {
                push_char(&mut out, ',');
            }
            let ghost mid = out@;
            let entry = &self.entries[i];
            let str_head: &str = "{\"from\":\"";
            out.append(str_head);
            append_escaped(&mut out, &entry.from);
            let str_mid: &str = "\",\"to\":\"";
            out.append(str_mid);
            append_escaped(&mut out, &entry.to);
            let str_tail: &str = "\"}";
            out.append(str_tail);
            proof {
                reveal_strlit("{\"from\":\"");
                reveal_strlit("\",\"to\":\"");
                reveal_strlit("\"}");
                assert(str_head@ =~= lit_head());
                assert(str_mid@ =~= seq!['"'] + lit_mid());
                assert(str_tail@ =~= seq!['"', '}']);
                assert(es[i as int] == (entry.from@, entry.to@));
                assert(out@ =~= mid + json_entry(entry.from@, entry.to@));
                assert(es.take(i + 1) =~= es.take(i as int).push(es[i as int]));
                if i == 0 {
                    assert(json_entries(es.take(0)) =~= Seq::<char>::empty());
                    assert(mid =~= seq!['[']);
                    assert(json_entries(seq![es[0]]) == json_entry(es[0].0, es[0].1));
                    assert(es.take(1) =~= seq![es[0]]);
                    assert(out@ =~= seq!['['] + json_entries(es.take(1)));
                } else {
                    lemma_json_entries_push(es.take(i as int), es[i as int]);
                    assert(mid =~= seq!['['] + json_entries(es.take(i as int)) + seq![',']);
                    assert(out@ =~= seq!['['] + json_entries(es.take(i + 1)));
                }
            }
            i += 1;
        }
        push_char(&mut out, ']');
        proof {
            assert(es.take(es.len() as int) =~= es);
            assert(out@ =~= seq!['['] + json_entries(es) + seq![']']);
        }
        out
    }

    /// Read a journal back from its on-disk form. Succeeds exactly on the
    /// strings the grammar admits, with the entries the string encodes; a
    /// malformed string is a `Parse`-style failure.
    pub fn from_json(s: &str) -> (r: Result<Journal, Error>)
        ensures
            match r {
                Ok(j) => parse_journal(s@) == Some(record_views(j.entries@)),
                Err(e) => parse_journal(s@) is None && e is Other,
            },
    {
        let n = s.unicode_len();
        let i0 = skip_ws_exec(s, 0);
        if !(i0 < n && s.get_char(i0) == '[') {
            return Err(Error::Other(String::from_str("malformed journal")));
        }
        let i1 = skip_ws_exec(s, i0 + 1);
        if i1 < n && s.get_char(i1) == ']' {
            if skip_ws_exec(s, i1 + 1) == n {
                let j = Journal { entries: Vec::new() };
                proof {
                    assert(record_views(j.entries@) =~= Seq::<(Seq<char>, Seq<char>)>::empty());
                }
                return Ok(j);
            }
            return Err(Error::Other(String::from_str("malformed journal")));
        }
        let mut entries: Vec<MoveRecord> = Vec::new();
        proof {
            assert(record_views(entries@) =~= Seq::<(Seq<char>, Seq<char>)>::empty());
        }
        match parse_entries_exec(s, i0 + 1, n, &mut entries) {
            None => Err(Error::Other(String::from_str("malformed journal"))),
            Some(j) => {
                let j1 = skip_ws_exec(s, j);
                if j1 < n && s.get_char(j1) == ']' && skip_ws_exec(s, j1 + 1) == n {
                    proof {
                        let (es, jj) = parse_entries(s@, i0 + 1, n as nat).unwrap();
                        assert(record_views(entries@) =~= Seq::<(Seq<char>, Seq<char>)>::empty()
                            + es);
                        assert(Seq::<(Seq<char>, Seq<char>)>::empty() + es =~= es);
                    }
                    Ok(Journal { entries })
                } else {
                    Err(Error::Other(String::from_str("malformed journal")))
                }
            },
        }
    }
}

impl Default for Journal {
    fn default() -> (r: Journal)
        ensures
            r.entries@ == Seq::<MoveRecord>::empty(),
    {
        Journal::new()
    }
}

/// A literal placed at its own position always matches.
proof fn lemma_expect_at(prefix: Seq<char>, lit: Seq<char>, rest: Seq<char>)
    ensures
        expect_spec(prefix + lit + rest, prefix.len() as int, lit),
{
    assert((prefix + lit + rest).subrange(
        prefix.len() as int,
        prefix.len() + lit.len() as int,
    ) =~= lit);
}

/// Skipping whitespace at a non-whitespace position stays put.
proof fn lemma_skip_ws_id(s: Seq<char>, i: int)
    requires
        0 <= i,
        i < s.len() ==> !is_ws(s[i]),
    ensures
        skip_ws(s, i) == i,
{
}

/// `hex_val` inverts `hex_digit`.
proof fn lemma_hex_digit_val(n: int)
    requires
        0 <= n < 16,
    ensures
        hex_val(hex_digit(n)) == n,
{
}

/// Parsing a string body from its escaped rendering recovers the content
/// and stops right after the closing quote.
#[verifier::rlimit(60)]
#[verifier::spinoff_prover]
proof fn lemma_parse_string_rt(prefix: Seq<char>, content: Seq<char>, tail: Seq<char>)
    ensures
        parse_string_body(prefix + json_escape(content) + seq!['"'] + tail, prefix.len() as int)
            == Some((content, (prefix.len() + json_escape(content).len() + 1) as int)),
    decreases content.len(),
{
    let s = prefix + json_escape(content) + seq!['"'] + tail;
    let i = prefix.len() as int;
    if content.len() == 0 {
        assert(json_escape(content) =~= Seq::<char>::empty());
        assert(s[i] == '"');
        assert(content =~= Seq::<char>::empty());
    } else {
        let c = content[0];
        let rest_c = content.drop_first();
        assert(json_escape(content) == escape_char(c) + json_escape(rest_c));
        if c == '"' || c == '\\' || c == '\n' || c == '\r' || c == '\t' {
            let code = if c == '"' {
                '"'
            } else if c == '\\' {
                '\\'
            } else if c == '\n' {
                'n'
            } else if c == '\r' {
                'r'
            } else {
                't'
            };
            assert(escape_char(c) =~= seq!['\\', code]);
            let prefix2 = prefix + seq!['\\', code];
            lemma_parse_string_rt(prefix2, rest_c, tail);
            assert(prefix2 + json_escape(rest_c) + seq!['"'] + tail =~= s);
            assert(s[i] == '\\');
            assert(s[i + 1] == code);
            assert(code != 'u');
            assert(is_escape_code(code));
            assert(unescape_char(code) == c);
            assert(seq![c] + rest_c =~= content);
        } else if (c as u32) < 0x20 {
            let u = (c as u32) as int;
            assert(escape_char(c) =~= seq![
                '\\',
                'u',
                '0',
                '0',
                hex_digit(u / 16),
                hex_digit(u % 16),
            ]);
            let prefix2 = prefix + escape_char(c);
            lemma_parse_string_rt(prefix2, rest_c, tail);
            assert(prefix2 + json_escape(rest_c) + seq!['"'] + tail =~= s);
            assert(s[i] == '\\');
            assert(s[i + 1] == 'u');
            assert(s[i + 2] == '0');
            assert(s[i + 3] == '0');
            assert(s[i + 4] == hex_digit(u / 16));
            assert(s[i + 5] == hex_digit(u % 16));
            lemma_hex_digit_val(u / 16);
            lemma_hex_digit_val(u % 16);
            let v = ((hex_val(s[i + 2]) * 16 + hex_val(s[i + 3])) * 16 + hex_val(s[i + 4])) * 16
                + hex_val(s[i + 5]);
            assert(v == u);
            assert(scalar_char(v) == c) by {
                vstd::utf8::char_u32_cast(c, c as u32);
            }
            assert(seq![c] + rest_c =~= content);
        } else {
            assert(escape_char(c) =~= seq![c]);
            let prefix2 = prefix + seq![c];
            lemma_parse_string_rt(prefix2, rest_c, tail);
            assert(prefix2 + json_escape(rest_c) + seq!['"'] + tail =~= s);
            assert(s[i] == c);
            assert(c != '"' && c != '\\');
            assert(seq![c] + rest_c =~= content);
        }
    }
}

/// Parsing one entry from its canonical rendering recovers the pair and
/// stops right after the closing brace.
#[verifier::rlimit(100)]
#[verifier::spinoff_prover]
proof fn lemma_parse_entry_rt(prefix: Seq<char>, f: Seq<char>, t: Seq<char>, tail: Seq<char>)
    ensures
        parse_entry(prefix + json_entry(f, t) + tail, prefix.len() as int) == Some(
            ((f, t), (prefix.len() + json_entry(f, t).len()) as int),
        ),
{
    let s = prefix + json_entry(f, t) + tail;
    let i = prefix.len() as int;
    let rest1 = json_escape(f) + seq!['"'] + lit_mid() + json_escape(t) + seq!['"', '}'] + tail;
    assert(s =~= prefix + lit_head() + rest1);

    // the canonical form has no whitespace, so each skip stays put
    assert(s[i] == '{');
    lemma_skip_ws_id(s, i);
    assert(s[i + 1] == '"');
    lemma_skip_ws_id(s, i + 1);
    assert(s.subrange(i + 1, i + 7) =~= lit_from());
    assert(expect_spec(s, i + 1, lit_from()));
    assert(s[i + 7] == ':');
    lemma_skip_ws_id(s, i + 7);
    assert(s[i + 8] == '"');
    lemma_skip_ws_id(s, i + 8);

    let prefix2 = prefix + lit_head();
    let tail2 = lit_mid() + json_escape(t) + seq!['"', '}'] + tail;
    assert(prefix2 + json_escape(f) + seq!['"'] + tail2 =~= s);
    lemma_parse_string_rt(prefix2, f, tail2);
    let j1: int = prefix2.len() + json_escape(f).len() + 1int;
    assert(parse_string_body(s, i + 9) == Some((f, j1)));

    assert(s[j1] == ',');
    lemma_skip_ws_id(s, j1);
    assert(s[j1 + 1] == '"');
    lemma_skip_ws_id(s, j1 + 1);
    assert(s.subrange(j1 + 1, j1 + 5) =~= lit_to());
    assert(expect_spec(s, j1 + 1, lit_to()));
    assert(s[j1 + 5] == ':');
    lemma_skip_ws_id(s, j1 + 5);
    assert(s[j1 + 6] == '"');
    lemma_skip_ws_id(s, j1 + 6);

    let prefix4 = prefix2 + json_escape(f) + seq!['"'] + lit_mid();
    let tail4 = seq!['}'] + tail;
    assert(prefix4.len() == j1 + 7);
    assert(prefix4 + json_escape(t) + seq!['"'] + tail4 =~= s);
    lemma_parse_string_rt(prefix4, t, tail4);
    let j2: int = prefix4.len() + json_escape(t).len() + 1int;
    assert(parse_string_body(s, j1 + 7) == Some((t, j2)));

    assert(s[j2] == '}');
    lemma_skip_ws_id(s, j2);
    assert(j2 + 1 == prefix.len() + json_entry(f, t).len());
}

/// One rendered entry is at least one character long.
proof fn lemma_json_entries_len(es: Seq<(Seq<char>, Seq<char>)>)
    requires
        es.len() >= 1,
    ensures
        json_entries(es).len() >= es.len(),
    decreases es.len(),
{
    if es.len() > 1 {
        lemma_json_entries_len(es.drop_first());
    }
}

/// Parsing a rendered non-empty entry list recovers the entries and stops
/// right after the last one, as long as what follows is neither a comma
/// nor whitespace.
#[verifier::rlimit(60)]
#[verifier::spinoff_prover]
proof fn lemma_parse_entries_rt(
    prefix: Seq<char>,
    es: Seq<(Seq<char>, Seq<char>)>,
    tail: Seq<char>,
    fuel: nat,
)
    requires
        es.len() >= 1,
        fuel >= es.len(),
        tail.len() >= 1,
        tail[0] != ',',
        !is_ws(tail[0]),
    ensures
        parse_entries(prefix + json_entries(es) + tail, prefix.len() as int, fuel) == Some(
            (es, (prefix.len() + json_entries(es).len()) as int),
        ),
    decreases es.len(),
{
    let s = prefix + json_entries(es) + tail;
    let i = prefix.len() as int;
    let e0 = es[0];
    if es.len() == 1 {
        assert(json_entries(es) == json_entry(e0.0, e0.1));
        lemma_parse_entry_rt(prefix, e0.0, e0.1, tail);
        let j: int = i + json_entry(e0.0, e0.1).len();
        assert(s[j] == tail[0]);
        lemma_skip_ws_id(s, j);
        assert(seq![e0] =~= es);
    } else {
        assert(json_entries(es) == json_entry(e0.0, e0.1) + seq![','] + json_entries(
            es.drop_first(),
        ));
        let mid_tail = seq![','] + json_entries(es.drop_first()) + tail;
        assert(prefix + json_entry(e0.0, e0.1) + mid_tail =~= s);
        lemma_parse_entry_rt(prefix, e0.0, e0.1, mid_tail);
        let j: int = i + json_entry(e0.0, e0.1).len();
        assert(s[j] == ',');
        lemma_skip_ws_id(s, j);
        let prefix2 = prefix + json_entry(e0.0, e0.1) + seq![','];
        assert(prefix2 + json_entries(es.drop_first()) + tail =~= s);
        lemma_parse_entries_rt(prefix2, es.drop_first(), tail, (fuel - 1) as nat);
        assert(prefix2.len() == j + 1);
        assert(seq![e0] + es.drop_first() =~= es);
    }
}

/// Round trip: a rendered journal parses back to exactly the entry list
/// it was rendered from. With the contracts of `to_json` and `from_json`
/// this says that loading what was saved yields the recorded entries.
#[verifier::rlimit(60)]
#[verifier::spinoff_prover]
pub proof fn lemma_journal_round_trip(es: Seq<(Seq<char>, Seq<char>)>)
    ensures
        parse_journal(json_journal(es)) == Some(es),
{
    let s = json_journal(es);
    assert(s[0] == '[');
    lemma_skip_ws_id(s, 0);
    if es.len() == 0 {
        assert(json_entries(es) =~= Seq::<char>::empty());
        assert(s =~= seq!['[', ']']);
        assert(s.len() == 2 && s[1] == ']');
        lemma_skip_ws_id(s, 1);
        lemma_skip_ws_id(s, 2);
        assert(es =~= Seq::<(Seq<char>, Seq<char>)>::empty());
    } else {
        lemma_json_entries_len(es);
        assert(s =~= seq!['['] + json_entries(es) + seq![']']);
        assert(s.len() == 2 + json_entries(es).len());
        if es.len() == 1 {
            assert(json_entries(es) == json_entry(es[0].0, es[0].1));
            assert(json_entries(es)[0] == '{');
        } else {
            assert(json_entries(es) == json_entry(es[0].0, es[0].1) + seq![','] + json_entries(
                es.drop_first(),
            ));
            assert(json_entries(es)[0] == '{');
        }
        assert(s[1] == '{');
        lemma_skip_ws_id(s, 1);
        lemma_parse_entries_rt(seq!['['], es, seq![']'], s.len() as nat);
        let j: int = 1int + json_entries(es).len();
        assert(parse_entries(s, 1, s.len() as nat) == Some((es, j)));
        assert(s[j] == ']');
        lemma_skip_ws_id(s, j);
        lemma_skip_ws_id(s, j + 1);
    }
}

} // verus!
