//! Text: searching it, numbers in it, and Rust literals read back from it.

use crate::ir;
use vstd::prelude::*;
use vstd::string::*;

verus! {

/// Whether a text begins with another.
pub open spec fn starts(text: Seq<char>, part: Seq<char>) -> bool {
    stands_at(text, part, 0)
}

/// Whether a text ends with another.
pub open spec fn ends(text: Seq<char>, part: Seq<char>) -> bool {
    stands_at(text, part, text.len() - part.len())
}

/// Whether a text holds another at a place.
pub open spec fn stands_at(text: Seq<char>, part: Seq<char>, at: int) -> bool {
    0 <= at && at + part.len() <= text.len() && text.subrange(at, at + part.len()) == part
}

/// Whether a text holds another somewhere.
pub open spec fn occurs(text: Seq<char>, part: Seq<char>) -> bool {
    exists|at: int| stands_at(text, part, at)
}

/// Whether a text holds another at a place.
fn is_at(text: &str, part: &str, at: usize) -> (r: bool)
    requires
        at + part@.len() <= text@.len(),
    ensures
        r == stands_at(text@, part@, at as int),
{
    let len: usize = part.unicode_len();
    let total: usize = text.unicode_len();
    let mut i: usize = 0;
    while i < len
        invariant
            i <= len,
            len == part@.len(),
            total == text@.len(),
            at + len <= total,
            forall|j: int| 0 <= j < i ==> text@[at + j] == #[trigger] part@[j],
        decreases len - i,
    {
        if text.get_char(at + i) != part.get_char(i) {
            proof {
                let cut = text@.subrange(at as int, at + len);
                assert(cut[i as int] == text@[at + i]);
            }
            return false;
        }
        i = i + 1;
    }
    assert(text@.subrange(at as int, at + len) =~= part@);
    true
}

/// Whether a text begins with another.
pub fn has_prefix(text: &str, part: &str) -> (r: bool)
    ensures
        r == starts(text@, part@),
{
    let len: usize = part.unicode_len();
    let total: usize = text.unicode_len();
    if len > total {
        return false;
    }
    is_at(text, part, 0)
}

/// Whether a text ends with another.
pub fn has_suffix(text: &str, part: &str) -> (r: bool)
    ensures
        r == ends(text@, part@),
{
    let len: usize = part.unicode_len();
    let total: usize = text.unicode_len();
    if len > total {
        return false;
    }
    is_at(text, part, total - len)
}

/// Where a text first holds another.
pub fn find(text: &str, part: &str) -> (r: Option<usize>)
    ensures
        match r {
            Some(at) => {
                &&& stands_at(text@, part@, at as int)
                &&& forall|i: int| 0 <= i < at ==> !stands_at(text@, part@, i)
            },
            None => !occurs(text@, part@),
        },
{
    let len: usize = part.unicode_len();
    let total: usize = text.unicode_len();
    if len > total {
        return None;
    }
    let last: usize = total - len;
    let mut at: usize = 0;
    while at < last
        invariant
            at <= last,
            last == total - len,
            len == part@.len(),
            total == text@.len(),
            len <= total,
            forall|i: int| 0 <= i < at ==> !stands_at(text@, part@, i),
        decreases last - at,
    {
        if is_at(text, part, at) {
            return Some(at);
        }
        at = at + 1;
    }
    if is_at(text, part, at) {
        Some(at)
    } else {
        None
    }
}

/// Whether a text holds another somewhere.
pub fn contains(text: &str, part: &str) -> (r: bool)
    ensures
        r == occurs(text@, part@),
{
    find(text, part).is_some()
}

/// Whether two texts are the same.
pub fn same(a: &str, b: &str) -> (r: bool)
    ensures
        r == (a@ == b@),
{
    let x: usize = a.unicode_len();
    let y: usize = b.unicode_len();
    if x != y {
        return false;
    }
    let r: bool = is_at(a, b, 0);
    assert(a@.subrange(0, a@.len() as int) =~= a@);
    r
}

/// The rest of a text after a number of characters.
pub fn after(text: &str, count: usize) -> (r: String)
    requires
        count <= text@.len(),
    ensures
        r@ == text@.skip(count as int),
{
    let total: usize = text.unicode_len();
    let rest: &str = text.substring_char(count, total);
    assert(text@.subrange(count as int, total as int) =~= text@.skip(count as int));
    rest.to_owned()
}

/// The first characters of a text.
pub fn before(text: &str, count: usize) -> (r: String)
    requires
        count <= text@.len(),
    ensures
        r@ == text@.take(count as int),
{
    let start: &str = text.substring_char(0, count);
    assert(text@.subrange(0, count as int) =~= text@.take(count as int));
    start.to_owned()
}

/// Two texts, one after the other.
pub fn join(a: &str, b: &str) -> (r: String)
    ensures
        r@ == a@ + b@,
{
    let mut out: String = a.to_owned();
    out.append(b);
    out
}

/// The character of a digit.
pub open spec fn digit(value: nat) -> char {
    if value == 0 {
        '0'
    } else if value == 1 {
        '1'
    } else if value == 2 {
        '2'
    } else if value == 3 {
        '3'
    } else if value == 4 {
        '4'
    } else if value == 5 {
        '5'
    } else if value == 6 {
        '6'
    } else if value == 7 {
        '7'
    } else if value == 8 {
        '8'
    } else if value == 9 {
        '9'
    } else if value == 10 {
        'a'
    } else if value == 11 {
        'b'
    } else if value == 12 {
        'c'
    } else if value == 13 {
        'd'
    } else if value == 14 {
        'e'
    } else {
        'f'
    }
}

/// A number in decimal.
pub open spec fn decimal_of(value: nat) -> Seq<char>
    decreases value,
{
    if value < 10 {
        seq![digit(value)]
    } else {
        decimal_of(value / 10).push(digit(value % 10))
    }
}

/// Bytes in hexadecimal, two digits each.
pub open spec fn hex_of(bytes: Seq<u8>) -> Seq<char>
    decreases bytes.len(),
{
    if bytes.len() == 0 {
        Seq::empty()
    } else {
        hex_of(bytes.drop_last()) + seq![
            digit((bytes.last() / 16) as nat),
            digit((bytes.last() % 16) as nat),
        ]
    }
}

/// The text of a digit.
fn digit_text(value: u8) -> (r: &'static str)
    requires
        value < 16,
    ensures
        r@ == seq![digit(value as nat)],
{
    proof {
        reveal_strlit("0");
        reveal_strlit("1");
        reveal_strlit("2");
        reveal_strlit("3");
        reveal_strlit("4");
        reveal_strlit("5");
        reveal_strlit("6");
        reveal_strlit("7");
        reveal_strlit("8");
        reveal_strlit("9");
        reveal_strlit("a");
        reveal_strlit("b");
        reveal_strlit("c");
        reveal_strlit("d");
        reveal_strlit("e");
        reveal_strlit("f");
    }
    let r: &'static str = match value {
        0 => "0",
        1 => "1",
        2 => "2",
        3 => "3",
        4 => "4",
        5 => "5",
        6 => "6",
        7 => "7",
        8 => "8",
        9 => "9",
        10 => "a",
        11 => "b",
        12 => "c",
        13 => "d",
        14 => "e",
        _ => "f",
    };
    assert(r@ =~= seq![digit(value as nat)]);
    r
}

/// A number in decimal.
pub fn decimal(value: u64) -> (r: String)
    ensures
        r@ == decimal_of(value as nat),
    decreases value,
{
    if value < 10 {
        return digit_text(value as u8).to_owned();
    }
    let mut out: String = decimal(value / 10);
    let low: u64 = value % 10;
    out.append(digit_text(low as u8));
    assert(out@ =~= decimal_of((value / 10) as nat).push(digit(low as nat)));
    out
}

/// Bytes in hexadecimal, for use in a symbol name.
pub fn hex_suffix(bytes: &Vec<u8>) -> (r: String)
    ensures
        r@ == hex_of(bytes@),
{
    let mut out: String = String::new();
    let mut i: usize = 0;
    assert(out@ =~= hex_of(bytes@.take(0)));
    while i < bytes.len()
        invariant
            i <= bytes@.len(),
            out@ == hex_of(bytes@.take(i as int)),
        decreases bytes@.len() - i,
    {
        let byte: u8 = bytes[i];
        let ghost so_far = out@;
        out.append(digit_text(byte / 16));
        out.append(digit_text(byte % 16));
        i = i + 1;
        proof {
            assert(bytes@.take(i as int).drop_last() =~= bytes@.take(i - 1));
            assert(bytes@.take(i as int).last() == byte);
            assert(out@ =~= so_far + seq![
                digit((byte / 16) as nat),
                digit((byte % 16) as nat),
            ]);
        }
    }
    assert(bytes@.take(i as int) =~= bytes@);
    out
}

/// The character that an escape in a string literal stands for.
pub open spec fn unescape(c: char) -> char {
    if c == 'n' {
        '\n'
    } else if c == 'r' {
        '\r'
    } else if c == 't' {
        '\t'
    } else if c == '0' {
        '\0'
    } else {
        c
    }
}

/// What the text after an opening quote stands for, up to the closing quote.
pub open spec fn unquoted(rest: Seq<char>, escaped: bool) -> Option<Seq<char>>
    decreases rest.len(),
{
    if rest.len() == 0 {
        None
    } else if escaped {
        prepend(unescape(rest[0]), unquoted(rest.skip(1), false))
    } else if rest[0] == '\\' {
        unquoted(rest.skip(1), true)
    } else if rest[0] == '"' {
        Some(Seq::empty())
    } else {
        prepend(rest[0], unquoted(rest.skip(1), false))
    }
}

/// A sequence with one more item in front, where there is one.
pub open spec fn prepend<T>(item: T, rest: Option<Seq<T>>) -> Option<Seq<T>> {
    match rest {
        Some(rest) => Some(seq![item] + rest),
        None => None,
    }
}

/// A sequence after another, where there is one.
pub open spec fn precede<T>(front: Seq<T>, rest: Option<Seq<T>>) -> Option<Seq<T>> {
    match rest {
        Some(rest) => Some(front + rest),
        None => None,
    }
}

/// The value of a string literal at the start of a text.
pub open spec fn string_literal(input: Seq<char>) -> Option<Seq<char>> {
    if input.len() > 0 && input[0] == '"' {
        unquoted(input.skip(1), false)
    } else {
        None
    }
}

/// Reads a string literal at the start of a text.
pub fn parse_rust_string_literal(input: &str) -> (r: Option<String>)
    ensures
        match r {
            Some(value) => string_literal(input@) == Some(value@),
            None => string_literal(input@) is None,
        },
{
    let len: usize = input.unicode_len();
    if len == 0 || input.get_char(0) != '"' {
        return None;
    }
    proof {
        reveal_strlit("\n");
        reveal_strlit("\r");
        reveal_strlit("\t");
        reveal_strlit("\0");
    }
    let mut out: String = String::new();
    let mut escaped: bool = false;
    let mut i: usize = 1;
    assert(precede(out@, unquoted(input@.skip(1), false)) =~= unquoted(input@.skip(1), false)) by {
        if let Some(t) = unquoted(input@.skip(1), false) {
            assert(out@ + t =~= t);
        }
    }
    while i < len
        invariant
            1 <= i <= len,
            len == input@.len(),
            input@[0] == '"',
            "\n"@ == seq!['\n'],
            "\r"@ == seq!['\r'],
            "\t"@ == seq!['\t'],
            "\0"@ == seq!['\0'],
            unquoted(input@.skip(1), false) == precede(out@, unquoted(input@.skip(i as int), escaped)),
        decreases len - i,
    {
        let c: char = input.get_char(i);
        let ghost rest = input@.skip(i as int);
        let ghost so_far = out@;
        assert(rest.skip(1) =~= input@.skip(i + 1));
        assert(rest[0] == c);
        let plain: &str = input.substring_char(i, i + 1);
        assert(plain@ =~= seq![c]);
        if escaped {
            let piece: &str = if c == 'n' {
                "\n"
            } else if c == 'r' {
                "\r"
            } else if c == 't' {
                "\t"
            } else if c == '0' {
                "\0"
            } else {
                plain
            };
            out.append(piece);
            escaped = false;
            proof {
                lemma_move(so_far, unescape(c), unquoted(rest.skip(1), false));
                assert(out@ =~= so_far.push(unescape(c)));
            }
        } else if c == '\\' {
            escaped = true;
        } else if c == '"' {
            assert(so_far + Seq::<char>::empty() =~= so_far);
            return Some(out);
        } else {
            out.append(plain);
            proof {
                lemma_move(so_far, c, unquoted(rest.skip(1), false));
                assert(out@ =~= so_far.push(c));
            }
        }
        i = i + 1;
    }
    None
}

/// An item can move from the front of a rest to the end of what precedes it.
proof fn lemma_move<T>(front: Seq<T>, item: T, rest: Option<Seq<T>>)
    ensures
        precede(front, prepend(item, rest)) == precede(front.push(item), rest),
{
    if let Some(rest) = rest {
        assert(front + (seq![item] + rest) =~= front.push(item) + rest);
    }
}

/// What the text after an opening quote of a byte string stands for.
pub open spec fn unquoted_bytes(rest: Seq<char>, escaped: bool) -> Option<Seq<u8>>
    decreases rest.len(),
{
    if rest.len() == 0 {
        None
    } else if escaped {
        if (rest[0] as u32) < 128 {
            prepend(unescape(rest[0]) as u8, unquoted_bytes(rest.skip(1), false))
        } else {
            None
        }
    } else if rest[0] == '\\' {
        unquoted_bytes(rest.skip(1), true)
    } else if rest[0] == '"' {
        Some(Seq::empty())
    } else if (rest[0] as u32) < 128 {
        prepend(rest[0] as u8, unquoted_bytes(rest.skip(1), false))
    } else {
        None
    }
}

/// The value of a byte string literal at the start of a text.
pub open spec fn byte_string_literal(input: Seq<char>) -> Option<Seq<u8>> {
    if input.len() > 1 && input[0] == 'b' && input[1] == '"' {
        unquoted_bytes(input.skip(2), false)
    } else {
        None
    }
}

/// Reads a byte string literal at the start of a text.
pub fn parse_rust_byte_string_literal(input: &str) -> (r: Option<Vec<u8>>)
    ensures
        match r {
            Some(value) => byte_string_literal(input@) == Some(value@),
            None => byte_string_literal(input@) is None,
        },
{
    let len: usize = input.unicode_len();
    if len < 2 || input.get_char(0) != 'b' || input.get_char(1) != '"' {
        return None;
    }
    let mut out: Vec<u8> = Vec::new();
    let mut escaped: bool = false;
    let mut i: usize = 2;
    assert(precede(out@, unquoted_bytes(input@.skip(2), false)) =~= unquoted_bytes(
        input@.skip(2),
        false,
    )) by {
        if let Some(t) = unquoted_bytes(input@.skip(2), false) {
            assert(out@ + t =~= t);
        }
    }
    while i < len
        invariant
            2 <= i <= len,
            len == input@.len(),
            input@[0] == 'b',
            input@[1] == '"',
            unquoted_bytes(input@.skip(2), false) == precede(
                out@,
                unquoted_bytes(input@.skip(i as int), escaped),
            ),
        decreases len - i,
    {
        let c: char = input.get_char(i);
        let code: u32 = c as u32;
        let ghost rest = input@.skip(i as int);
        let ghost so_far = out@;
        assert(rest.skip(1) =~= input@.skip(i + 1));
        assert(rest[0] == c);
        if escaped {
            if code >= 128 {
                return None;
            }
            let byte: u8 = if c == 'n' {
                10
            } else if c == 'r' {
                13
            } else if c == 't' {
                9
            } else if c == '0' {
                0
            } else {
                code as u8
            };
            out.push(byte);
            escaped = false;
            proof {
                lemma_move(so_far, unescape(c) as u8, unquoted_bytes(rest.skip(1), false));
            }
        } else if c == '\\' {
            escaped = true;
        } else if c == '"' {
            assert(so_far + Seq::<u8>::empty() =~= so_far);
            return Some(out);
        } else if code < 128 {
            out.push(code as u8);
            proof {
                lemma_move(so_far, c as u8, unquoted_bytes(rest.skip(1), false));
            }
        } else {
            return None;
        }
        i = i + 1;
    }
    None
}

/// What comes in front of a string literal in the printed form of a constant.
pub open spec fn is_debug_string(debug: Seq<char>, at: int) -> bool {
    &&& stands_at(debug, "const \""@, at)
    &&& forall|i: int| 0 <= i < at ==> !stands_at(debug, "const \""@, i)
}

/// The string literal in the printed form of a constant: the one behind the
/// first `const`.
pub open spec fn debug_string(debug: Seq<char>) -> Option<Seq<char>> {
    if occurs(debug, "const \""@) {
        string_literal(debug.skip((choose|at: int| is_debug_string(debug, at)) + 6))
    } else {
        None
    }
}

/// Reads the string literal in the printed form of a constant: the one behind
/// the first `const`.
pub fn parse_debug_string_const(debug: &str) -> (r: Option<String>)
    ensures
        ir::text(r) == debug_string(debug@),
{
    match find(debug, "const \"") {
        Some(at) => {
            assert(is_debug_string(debug@, at as int));
            proof {
                reveal_strlit("const \"");
                let other = choose|at: int| is_debug_string(debug@, at);
                assert(is_debug_string(debug@, other));
                assert(other == at);
            }
            let total: usize = debug.unicode_len();
            let rest: String = after(debug, at + 6);
            parse_rust_string_literal(rest.as_str())
        },
        None => None,
    }
}

/// Different bytes have different texts in hexadecimal.
pub proof fn law_hex_injective(a: Seq<u8>, b: Seq<u8>)
    requires
        hex_of(a) == hex_of(b),
    ensures
        a == b,
    decreases a.len(),
{
    lemma_hex_len(a);
    lemma_hex_len(b);
    if a.len() > 0 {
        let n = hex_of(a).len() as int;
        assert(hex_of(a.drop_last()) =~= hex_of(a).take(n - 2));
        assert(hex_of(b.drop_last()) =~= hex_of(b).take(n - 2));
        law_hex_injective(a.drop_last(), b.drop_last());
        assert(hex_of(a)[n - 2] == digit((a.last() / 16) as nat));
        assert(hex_of(b)[n - 2] == digit((b.last() / 16) as nat));
        assert(hex_of(a)[n - 1] == digit((a.last() % 16) as nat));
        assert(hex_of(b)[n - 1] == digit((b.last() % 16) as nat));
        assert(a =~= a.drop_last().push(a.last()));
        assert(b =~= b.drop_last().push(b.last()));
    }
    assert(a =~= b);
}

proof fn lemma_hex_len(bytes: Seq<u8>)
    ensures
        hex_of(bytes).len() == 2 * bytes.len(),
    decreases bytes.len(),
{
    if bytes.len() > 0 {
        lemma_hex_len(bytes.drop_last());
    }
}

/// A text as it stands between the quotes of a literal, with a backslash
/// before each quote and each backslash.
pub open spec fn quoted(text: Seq<char>) -> Seq<char>
    decreases text.len(),
{
    if text.len() == 0 {
        Seq::empty()
    } else if text[0] == '"' || text[0] == '\\' {
        seq!['\\', text[0]] + quoted(text.skip(1))
    } else {
        seq![text[0]] + quoted(text.skip(1))
    }
}

/// A text written as a literal reads as the text, whatever follows the
/// literal.
pub proof fn law_literal_round_trip(text: Seq<char>, after: Seq<char>)
    ensures
        string_literal(seq!['"'] + quoted(text) + seq!['"'] + after) == Some(text),
{
    lemma_unquoted(text, after);
    let input = seq!['"'] + quoted(text) + seq!['"'] + after;
    assert(input.skip(1) =~= quoted(text) + seq!['"'] + after);
}

proof fn lemma_unquoted(text: Seq<char>, after: Seq<char>)
    ensures
        unquoted(quoted(text) + seq!['"'] + after, false) == Some(text),
    decreases text.len(),
{
    let input = quoted(text) + seq!['"'] + after;
    if text.len() == 0 {
        assert(text =~= Seq::empty());
    } else {
        let rest = quoted(text.skip(1)) + seq!['"'] + after;
        lemma_unquoted(text.skip(1), after);
        assert(seq![text[0]] + text.skip(1) =~= text);
        if text[0] == '"' || text[0] == '\\' {
            assert(input.skip(1) =~= seq![text[0]] + rest);
            assert(input.skip(1).skip(1) =~= rest);
            assert(input[0] == '\\' && input.skip(1)[0] == text[0]);
            assert(unquoted(input, false) == unquoted(input.skip(1), true));
            assert(unquoted(input.skip(1), true) == prepend(
                unescape(text[0]),
                unquoted(rest, false),
            ));
        } else {
            assert(input.skip(1) =~= rest);
        }
    }
}

} // verus!
