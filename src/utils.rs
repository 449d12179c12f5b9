use vstd::prelude::*;
use vstd::string::StringSliceAdditionalSpecFns;
use vstd::utf8::*;

use crate::expr::{is_digit, is_operator_char};

verus! {

/// The classes of characters that the scanner reads runs of.
#[derive(Debug, Clone, Copy, PartialEq, Eq, Structural)]
pub enum CharClass {
    Digit,
    Operator,
    Space,
}

pub open spec fn in_class(c: char, class: CharClass) -> bool {
    match class {
        CharClass::Digit => is_digit(c),
        CharClass::Operator => is_operator_char(c),
        CharClass::Space => c == ' ',
    }
}

/// Length of the longest prefix of `s` whose characters are all in `class`.
pub open spec fn span(s: Seq<char>, class: CharClass) -> nat
    decreases s.len(),
{
    if s.len() > 0 && in_class(s[0], class) {
        1 + span(s.drop_first(), class)
    } else {
        0
    }
}

pub open spec fn is_ascii_char(c: char) -> bool {
    '\0' <= c <= '\u{7f}'
}

proof fn lemma_span(s: Seq<char>, class: CharClass, i: int)
    requires
        0 <= i <= s.len(),
        forall|j: int| 0 <= j < i ==> in_class(#[trigger] s[j], class),
        i == s.len() || !in_class(s[i], class),
    ensures
        span(s, class) == i,
    decreases i,
{
    if i > 0 {
        let t = s.drop_first();
        assert forall|j: int| 0 <= j < i - 1 implies in_class(#[trigger] t[j], class) by {
            assert(t[j] == s[j + 1]);
        }
        assert(i - 1 == t.len() || t[i - 1] == s[i]);
        lemma_span(t, class, i - 1);
    }
}

pub(crate) proof fn lemma_span_bounds(s: Seq<char>, class: CharClass)
    ensures
        span(s, class) <= s.len(),
        forall|j: int| 0 <= j < span(s, class) ==> in_class(#[trigger] s[j], class),
        span(s, class) < s.len() ==> !in_class(s[span(s, class) as int], class),
    decreases s.len(),
{
    if s.len() > 0 && in_class(s[0], class) {
        let t = s.drop_first();
        lemma_span_bounds(t, class);
        assert forall|j: int| 0 <= j < span(s, class) implies in_class(#[trigger] s[j], class) by {
            if j > 0 {
                assert(s[j] == t[j - 1]);
            }
        }
        if span(s, class) < s.len() {
            assert(s[span(s, class) as int] == t[span(t, class) as int]);
        }
    }
}

proof fn lemma_encode_concat(a: Seq<char>, b: Seq<char>)
    ensures
        encode_utf8(a + b) == encode_utf8(a) + encode_utf8(b),
    decreases a.len(),
{
    if a.len() == 0 {
        assert(a + b =~= b);
        assert(encode_utf8(a) + encode_utf8(b) =~= encode_utf8(b));
    } else {
        assert((a + b).drop_first() =~= a.drop_first() + b);
        lemma_encode_concat(a.drop_first(), b);
        assert(encode_utf8(a + b) =~= encode_utf8(a) + encode_utf8(b));
    }
}

proof fn lemma_char_boundary(a: Seq<char>, b: Seq<char>)
    ensures
        is_char_boundary(encode_utf8(a + b), encode_utf8(a).len() as int),
    decreases a.len(),
{
    broadcast use encode_utf8_valid_utf8;

    if a.len() > 0 {
        let c = a + b;
        encode_utf8_first_scalar(c);
        assert(c.drop_first() =~= a.drop_first() + b);
        lemma_encode_concat(a.drop_first(), b);
        lemma_encode_concat(a, b);
        let w = encode_scalar(c[0] as u32).len() as int;
        assert(encode_utf8(c) =~= encode_scalar(c[0] as u32) + encode_utf8(c.drop_first()));
        assert(pop_first_scalar(encode_utf8(c)) =~= encode_utf8(c.drop_first()));
        assert(encode_utf8(a) =~= encode_scalar(a[0] as u32) + encode_utf8(a.drop_first()));
        assert(a[0] == c[0]);
        lemma_char_boundary(a.drop_first(), b);
    }
}

/// Facts on the UTF-8 bytes of `s` where its first `k` characters are
/// ASCII: they are the first `k` bytes, `k` is a character boundary, and the
/// byte at `k` is ASCII exactly when the character at `k` is.
proof fn lemma_ascii_prefix(s: Seq<char>, k: int)
    requires
        0 <= k <= s.len(),
        forall|j: int| 0 <= j < k ==> is_ascii_char(#[trigger] s[j]),
    ensures
        encode_utf8(s).len() >= k,
        encode_utf8(s).len() == k <==> k == s.len(),
        forall|j: int| 0 <= j < k ==> #[trigger] encode_utf8(s)[j] == s[j] as u8,
        encode_utf8(s).subrange(0, k) == encode_utf8(s.take(k)),
        encode_utf8(s).subrange(k, encode_utf8(s).len() as int) == encode_utf8(s.skip(k)),
        is_char_boundary(encode_utf8(s), k),
        k < s.len() ==> (encode_utf8(s)[k] < 128 <==> is_ascii_char(s[k])),
        k < s.len() && is_ascii_char(s[k]) ==> encode_utf8(s)[k] == s[k] as u8,
{
    let p = s.take(k);
    let q = s.skip(k);
    assert(s =~= p + q);
    lemma_encode_concat(p, q);
    assert forall|j: int| 0 <= j < p.len() implies '\0' <= #[trigger] p[j] <= '\u{7f}' by {
        assert(p[j] == s[j]);
    }
    is_ascii_chars_encode_utf8(p);
    lemma_char_boundary(p, q);
    let e = encode_utf8(s);
    assert(e.subrange(0, k) =~= encode_utf8(p));
    assert(e.subrange(k, e.len() as int) =~= encode_utf8(q));
    assert forall|j: int| 0 <= j < k implies #[trigger] e[j] == s[j] as u8 by {
        assert(p[j] == s[j]);
        assert(e[j] == encode_utf8(p)[j]);
    }
    if k < s.len() {
        encode_utf8_first_scalar(q);
        encode_utf8_valid_utf8(q);
        let eq = encode_utf8(q);
        assert(e[k] == eq[0]);
        assert(q[0] == s[k]);
        let b = eq[0];
        if is_ascii_char(s[k]) {
            let p1 = s.take(k + 1);
            assert forall|j: int| 0 <= j < p1.len() implies '\0' <= #[trigger] p1[j] <= '\u{7f}' by {
                assert(p1[j] == s[j]);
            }
            is_ascii_chars_encode_utf8(p1);
            let q1 = s.skip(k + 1);
            assert(s =~= p1 + q1);
            lemma_encode_concat(p1, q1);
            assert(p1[k] == s[k]);
            assert(e[k] == encode_utf8(p1)[k]);
        } else {
            if b < 128 {
                assert(b <= 0x7f ==> (b & 0x7f) as u32 == b as u32) by (bit_vector);
                assert(decode_first_scalar(eq) == b as u32);
                assert(s[k] as u32 == b as u32);
                assert((s[k] as u32) < 128);
                char_u32_cast(s[k], b as u32);
                assert(((b as u32) as char) == s[k]);
                assert(((b as u32) as char) as int == b as int);
                assert('\0' <= s[k] <= '\u{7f}');
            }
        }
    }
}

/// The characters of a piece of `s` cut at a character boundary are the
/// characters before (or after) that boundary.
proof fn lemma_piece_chars(piece: Seq<char>, chars: Seq<char>)
    requires
        encode_utf8(piece) == encode_utf8(chars),
    ensures
        piece == chars,
{
    encode_utf8_decode_utf8(piece);
    encode_utf8_decode_utf8(chars);
}

/// An ASCII character and its byte agree on being a digit or a minus sign.
pub(crate) proof fn lemma_ascii_byte(c: char, b: u8)
    requires
        is_ascii_char(c),
        c as u8 == b,
    ensures
        is_digit(c) <==> 48 <= b <= 57,
        c == '-' <==> b == 45,
{
}

fn byte_in_class(b: u8, class: CharClass) -> (r: bool)
    ensures
        forall|c: char| is_ascii_char(c) && c as u8 == b ==> r == in_class(c, class),
        !is_ascii_byte(b) ==> !r,
{
    match class {
        CharClass::Digit => 48u8 <= b && b <= 57u8,
        CharClass::Operator => b == 43u8 || b == 45u8 || b == 42u8 || b == 47u8,
        CharClass::Space => b == 32u8,
    }
}

pub open spec fn is_ascii_byte(b: u8) -> bool {
    b < 128
}

/// Splits `s` after its `k`-th character, where the first `k` characters
/// are ASCII.
fn split_ascii(s: &str, k: usize) -> (r: (&str, &str))
    requires
        k <= s@.len(),
        forall|j: int| 0 <= j < k ==> is_ascii_char(#[trigger] s@[j]),
    ensures
        r.0@ == s@.take(k as int),
        r.1@ == s@.skip(k as int),
{
    proof {
        lemma_ascii_prefix(s@, k as int);
    }
    let r = s.split_at(k);
    proof {
        lemma_piece_chars(r.0@, s@.take(k as int));
        lemma_piece_chars(r.1@, s@.skip(k as int));
    }
    r
}

/// Splits `s` after its longest prefix of characters in `class`.
fn extract_while(class: CharClass, s: &str) -> (r: (&str, &str))
    ensures
        r.0@ == s@.take(span(s@, class) as int),
        r.1@ == s@.skip(span(s@, class) as int),
{
    let bytes = s.as_bytes();
    let n = bytes.len();
    let mut i: usize = 0;
    let mut done = false;
    proof {
        lemma_ascii_prefix(s@, 0);
    }
    while i < n && !done
        invariant
            bytes@ == encode_utf8(s@),
            n == bytes@.len(),
            i <= s@.len(),
            forall|j: int| 0 <= j < i ==> in_class(#[trigger] s@[j], class) && is_ascii_char(s@[j]),
            done ==> i < s@.len() && !in_class(s@[i as int], class),
            i == s@.len() ==> i == n,
            i < s@.len() ==> i < n,
        decreases n - i + (if done { 0int } else { 1int }),
    {
        proof {
            lemma_ascii_prefix(s@, i as int);
        }
        if byte_in_class(bytes[i], class) {
            i = i + 1;
            proof {
                lemma_ascii_prefix(s@, i as int);
            }
        } else {
            done = true;
        }
    }
    proof {
        lemma_span(s@, class, i as int);
    }
    split_ascii(s, i)
}

/// Splits off the leading decimal digits of `s`.
pub fn extract_digit(s: &str) -> (r: (&str, &str))
    ensures
        r.0@ == s@.take(span(s@, CharClass::Digit) as int),
        r.1@ == s@.skip(span(s@, CharClass::Digit) as int),
{
    extract_while(CharClass::Digit, s)
}

/// Splits off the leading operator characters (`+ - * /`) of `s`.
pub fn extract_operator(s: &str) -> (r: (&str, &str))
    ensures
        r.0@ == s@.take(span(s@, CharClass::Operator) as int),
        r.1@ == s@.skip(span(s@, CharClass::Operator) as int),
{
    extract_while(CharClass::Operator, s)
}

/// Splits off the leading spaces of `s`.
pub fn extract_whitespace(s: &str) -> (r: (&str, &str))
    ensures
        r.0@ == s@.take(span(s@, CharClass::Space) as int),
        r.1@ == s@.skip(span(s@, CharClass::Space) as int),
{
    extract_while(CharClass::Space, s)
}

/// The next token of `s` after its leading spaces, and what follows it:
/// a run of digits, or a single operator character. Both are empty at the
/// end of the input or before any other character.
pub open spec fn next_token(s: Seq<char>) -> (Seq<char>, Seq<char>) {
    let t = s.skip(span(s, CharClass::Space) as int);
    if t.len() == 0 {
        (seq![], seq![])
    } else if is_digit(t[0]) {
        (t.take(span(t, CharClass::Digit) as int), t.skip(span(t, CharClass::Digit) as int))
    } else if is_operator_char(t[0]) {
        (t.take(1), t.skip(1))
    } else {
        (seq![], seq![])
    }
}

/// Splits off the next token of `s` (see `next_token`).
pub fn extract_next_token(s: &str) -> (r: (&str, &str))
    ensures
        r.0@ == next_token(s@).0,
        r.1@ == next_token(s@).1,
{
    let (_, t) = extract_whitespace(s);
    proof {
        lemma_span_bounds(s@, CharClass::Space);
        lemma_ascii_prefix(t@, 0);
    }
    let bytes = t.as_bytes();
    if bytes.len() == 0 {
        let e = "";
        proof {
            reveal_strlit("");
            assert(encode_utf8(t@).len() == 0);
            assert(t@.len() == 0);
            assert(e@ =~= Seq::<char>::empty());
            assert(next_token(s@).0 =~= Seq::<char>::empty());
            assert(next_token(s@).1 =~= Seq::<char>::empty());
        }
        return (e, e);
    }
    let first = bytes[0];
    if byte_in_class(first, CharClass::Digit) {
        extract_digit(t)
    } else if byte_in_class(first, CharClass::Operator) {
        split_ascii(t, 1)
    } else {
        let e = "";
        proof {
            reveal_strlit("");
            assert(e@ =~= Seq::<char>::empty());
        }
        (e, e)
    }
}

} // verus!
