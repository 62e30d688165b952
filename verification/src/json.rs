//! JSON strings.
use vstd::prelude::*;
use crate::number::hex_digit;

verus! {

/// The error type of `serde_json`, which is carried through and not looked into.
#[verifier::external_type_specification]
#[verifier::external_body]
pub struct ExJsonError(serde_json::Error);

/// How a character is written in a JSON string.
pub open spec fn json_char(c: char) -> Seq<char> {
    let n = c as u32;
    if c == '"' {
        seq!['\\', '"']
    } else if c == '\\' {
        seq!['\\', '\\']
    } else if n == 8 {
        seq!['\\', 'b']
    } else if n == 9 {
        seq!['\\', 't']
    } else if n == 10 {
        seq!['\\', 'n']
    } else if n == 12 {
        seq!['\\', 'f']
    } else if n == 13 {
        seq!['\\', 'r']
    } else if n < 32 {
        seq!['\\', 'u', '0', '0', hex_digit(n as int / 16), hex_digit(n as int % 16)]
    } else {
        seq![c]
    }
}

/// The characters of a text as they are written in a JSON string.
pub open spec fn json_chars(s: Seq<char>) -> Seq<char>
    decreases s.len(),
{
    if s.len() == 0 {
        seq![]
    } else {
        json_char(s[0]) + json_chars(s.drop_first())
    }
}

/// A text as a JSON string.
pub open spec fn json_string(s: Seq<char>) -> Seq<char> {
    seq!['"'] + json_chars(s) + seq!['"']
}

/// `serde_json::to_string` on a text: it succeeds, and gives the text in quotation marks with
/// these two, the backslash and the control characters below U+0020 escaped.
#[verifier::external_body]
pub(crate) fn json_text(s: &str) -> (r: Result<String, serde_json::Error>)
    ensures
        r is Ok,
        (r->Ok_0)@ == json_string(s@),
{
    serde_json::to_string(s)
}

proof fn lemma_json_char(c: char)
    ensures
        json_char(c).len() > 0,
        forall|i: int| 0 <= i < json_char(c).len() ==> #[trigger] json_char(c)[i] as u32 >= 32,
{
}

/// A JSON string has no control character in it, and so no line ending.
pub proof fn law_json_string_is_one_line(s: Seq<char>)
    ensures
        forall|i: int| 0 <= i < json_string(s).len() ==> #[trigger] json_string(s)[i] as u32 >= 32,
{
    lemma_json_chars(s);
    assert forall|i: int| 0 <= i < json_string(s).len() implies #[trigger] json_string(
        s,
    )[i] as u32 >= 32 by {
        if 0 < i < json_string(s).len() - 1 {
            assert(json_string(s)[i] == json_chars(s)[i - 1]);
        }
    }
}

proof fn lemma_json_chars(s: Seq<char>)
    ensures
        forall|i: int| 0 <= i < json_chars(s).len() ==> #[trigger] json_chars(s)[i] as u32 >= 32,
    decreases s.len(),
{
    if s.len() > 0 {
        let tail = s.drop_first();
        lemma_json_char(s[0]);
        lemma_json_chars(tail);
        assert forall|i: int| 0 <= i < json_chars(s).len() implies #[trigger] json_chars(
            s,
        )[i] as u32 >= 32 by {
            let n = json_char(s[0]).len() as int;
            if i < n {
                assert(json_chars(s)[i] == json_char(s[0])[i]);
            } else {
                assert(json_chars(s)[i] == json_chars(tail)[i - n]);
            }
        }
    }
}

/// Two characters whose written forms begin alike are the same.
proof fn lemma_json_char_told(a: char, b: char, x: Seq<char>, y: Seq<char>)
    requires
        json_char(a) + x == json_char(b) + y,
    ensures
        a == b,
        x == y,
{
    let s = json_char(a) + x;
    let t = json_char(b) + y;
    assert(s[0] == json_char(a)[0] && t[0] == json_char(b)[0]);
    if json_char(a).len() > 1 {
        assert(s[1] == json_char(a)[1]);
    }
    if json_char(b).len() > 1 {
        assert(t[1] == json_char(b)[1]);
    }
    if json_char(a).len() == 6 && json_char(b).len() == 6 {
        assert(s[4] == json_char(a)[4] && t[4] == json_char(b)[4]);
        assert(s[5] == json_char(a)[5] && t[5] == json_char(b)[5]);
        assert(a as u32 as int / 16 == b as u32 as int / 16);
        assert(a as u32 as int % 16 == b as u32 as int % 16);
    }
    assert(a == b);
    assert(s.skip(json_char(a).len() as int) =~= x);
    assert(t.skip(json_char(b).len() as int) =~= y);
}

/// A text can be told from its JSON string.
pub proof fn law_json_string_tells_text(a: Seq<char>, b: Seq<char>)
    requires
        json_string(a) == json_string(b),
    ensures
        a == b,
{
    let s = json_string(a);
    let n = s.len() as int;
    assert(s.subrange(1, n - 1) =~= json_chars(a));
    assert(json_string(b).subrange(1, n - 1) =~= json_chars(b));
    lemma_json_chars_told(a, b);
}

proof fn lemma_json_chars_told(a: Seq<char>, b: Seq<char>)
    requires
        json_chars(a) == json_chars(b),
    ensures
        a == b,
    decreases a.len(),
{
    if a.len() > 0 {
        lemma_json_char(a[0]);
        assert(json_chars(a).len() > 0);
    }
    if b.len() > 0 {
        lemma_json_char(b[0]);
        assert(json_chars(b).len() > 0);
    }
    if a.len() > 0 && b.len() > 0 {
        lemma_json_char_told(a[0], b[0], json_chars(a.drop_first()), json_chars(b.drop_first()));
        lemma_json_chars_told(a.drop_first(), b.drop_first());
        assert(a =~= seq![a[0]] + a.drop_first());
        assert(b =~= seq![b[0]] + b.drop_first());
    } else {
        assert(a =~= b);
    }
}

} // verus!
