//! Text as a sequence of characters: searching, trimming, splitting, joining and
//! letter case.
use vstd::prelude::*;
use vstd::string::StringExecFns;
use vstd::utf8::{decode_utf8, is_ascii_chars, valid_utf8};

verus! {

// ---------------------------------------------------------------------------
// Outside functions of the standard library.
// ---------------------------------------------------------------------------

/// `String::push`: the character is appended to the text.
pub assume_specification[ String::push ](s: &mut String, c: char)
    ensures
        final(s)@ == old(s)@.push(c),
;

/// What `str::to_lowercase` makes of a text.
pub uninterp spec fn lowercase(s: Seq<char>) -> Seq<char>;

/// What `str::to_uppercase` makes of a text.
pub uninterp spec fn uppercase(s: Seq<char>) -> Seq<char>;

/// `str::to_lowercase`: the Unicode lowercase form of the text. For a text of ASCII
/// characters alone it is the text with the letters `A` to `Z` turned into `a` to `z`.
pub assume_specification[ str::to_lowercase ](s: &str) -> (r: String)
    ensures
        r@ == lowercase(s@),
        is_ascii_chars(s@) ==> r@ == ascii_lowercase(s@),
;

/// `str::to_uppercase`: the Unicode uppercase form of the text. For a text of ASCII
/// characters alone it is the text with the letters `a` to `z` turned into `A` to `Z`.
pub assume_specification[ str::to_uppercase ](s: &str) -> (r: String)
    ensures
        r@ == uppercase(s@),
        is_ascii_chars(s@) ==> r@ == ascii_uppercase(s@),
;

/// What `String::from_utf8_lossy` makes of bytes.
pub uninterp spec fn utf8_lossy(bytes: Seq<u8>) -> Seq<char>;

/// What the `Debug` format of a text is.
pub uninterp spec fn debug_text(s: Seq<char>) -> Seq<char>;

/// `String::from_utf8_lossy`: the bytes read as UTF-8, with U+FFFD in place of what is not.
/// Bytes that are UTF-8 throughout give the text that they encode.
#[verifier::external_body]
pub(crate) fn lossy_text(bytes: &[u8]) -> (r: String)
    ensures
        r@ == utf8_lossy(bytes@),
        valid_utf8(bytes@) ==> r@ == decode_utf8(bytes@),
{
    String::from_utf8_lossy(bytes).into_owned()
}

/// `std::str::from_utf8`: the text that the bytes encode, where they are UTF-8.
#[verifier::external_body]
pub(crate) fn utf8_text(bytes: &[u8]) -> (r: Option<String>)
    ensures
        match r {
            Some(s) => valid_utf8(bytes@) && s@ == decode_utf8(bytes@),
            None => !valid_utf8(bytes@),
        },
{
    std::str::from_utf8(bytes).ok().map(|s| s.to_owned())
}

/// The `Debug` format of a text, as `format!` with `{:?}` writes it.
#[verifier::external_body]
pub(crate) fn debug_format(s: &str) -> (r: String)
    ensures
        r@ == debug_text(s@),
{
    format!("{:?}", s)
}

// ---------------------------------------------------------------------------
// What a text holds.
// ---------------------------------------------------------------------------

/// The views of a list of strings.
pub open spec fn texts(v: Seq<String>) -> Seq<Seq<char>> {
    Seq::new(v.len(), |i: int| v[i]@)
}

/// The view of an optional string.
pub open spec fn opt_text(v: Option<String>) -> Option<Seq<char>> {
    match v {
        Some(s) => Some(s@),
        None => None,
    }
}

/// The view of an optional string slice.
pub open spec fn opt_str(v: Option<&str>) -> Option<Seq<char>> {
    match v {
        Some(s) => Some(s@),
        None => None,
    }
}

/// The characters with the Unicode property White_Space.
pub open spec fn white_space(c: char) -> bool {
    ||| 0x09 <= c as u32 <= 0x0d
    ||| c as u32 == 0x20
    ||| c as u32 == 0x85
    ||| c as u32 == 0xa0
    ||| c as u32 == 0x1680
    ||| 0x2000 <= c as u32 <= 0x200a
    ||| 0x2028 <= c as u32 <= 0x2029
    ||| c as u32 == 0x202f
    ||| c as u32 == 0x205f
    ||| c as u32 == 0x3000
}

/// The lowercase form of an ASCII letter; any other character as it is.
pub open spec fn ascii_lower(c: char) -> char {
    if 'A' <= c <= 'Z' {
        (c as u32 + 32) as char
    } else {
        c
    }
}

/// The uppercase form of an ASCII letter; any other character as it is.
pub open spec fn ascii_upper(c: char) -> char {
    if 'a' <= c <= 'z' {
        (c as u32 - 32) as char
    } else {
        c
    }
}

pub open spec fn ascii_lowercase(s: Seq<char>) -> Seq<char> {
    Seq::new(s.len(), |i: int| ascii_lower(s[i]))
}

pub open spec fn ascii_uppercase(s: Seq<char>) -> Seq<char> {
    Seq::new(s.len(), |i: int| ascii_upper(s[i]))
}

/// `s` begins with `prefix`.
pub open spec fn begins_with<T>(s: Seq<T>, prefix: Seq<T>) -> bool {
    prefix.len() <= s.len() && s.take(prefix.len() as int) == prefix
}

/// `s` ends with `suffix`.
pub open spec fn finishes_with<T>(s: Seq<T>, suffix: Seq<T>) -> bool {
    suffix.len() <= s.len() && s.skip(s.len() - suffix.len()) == suffix
}

/// `part` stands in `s` at position `i`.
pub open spec fn stands_at<T>(s: Seq<T>, part: Seq<T>, i: int) -> bool {
    0 <= i && i + part.len() <= s.len() && s.subrange(i, i + part.len()) == part
}

/// `part` stands somewhere in `s`.
pub open spec fn holds_part<T>(s: Seq<T>, part: Seq<T>) -> bool {
    exists|i: int| #[trigger] stands_at(s, part, i)
}

/// The first position at or after `from` where `part` stands in `s`.
pub open spec fn place_from<T>(s: Seq<T>, part: Seq<T>, from: int) -> Option<int>
    decreases s.len() - from + 1,
{
    if from < 0 || from + part.len() > s.len() {
        None
    } else if stands_at(s, part, from) {
        Some(from)
    } else {
        place_from(s, part, from + 1)
    }
}

/// The first position of `x` in `s`, or the length of `s` where there is none.
pub open spec fn first_of<T>(s: Seq<T>, x: T) -> nat
    decreases s.len(),
{
    if s.len() == 0 || s[0] == x {
        0
    } else {
        1 + first_of(s.drop_first(), x)
    }
}

/// The pieces of `s` between the places where `sep` stands.
pub open spec fn split_on<T>(s: Seq<T>, sep: T) -> Seq<Seq<T>>
    decreases s.len(),
{
    let i = first_of(s, sep);
    if i >= s.len() {
        seq![s]
    } else {
        seq![s.take(i as int)] + split_on(s.skip(i as int + 1), sep)
    }
}

/// The parts one after another with `sep` between each two.
pub open spec fn join(parts: Seq<Seq<char>>, sep: Seq<char>) -> Seq<char>
    decreases parts.len(),
{
    if parts.len() == 0 {
        seq![]
    } else if parts.len() == 1 {
        parts[0]
    } else {
        join(parts.drop_last(), sep) + sep + parts.last()
    }
}

/// `s` with every `c` replaced by `with`.
pub open spec fn replace_char(s: Seq<char>, c: char, with: Seq<char>) -> Seq<char>
    decreases s.len(),
{
    if s.len() == 0 {
        seq![]
    } else {
        replace_char(s.drop_last(), c, with) + (if s.last() == c {
            with
        } else {
            seq![s.last()]
        })
    }
}

pub open spec fn trim_start(s: Seq<char>) -> Seq<char>
    decreases s.len(),
{
    if s.len() > 0 && white_space(s[0]) {
        trim_start(s.drop_first())
    } else {
        s
    }
}

pub open spec fn trim_end(s: Seq<char>) -> Seq<char>
    decreases s.len(),
{
    if s.len() > 0 && white_space(s.last()) {
        trim_end(s.drop_last())
    } else {
        s
    }
}

/// `s` without the white space at either end.
pub open spec fn trim(s: Seq<char>) -> Seq<char> {
    trim_end(trim_start(s))
}

/// `s` without the characters `c` at its end.
pub open spec fn trim_end_char(s: Seq<char>, c: char) -> Seq<char>
    decreases s.len(),
{
    if s.len() > 0 && s.last() == c {
        trim_end_char(s.drop_last(), c)
    } else {
        s
    }
}

/// How many characters of `s` come before the first white space.
pub open spec fn word_len(s: Seq<char>) -> nat
    decreases s.len(),
{
    if s.len() == 0 || white_space(s[0]) {
        0
    } else {
        1 + word_len(s.drop_first())
    }
}

/// The first word of `s` and what follows it; `None` where `s` is all white space.
pub open spec fn next_word(s: Seq<char>) -> Option<(Seq<char>, Seq<char>)> {
    let t = trim_start(s);
    if t.len() == 0 {
        None
    } else {
        Some((t.take(word_len(t) as int), t.skip(word_len(t) as int)))
    }
}

// ---------------------------------------------------------------------------
// Lemmas.
// ---------------------------------------------------------------------------

pub proof fn lemma_first_of<T>(s: Seq<T>, x: T)
    ensures
        first_of(s, x) <= s.len(),
        forall|j: int| 0 <= j < first_of(s, x) ==> s[j] != x,
        first_of(s, x) < s.len() ==> s[first_of(s, x) as int] == x,
    decreases s.len(),
{
    if s.len() > 0 && s[0] != x {
        let t = s.drop_first();
        lemma_first_of(t, x);
        assert forall|j: int| 0 <= j < first_of(s, x) implies s[j] != x by {
            if j > 0 {
                assert(s[j] == t[j - 1]);
            }
        }
    }
}

/// The first position is the one that nothing equal comes before.
pub proof fn lemma_first_of_is<T>(s: Seq<T>, x: T, i: int)
    requires
        0 <= i <= s.len(),
        forall|j: int| 0 <= j < i ==> s[j] != x,
        i < s.len() ==> s[i] == x,
    ensures
        first_of(s, x) == i,
{
    lemma_first_of(s, x);
}

/// Parts that are joined, with the first one apart.
pub proof fn lemma_join_front(parts: Seq<Seq<char>>, sep: Seq<char>)
    requires
        parts.len() > 1,
    ensures
        join(parts, sep) == parts[0] + sep + join(parts.drop_first(), sep),
    decreases parts.len(),
{
    if parts.len() == 2 {
        let head = parts.drop_last();
        assert(head.len() == 1 && head[0] == parts[0]);
        assert(join(head, sep) == parts[0]);
        assert(parts.drop_first()[0] == parts.last());
        assert(join(parts.drop_first(), sep) == parts.last());
    } else {
        let head = parts.drop_last();
        lemma_join_front(head, sep);
        let tail = parts.drop_first();
        assert(tail.drop_last() =~= head.drop_first());
        assert(head[0] == parts[0]);
        assert(join(tail, sep) == join(tail.drop_last(), sep) + sep + tail.last());
        assert(join(parts, sep) =~= parts[0] + sep + join(tail, sep));
    }
}

/// Parts that are joined by a character that none of them has are the pieces between it.
pub proof fn lemma_split_of_join(parts: Seq<Seq<char>>, sep: char)
    requires
        parts.len() > 0,
        forall|i: int| 0 <= i < parts.len() ==> !(#[trigger] parts[i]).contains(sep),
    ensures
        split_on(join(parts, seq![sep]), sep) == parts,
    decreases parts.len(),
{
    let first = parts[0];
    assert forall|j: int| 0 <= j < first.len() implies first[j] != sep by {
        assert(first.contains(first[j]));
    }
    if parts.len() == 1 {
        lemma_first_of_is(first, sep, first.len() as int);
        assert(parts =~= seq![first]);
    } else {
        let tail = parts.drop_first();
        lemma_join_front(parts, seq![sep]);
        assert forall|i: int| 0 <= i < tail.len() implies !(#[trigger] tail[i]).contains(sep) by {
            assert(tail[i] == parts[i + 1]);
        }
        lemma_split_of_join(tail, sep);
        let rest = join(tail, seq![sep]);
        let text = join(parts, seq![sep]);
        let n = first.len() as int;
        assert(text == first + seq![sep] + rest);
        assert forall|j: int| 0 <= j < n implies text[j] != sep by {
            assert(text[j] == first[j]);
        }
        assert(text[n] == sep);
        lemma_first_of_is(text, sep, n);
        assert(text.take(n) =~= first);
        assert(text.skip(n + 1) =~= rest);
        assert(parts =~= seq![first] + tail);
    }
}

pub proof fn lemma_trim_start(s: Seq<char>, i: int)
    requires
        0 <= i <= s.len(),
        forall|j: int| 0 <= j < i ==> white_space(s[j]),
    ensures
        trim_start(s) == trim_start(s.skip(i)),
    decreases i,
{
    if i == 0 {
        assert(s.skip(0) =~= s);
    } else {
        let t = s.drop_first();
        assert forall|j: int| 0 <= j < i - 1 implies white_space(t[j]) by {
            assert(t[j] == s[j + 1]);
        }
        lemma_trim_start(t, i - 1);
        assert(t.skip(i - 1) =~= s.skip(i));
    }
}

pub proof fn lemma_trim_end(s: Seq<char>, n: int)
    requires
        0 <= n <= s.len(),
        forall|j: int| n <= j < s.len() ==> white_space(s[j]),
    ensures
        trim_end(s) == trim_end(s.take(n)),
    decreases s.len() - n,
{
    if n == s.len() {
        assert(s.take(n) =~= s);
    } else {
        lemma_trim_end(s.drop_last(), n);
        assert(s.drop_last().take(n) =~= s.take(n));
    }
}

pub proof fn lemma_trim_end_char(s: Seq<char>, c: char, n: int)
    requires
        0 <= n <= s.len(),
        forall|j: int| n <= j < s.len() ==> s[j] == c,
    ensures
        trim_end_char(s, c) == trim_end_char(s.take(n), c),
    decreases s.len() - n,
{
    if n == s.len() {
        assert(s.take(n) =~= s);
    } else {
        lemma_trim_end_char(s.drop_last(), c, n);
        assert(s.drop_last().take(n) =~= s.take(n));
    }
}

pub proof fn lemma_word_len(s: Seq<char>, n: int)
    requires
        0 <= n <= s.len(),
        forall|j: int| 0 <= j < n ==> !white_space(s[j]),
        n < s.len() ==> white_space(s[n]),
    ensures
        word_len(s) == n,
    decreases s.len(),
{
    if s.len() > 0 && n > 0 {
        let t = s.drop_first();
        assert forall|j: int| 0 <= j < n - 1 implies !white_space(t[j]) by {
            assert(t[j] == s[j + 1]);
        }
        lemma_word_len(t, n - 1);
    }
}

// ---------------------------------------------------------------------------
// Functions.
// ---------------------------------------------------------------------------

/// Whether the character is white space.
pub fn is_white_space(c: char) -> (r: bool)
    ensures
        r == white_space(c),
{
    let n: u32 = c as u32;
    (0x09 <= n && n <= 0x0d) || n == 0x20 || n == 0x85 || n == 0xa0 || n == 0x1680 || (0x2000 <= n
        && n <= 0x200a) || n == 0x2028 || n == 0x2029 || n == 0x202f || n == 0x205f || n == 0x3000
}

/// The characters of a text.
pub fn chars_of(s: &str) -> (r: Vec<char>)
    ensures
        r@ == s@,
{
    let mut out: Vec<char> = Vec::new();
    for c in it: s.chars()
        invariant
            it.seq() == s@,
            out@ == s@.take(it.index() as int),
    {
        out.push(c);
        assert(out@ =~= s@.take(it.index() + 1));
    }
    assert(s@.take(s@.len() as int) =~= s@);
    out
}

/// The text that the characters `from..to` make up.
pub fn text_of(chars: &[char], from: usize, to: usize) -> (r: String)
    requires
        from <= to <= chars@.len(),
    ensures
        r@ == chars@.subrange(from as int, to as int),
{
    let mut out = String::new();
    let mut i: usize = from;
    while i < to
        invariant
            from <= i <= to <= chars@.len(),
            out@ == chars@.subrange(from as int, i as int),
        decreases to - i,
    {
        out.push(chars[i]);
        i = i + 1;
        assert(out@ =~= chars@.subrange(from as int, i as int));
    }
    out
}

/// Whether two texts are the same.
pub fn same(a: &str, b: &str) -> (r: bool)
    ensures
        r == (a@ == b@),
{
    a.to_owned() == b.to_owned()
}

/// Whether the characters of `part` stand in `s` at `i`.
pub fn part_at(s: &[char], part: &[char], i: usize) -> (r: bool)
    requires
        i <= s@.len(),
    ensures
        r == stands_at(s@, part@, i as int),
{
    if s.len() - i < part.len() {
        return false;
    }
    let mut k: usize = 0;
    while k < part.len()
        invariant
            k <= part@.len(),
            i + part@.len() <= s.len(),
            forall|j: int| 0 <= j < k ==> s@[i + j] == part@[j],
        decreases part@.len() - k,
    {
        if s[i + k] != part[k] {
            assert(s@.subrange(i as int, i + part@.len())[k as int] != part@[k as int]);
            return false;
        }
        k = k + 1;
    }
    assert(s@.subrange(i as int, i + part@.len()) =~= part@);
    true
}

pub fn starts_with(s: &str, prefix: &str) -> (r: bool)
    ensures
        r == begins_with(s@, prefix@),
{
    let c = chars_of(s);
    let p = chars_of(prefix);
    assert(p@.len() <= c@.len() ==> c@.subrange(0, 0int + p@.len()) =~= c@.take(p@.len() as int));
    part_at(c.as_slice(), p.as_slice(), 0)
}

pub fn ends_with(s: &str, suffix: &str) -> (r: bool)
    ensures
        r == finishes_with(s@, suffix@),
{
    let c = chars_of(s);
    let p = chars_of(suffix);
    if c.len() < p.len() {
        return false;
    }
    assert(c@.subrange(c@.len() - p@.len(), c@.len() as int) =~= c@.skip(c@.len() - p@.len()));
    part_at(c.as_slice(), p.as_slice(), c.len() - p.len())
}

/// The first position at or after `from` where `part` stands in `s`.
pub fn find_part(s: &[char], part: &[char], from: usize) -> (r: Option<usize>)
    requires
        from <= s@.len(),
    ensures
        match r {
            Some(i) => from <= i && stands_at(s@, part@, i as int) && forall|j: int|
                from <= j < i ==> !#[trigger] stands_at(s@, part@, j),
            None => forall|j: int| from <= j ==> !#[trigger] stands_at(s@, part@, j),
        },
{
    let mut i: usize = from;
    loop
        invariant
            from <= i <= s@.len(),
            forall|j: int| from <= j < i ==> !#[trigger] stands_at(s@, part@, j),
        decreases s@.len() - i,
    {
        if part_at(s, part, i) {
            return Some(i);
        }
        if i == s.len() {
            return None;
        }
        i = i + 1;
    }
}

pub fn contains(s: &str, part: &str) -> (r: bool)
    ensures
        r == holds_part(s@, part@),
{
    let c = chars_of(s);
    let p = chars_of(part);
    find_part(c.as_slice(), p.as_slice(), 0).is_some()
}

/// The first position of `c` in `s`.
pub fn find_char(s: &[char], c: char) -> (r: Option<usize>)
    ensures
        match r {
            Some(i) => i < s@.len() && first_of(s@, c) == i && s@[i as int] == c,
            None => first_of(s@, c) == s@.len() && !s@.contains(c),
        },
{
    let mut i: usize = 0;
    while i < s.len()
        invariant
            i <= s@.len(),
            forall|j: int| 0 <= j < i ==> s@[j] != c,
        decreases s@.len() - i,
    {
        if s[i] == c {
            proof {
                lemma_first_of_is(s@, c, i as int);
            }
            return Some(i);
        }
        i = i + 1;
    }
    proof {
        lemma_first_of_is(s@, c, i as int);
    }
    None
}

pub fn contains_char(s: &str, c: char) -> (r: bool)
    ensures
        r == s@.contains(c),
{
    let chars = chars_of(s);
    find_char(chars.as_slice(), c).is_some()
}

/// The text without the white space at either end.
pub fn trimmed(s: &str) -> (r: String)
    ensures
        r@ == trim(s@),
{
    let c = chars_of(s);
    let mut i: usize = 0;
    while i < c.len() && is_white_space(c[i])
        invariant
            i <= c@.len(),
            forall|j: int| 0 <= j < i ==> white_space(c@[j]),
        decreases c@.len() - i,
    {
        i = i + 1;
    }
    let mut n: usize = c.len();
    while i < n && is_white_space(c[n - 1])
        invariant
            i <= n <= c@.len(),
            forall|j: int| n <= j < c@.len() ==> white_space(c@[j]),
        decreases n,
    {
        n = n - 1;
    }
    proof {
        lemma_trim_start(c@, i as int);
        let t = c@.skip(i as int);
        assert(trim_start(t) == t);
        assert forall|j: int| n - i <= j < t.len() implies white_space(t[j]) by {
            assert(t[j] == c@[j + i]);
        }
        lemma_trim_end(t, n - i);
        assert(t.take(n - i) =~= c@.subrange(i as int, n as int));
        if i < n {
            assert(t.take(n - i).last() == c@[n - 1]);
        }
    }
    text_of(c.as_slice(), i, n)
}

/// The text without the characters `c` at its end.
pub fn without_trailing(s: &str, c: char) -> (r: String)
    ensures
        r@ == trim_end_char(s@, c),
{
    let chars = chars_of(s);
    let mut n: usize = chars.len();
    while 0 < n && chars[n - 1] == c
        invariant
            n <= chars@.len(),
            forall|j: int| n <= j < chars@.len() ==> chars@[j] == c,
        decreases n,
    {
        n = n - 1;
    }
    proof {
        lemma_trim_end_char(chars@, c, n as int);
        assert(chars@.take(n as int) =~= chars@.subrange(0, n as int));
    }
    text_of(chars.as_slice(), 0, n)
}

/// The pieces of the text between the places where `sep` stands.
pub fn split_char(s: &str, sep: char) -> (r: Vec<String>)
    ensures
        texts(r@) == split_on(s@, sep),
{
    let c = chars_of(s);
    let mut out: Vec<String> = Vec::new();
    let mut start: usize = 0;
    let mut i: usize = 0;
    assert(c@.skip(0) =~= c@);
    assert(texts(out@) + split_on(c@, sep) =~= split_on(c@, sep));
    while i < c.len()
        invariant
            start <= i <= c@.len(),
            forall|j: int| start <= j < i ==> c@[j] != sep,
            split_on(c@, sep) == texts(out@) + split_on(c@.skip(start as int), sep),
        decreases c@.len() - i,
    {
        if c[i] == sep {
            let piece = text_of(c.as_slice(), start, i);
            proof {
                let rest = c@.skip(start as int);
                lemma_first_of_is(rest, sep, i - start);
                assert(rest.take(i - start) =~= piece@);
                assert(rest.skip(i - start + 1) =~= c@.skip(i + 1));
                assert(texts(out@) + (seq![piece@] + split_on(c@.skip(i + 1), sep)) =~= texts(
                    out@.push(piece),
                ) + split_on(c@.skip(i + 1), sep));
            }
            out.push(piece);
            start = i + 1;
        }
        i = i + 1;
    }
    let piece = text_of(c.as_slice(), start, i);
    proof {
        let rest = c@.skip(start as int);
        lemma_first_of_is(rest, sep, i - start);
        assert(rest =~= piece@);
        assert(texts(out@) + seq![piece@] =~= texts(out@.push(piece)));
    }
    out.push(piece);
    out
}

/// The first word of the text and what follows it.
pub fn first_word(s: &str) -> (r: Option<(String, String)>)
    ensures
        match r {
            Some((word, rest)) => next_word(s@) == Some((word@, rest@)),
            None => next_word(s@) is None,
        },
{
    let c = chars_of(s);
    let mut i: usize = 0;
    while i < c.len() && is_white_space(c[i])
        invariant
            i <= c@.len(),
            forall|j: int| 0 <= j < i ==> white_space(c@[j]),
        decreases c@.len() - i,
    {
        i = i + 1;
    }
    let ghost t = c@.skip(i as int);
    proof {
        lemma_trim_start(c@, i as int);
        assert(trim_start(t) == t);
    }
    if i == c.len() {
        return None;
    }
    let mut n: usize = i;
    while n < c.len() && !is_white_space(c[n])
        invariant
            i <= n <= c@.len(),
            forall|j: int| i <= j < n ==> !white_space(c@[j]),
        decreases c@.len() - n,
    {
        n = n + 1;
    }
    proof {
        assert forall|j: int| 0 <= j < n - i implies !white_space(t[j]) by {
            assert(t[j] == c@[j + i]);
        }
        lemma_word_len(t, n - i);
        assert(t.take(n - i) =~= c@.subrange(i as int, n as int));
        assert(t.skip(n - i) =~= c@.subrange(n as int, c@.len() as int));
    }
    Some((text_of(c.as_slice(), i, n), text_of(c.as_slice(), n, c.len())))
}

/// The parts one after another with `sep` between each two.
pub fn joined(parts: &[String], sep: &str) -> (r: String)
    ensures
        r@ == join(texts(parts@), sep@),
{
    let mut out = String::new();
    let mut i: usize = 0;
    let ghost all = texts(parts@);
    assert(join(all.take(0), sep@) =~= out@);
    while i < parts.len()
        invariant
            i <= parts@.len(),
            all == texts(parts@),
            out@ == join(all.take(i as int), sep@),
        decreases parts@.len() - i,
    {
        if i > 0 {
            out.append(sep);
        }
        out.append(parts[i].as_str());
        i = i + 1;
        proof {
            assert(all.take(i as int).drop_last() =~= all.take(i - 1));
            assert(all.take(i as int).last() == parts@[i - 1]@);
        }
    }
    assert(all.take(i as int) =~= all);
    out
}

/// The text with every `c` replaced by `with`.
pub fn with_char_replaced(s: &str, c: char, with: &str) -> (r: String)
    ensures
        r@ == replace_char(s@, c, with@),
{
    let chars = chars_of(s);
    let mut out = String::new();
    let mut i: usize = 0;
    while i < chars.len()
        invariant
            i <= chars@.len(),
            out@ == replace_char(chars@.take(i as int), c, with@),
        decreases chars@.len() - i,
    {
        if chars[i] == c {
            out.append(with);
        } else {
            out.push(chars[i]);
        }
        i = i + 1;
        proof {
            assert(chars@.take(i as int).drop_last() =~= chars@.take(i - 1));
            let head = replace_char(chars@.take(i - 1), c, with@);
            assert(head + seq![chars@[i - 1]] =~= head.push(chars@[i - 1]));
        }
    }
    assert(chars@.take(i as int) =~= chars@);
    out
}

fn lower_ascii_char(c: char) -> (r: char)
    ensures
        r == ascii_lower(c),
{
    if 'A' <= c && c <= 'Z' {
        let n: u8 = c as u8;
        assert(n == c as u32);
        (n + 32) as char
    } else {
        c
    }
}

/// The text with the letters `A` to `Z` turned into `a` to `z`.
pub fn to_ascii_lower(s: &str) -> (r: String)
    ensures
        r@ == ascii_lowercase(s@),
{
    let chars = chars_of(s);
    let mut out = String::new();
    let mut i: usize = 0;
    while i < chars.len()
        invariant
            i <= chars@.len(),
            out@ == ascii_lowercase(chars@).take(i as int),
        decreases chars@.len() - i,
    {
        out.push(lower_ascii_char(chars[i]));
        i = i + 1;
        assert(out@ =~= ascii_lowercase(chars@).take(i as int));
    }
    assert(out@ =~= ascii_lowercase(chars@));
    out
}

/// Whether two texts are the same but for the case of ASCII letters.
pub fn same_ignoring_ascii_case(a: &str, b: &str) -> (r: bool)
    ensures
        r == (ascii_lowercase(a@) == ascii_lowercase(b@)),
{
    to_ascii_lower(a) == to_ascii_lower(b)
}

/// A copy of an optional text.
pub fn owned_opt(v: Option<&str>) -> (r: Option<String>)
    ensures
        opt_text(r) == opt_str(v),
{
    match v {
        Some(s) => Some(s.to_owned()),
        None => None,
    }
}

/// The position of the last `c` in `s`; -1 where there is none.
pub open spec fn last_of(s: Seq<char>, c: char) -> int
    decreases s.len(),
{
    if s.len() == 0 {
        -1
    } else if s.last() == c {
        s.len() - 1
    } else {
        last_of(s.drop_last(), c)
    }
}

/// The position of the last `c` in `s`.
pub fn last_place(s: &[char], c: char) -> (r: Option<usize>)
    ensures
        match r {
            Some(i) => last_of(s@, c) == i && i < s@.len(),
            None => last_of(s@, c) == -1,
        },
{
    let mut n: usize = s.len();
    assert(s@.take(n as int) =~= s@);
    while n > 0
        invariant
            n <= s@.len(),
            last_of(s@, c) == last_of(s@.take(n as int), c),
        decreases n,
    {
        assert(s@.take(n as int).drop_last() =~= s@.take(n - 1));
        if s[n - 1] == c {
            return Some(n - 1);
        }
        n = n - 1;
    }
    None
}

// ---------------------------------------------------------------------------
// Laws.
// ---------------------------------------------------------------------------

/// A text of white space alone.
pub open spec fn all_white_space(s: Seq<char>) -> bool {
    forall|i: int| 0 <= i < s.len() ==> white_space(#[trigger] s[i])
}

proof fn lemma_start_is_white_space(s: Seq<char>)
    ensures
        exists|a: Seq<char>|
            #![trigger a + trim_start(s)]
            s == a + trim_start(s) && all_white_space(a),
        trim_start(s).len() > 0 ==> !white_space(trim_start(s)[0]),
    decreases s.len(),
{
    let t = trim_start(s);
    if s.len() > 0 && white_space(s[0]) {
        lemma_start_is_white_space(s.drop_first());
        let a = choose|a: Seq<char>|
            #![trigger a + trim_start(s.drop_first())]
            s.drop_first() == a + trim_start(s.drop_first()) && all_white_space(a);
        let b = seq![s[0]] + a;
        assert(s =~= seq![s[0]] + s.drop_first());
        assert(s =~= b + t);
        assert(all_white_space(b)) by {
            assert forall|i: int| 0 <= i < b.len() implies white_space(#[trigger] b[i]) by {
                if i > 0 {
                    assert(b[i] == a[i - 1]);
                }
            }
        }
    } else {
        let a = Seq::<char>::empty();
        assert(s =~= a + t);
        assert(all_white_space(a));
    }
}

proof fn lemma_end_is_white_space(s: Seq<char>)
    ensures
        exists|b: Seq<char>|
            #![trigger trim_end(s) + b]
            s == trim_end(s) + b && all_white_space(b),
        trim_end(s).len() > 0 ==> !white_space(trim_end(s).last()),
        trim_end(s).len() > 0 ==> trim_end(s)[0] == s[0],
    decreases s.len(),
{
    let t = trim_end(s);
    if s.len() > 0 && white_space(s.last()) {
        lemma_end_is_white_space(s.drop_last());
        let a = choose|b: Seq<char>|
            #![trigger trim_end(s.drop_last()) + b]
            s.drop_last() == trim_end(s.drop_last()) + b && all_white_space(b);
        let b = a.push(s.last());
        assert(s =~= s.drop_last().push(s.last()));
        assert(s =~= t + b);
        assert(all_white_space(b)) by {
            assert forall|i: int| 0 <= i < b.len() implies white_space(#[trigger] b[i]) by {
                if i < a.len() {
                    assert(b[i] == a[i]);
                }
            }
        }
    } else {
        let b = Seq::<char>::empty();
        assert(s =~= t + b);
        assert(all_white_space(b));
    }
}

/// A text is what is left of it without white space around it, and white space before and behind.
/// What is left neither begins nor ends with white space, and trimming it changes nothing.
pub proof fn law_trim_takes_white_space_off(s: Seq<char>)
    ensures
        exists|a: Seq<char>, b: Seq<char>|
            #![trigger a + trim(s) + b]
            s == a + trim(s) + b && all_white_space(a) && all_white_space(b),
        trim(s).len() > 0 ==> !white_space(trim(s)[0]) && !white_space(trim(s).last()),
        trim(trim(s)) == trim(s),
{
    lemma_start_is_white_space(s);
    let t = trim_start(s);
    lemma_end_is_white_space(t);
    let a = choose|a: Seq<char>|
        #![trigger a + trim_start(s)]
        s == a + trim_start(s) && all_white_space(a);
    let b = choose|b: Seq<char>|
        #![trigger trim_end(t) + b]
        t == trim_end(t) + b && all_white_space(b);
    assert(s =~= a + trim(s) + b);
}

/// Blanks, tabs and line endings are white space; letters, digits and printable marks are not.
pub proof fn law_what_is_white_space(c: char)
    ensures
        white_space(' ') && white_space('\t') && white_space('\n') && white_space('\r'),
        '!' <= c <= '~' ==> !white_space(c),
{
}

/// The pieces of a text between separators give the text again with the separators between them,
/// and no separator is left in a piece.
pub proof fn law_split_and_join(s: Seq<char>, sep: char)
    ensures
        split_on(s, sep).len() > 0,
        join(split_on(s, sep), seq![sep]) == s,
        forall|i: int|
            0 <= i < split_on(s, sep).len() ==> !(#[trigger] split_on(s, sep)[i]).contains(sep),
    decreases s.len(),
{
    let n = first_of(s, sep) as int;
    lemma_first_of(s, sep);
    if n >= s.len() {
        assert(split_on(s, sep) =~= seq![s]);
        assert(!s.contains(sep)) by {
            if s.contains(sep) {
                let i = choose|i: int| 0 <= i < s.len() && s[i] == sep;
                assert(s[i] != sep);
            }
        }
    } else {
        let rest = s.skip(n + 1);
        law_split_and_join(rest, sep);
        let parts = split_on(s, sep);
        let first = s.take(n);
        assert(parts =~= seq![first] + split_on(rest, sep));
        lemma_join_front(parts, seq![sep]);
        assert(parts.drop_first() =~= split_on(rest, sep));
        assert(s =~= first + seq![sep] + rest);
        assert forall|i: int| 0 <= i < parts.len() implies !(#[trigger] parts[i]).contains(sep) by {
            if i == 0 {
                if first.contains(sep) {
                    let j = choose|j: int| 0 <= j < first.len() && first[j] == sep;
                    assert(s[j] == sep);
                }
            } else {
                assert(parts[i] == split_on(rest, sep)[i - 1]);
            }
        }
    }
}

/// The case of ASCII letters alone changes, and lowercase and uppercase undo each other on letters.
pub proof fn law_ascii_case(c: char)
    ensures
        'A' <= c <= 'Z' ==> 'a' <= ascii_lower(c) <= 'z' && ascii_upper(ascii_lower(c)) == c,
        'a' <= c <= 'z' ==> 'A' <= ascii_upper(c) <= 'Z' && ascii_lower(ascii_upper(c)) == c,
        !('A' <= c <= 'Z') ==> ascii_lower(c) == c,
        !('a' <= c <= 'z') ==> ascii_upper(c) == c,
{
}

/// A word: one character at least, and no white space.
pub open spec fn is_plain_word(s: Seq<char>) -> bool {
    s.len() > 0 && forall|i: int| 0 <= i < s.len() ==> !white_space(#[trigger] s[i])
}

/// The next word of a text is what stands before the first white space, and white space before it
/// does not count; what is left is all that follows the word.
pub proof fn law_next_word(word: Seq<char>, rest: Seq<char>)
    requires
        is_plain_word(word),
        rest.len() == 0 || white_space(rest[0]),
    ensures
        next_word(word + rest) == Some((word, rest)),
        next_word(seq![' '] + word + rest) == Some((word, rest)),
{
    let s = word + rest;
    let n = word.len() as int;
    assert(s[0] == word[0]);
    assert forall|j: int| 0 <= j < n implies !white_space(s[j]) by {
        assert(s[j] == word[j]);
    }
    lemma_word_len(s, n);
    assert(s.take(n) =~= word);
    assert(s.skip(n) =~= rest);
    assert((seq![' '] + word + rest).drop_first() =~= s);
}

/// A text of white space alone has no word.
pub proof fn law_white_space_has_no_word(s: Seq<char>)
    requires
        all_white_space(s),
    ensures
        next_word(s) is None,
    decreases s.len(),
{
    if s.len() > 0 {
        assert(white_space(s[0]));
        let t = s.drop_first();
        assert forall|i: int| 0 <= i < t.len() implies white_space(#[trigger] t[i]) by {
            assert(t[i] == s[i + 1]);
        }
        law_white_space_has_no_word(t);
    }
}

/// What stands in front, at the end or anywhere in a text is found there, and what is found there
/// stands there.
pub proof fn law_parts_of_a_text(a: Seq<char>, part: Seq<char>, b: Seq<char>, s: Seq<char>)
    ensures
        begins_with(part + b, part),
        finishes_with(a + part, part),
        holds_part(a + part + b, part),
        begins_with(s, part) ==> s == part + s.skip(part.len() as int),
        finishes_with(s, part) ==> s == s.take(s.len() - part.len()) + part,
        holds_part(s, part) ==> exists|i: int|
            0 <= i <= s.len() - part.len() && #[trigger] s.take(i) + part + s.skip(i + part.len())
                == s,
        begins_with(s, part) || finishes_with(s, part) ==> holds_part(s, part),
{
    assert((part + b).take(part.len() as int) =~= part);
    assert((a + part).skip(a.len() as int) =~= part);
    let all = a + part + b;
    assert(all.subrange(a.len() as int, (a.len() + part.len()) as int) =~= part);
    assert(stands_at(all, part, a.len() as int));
    if begins_with(s, part) {
        assert(s =~= s.take(part.len() as int) + s.skip(part.len() as int));
        assert(s.subrange(0, part.len() as int) =~= s.take(part.len() as int));
        assert(stands_at(s, part, 0));
    }
    if finishes_with(s, part) {
        let n = s.len() - part.len();
        assert(s =~= s.take(n) + s.skip(n));
        assert(s.subrange(n, n + part.len()) =~= s.skip(n));
        assert(stands_at(s, part, n));
    }
    if holds_part(s, part) {
        let i = choose|i: int| #[trigger] stands_at(s, part, i);
        assert(s =~= s.take(i) + s.subrange(i, i + part.len()) + s.skip(i + part.len()));
        assert(s.take(i) + part + s.skip(i + part.len()) == s);
    }
}

/// Replacing a character goes through a text from front to back, and changes nothing else.
pub proof fn law_character_is_replaced(a: Seq<char>, b: Seq<char>, c: char, with: Seq<char>)
    ensures
        replace_char(a + b, c, with) == replace_char(a, c, with) + replace_char(b, c, with),
        replace_char(seq![c], c, with) == with,
        !a.contains(c) ==> replace_char(a, c, with) == a,
    decreases a.len() + b.len(),
{
    reveal_with_fuel(replace_char, 2);
    assert(seq![c].drop_last() =~= seq![]);
    assert(Seq::<char>::empty() + with =~= with);
    if b.len() == 0 {
        assert(a + b =~= a);
        assert(replace_char(a, c, with) + Seq::<char>::empty() =~= replace_char(a, c, with));
    } else {
        law_character_is_replaced(a, b.drop_last(), c, with);
        assert((a + b).drop_last() =~= a + b.drop_last());
        assert((a + b).last() == b.last());
        assert(replace_char(a + b, c, with) =~= replace_char(a, c, with) + replace_char(
            b,
            c,
            with,
        ));
    }
    if !a.contains(c) && a.len() > 0 {
        let t = a.drop_last();
        assert(!t.contains(c)) by {
            if t.contains(c) {
                let i = choose|i: int| 0 <= i < t.len() && t[i] == c;
                assert(a[i] == c);
            }
        }
        law_character_is_replaced(t, seq![], c, with);
        assert(a.contains(a.last()));
        assert(t + seq![a.last()] =~= a);
    }
}

} // verus!
