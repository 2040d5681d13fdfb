//! Text predicates and builders over the characters of a string.

use vstd::prelude::*;
use vstd::string::*;

verus! {

/// `String::push` appends one character.
pub assume_specification[ String::push ](s: &mut String, c: char)
    ensures
        final(s)@ == old(s)@.push(c),
;

/// A character with ASCII upper case mapped to lower case.
pub open spec fn lower_char(c: char) -> char {
    if 'A' <= c && c <= 'Z' {
        (c as u32 + 32) as char
    } else {
        c
    }
}

/// A text with ASCII upper case mapped to lower case.
pub open spec fn lower(text: Seq<char>) -> Seq<char> {
    Seq::new(text.len(), |i: int| lower_char(text[i]))
}

/// Whether `needle` stands in `text` at position `at`.
pub open spec fn stands_at(text: Seq<char>, needle: Seq<char>, at: int) -> bool {
    0 <= at && at + needle.len() <= text.len() && text.subrange(at, at + needle.len()) == needle
}

/// Whether `needle` occurs somewhere in `text`.
pub open spec fn occurs(text: Seq<char>, needle: Seq<char>) -> bool {
    exists|at: int| stands_at(text, needle, at)
}

/// Whether `text` starts with `needle`.
pub open spec fn starts_in(text: Seq<char>, needle: Seq<char>) -> bool {
    stands_at(text, needle, 0)
}

/// Whether `text` ends with `needle`.
pub open spec fn ends_in(text: Seq<char>, needle: Seq<char>) -> bool {
    stands_at(text, needle, text.len() - needle.len())
}

/// Unicode's `White_Space` property.
pub open spec fn is_space(c: char) -> bool {
    let n = c as u32;
    ||| 0x09 <= n <= 0x0D
    ||| n == 0x20
    ||| n == 0x85
    ||| n == 0xA0
    ||| n == 0x1680
    ||| 0x2000 <= n <= 0x200A
    ||| n == 0x2028
    ||| n == 0x2029
    ||| n == 0x202F
    ||| n == 0x205F
    ||| n == 0x3000
}

/// Whether `text` holds nothing but white space.
pub open spec fn blank(text: Seq<char>) -> bool {
    forall|i: int| 0 <= i < text.len() ==> is_space(#[trigger] text[i])
}

/// Whether `text` neither starts nor ends with white space.
pub open spec fn unpadded(text: Seq<char>) -> bool {
    text.len() > 0 ==> !is_space(text[0]) && !is_space(text.last())
}

/// `text` without the white space at its start and end.
pub open spec fn trimmed(text: Seq<char>) -> Seq<char>
    decreases text.len(),
{
    if text.len() == 0 {
        text
    } else if is_space(text[0]) {
        trimmed(text.skip(1))
    } else if is_space(text.last()) {
        trimmed(text.drop_last())
    } else {
        text
    }
}

/// The trimmed text stands in the text between two stretches of white space.
pub proof fn lemma_trimmed_stands(text: Seq<char>) -> (bounds: (int, int))
    ensures
        0 <= bounds.0 <= bounds.1 <= text.len(),
        trimmed(text) == text.subrange(bounds.0, bounds.1),
        forall|i: int| 0 <= i < bounds.0 ==> is_space(#[trigger] text[i]),
        forall|i: int| bounds.1 <= i < text.len() ==> is_space(#[trigger] text[i]),
        bounds.0 < bounds.1 ==> !is_space(text[bounds.0]) && !is_space(text[bounds.1 - 1]),
    decreases text.len(),
{
    if text.len() > 0 && is_space(text[0]) {
        let rest = text.skip(1);
        let (from, to) = lemma_trimmed_stands(rest);
        assert(rest.subrange(from, to) =~= text.subrange(from + 1, to + 1));
        assert forall|i: int| 0 <= i < from + 1 implies is_space(#[trigger] text[i]) by {
            if i > 0 {
                assert(rest[i - 1] == text[i]);
            }
        }
        assert forall|i: int| to + 1 <= i < text.len() implies is_space(#[trigger] text[i]) by {
            assert(rest[i - 1] == text[i]);
        }
        (from + 1, to + 1)
    } else if text.len() > 0 && is_space(text.last()) {
        let rest = text.drop_last();
        let (from, to) = lemma_trimmed_stands(rest);
        assert(rest.subrange(from, to) =~= text.subrange(from, to));
        assert forall|i: int| 0 <= i < from implies is_space(#[trigger] text[i]) by {
            assert(rest[i] == text[i]);
        }
        assert forall|i: int| to <= i < text.len() implies is_space(#[trigger] text[i]) by {
            if i < rest.len() {
                assert(rest[i] == text[i]);
            }
        }
        (from, to)
    } else {
        assert(text.subrange(0, text.len() as int) =~= text);
        (0, text.len() as int)
    }
}

/// The decimal digits of `n`.
pub open spec fn decimal(n: nat) -> Seq<char>
    decreases n,
{
    if n < 10 {
        seq![digit_char(n)]
    } else {
        decimal(n / 10).push(digit_char(n % 10))
    }
}

/// The character of one decimal digit.
pub open spec fn digit_char(d: nat) -> char {
    (48 + d) as char
}

/// Whether two texts hold the same characters.
pub fn same_text(a: &str, b: &str) -> (r: bool)
    ensures
        r == (a@ == b@),
{
    a.to_owned() == b.to_owned()
}

/// The characters of a text.
pub fn characters(text: &str) -> (chars: Vec<char>)
    ensures
        chars@ == text@,
{
    let mut chars: Vec<char> = Vec::new();
    for c in it: text.chars()
        invariant
            chars@ == text@.take(it.index()),
            it.seq() == text@,
    {
        chars.push(c);
        assert(text@.take(it.index() + 1) == text@.take(it.index()).push(c));
    }
    assert(text@.take(text@.len() as int) == text@);
    chars
}

/// The text made of the characters `chars[from..to]`.
pub fn text_of(chars: &Vec<char>, from: usize, to: usize) -> (text: String)
    requires
        from <= to <= chars@.len(),
    ensures
        text@ == chars@.subrange(from as int, to as int),
{
    let mut text = String::new();
    let mut i: usize = from;
    while i < to
        invariant
            from <= i <= to <= chars@.len(),
            text@ == chars@.subrange(from as int, i as int),
        decreases to - i,
    {
        text.push(chars[i]);
        proof {
            assert(chars@.subrange(from as int, i + 1) == chars@.subrange(from as int, i as int).push(
                chars@[i as int],
            ));
        }
        i = i + 1;
    }
    text
}

/// The characters of a text in ASCII lower case.
pub fn lower_characters(text: &str) -> (chars: Vec<char>)
    ensures
        chars@ == lower(text@),
{
    let source = characters(text);
    let mut chars: Vec<char> = Vec::new();
    let mut i: usize = 0;
    while i < source.len()
        invariant
            i <= source@.len(),
            source@ == text@,
            chars@ == lower(text@).take(i as int),
        decreases source.len() - i,
    {
        let c = source[i];
        let low: char = if 'A' <= c && c <= 'Z' {
            (c as u8 + 32) as char
        } else {
            c
        };
        chars.push(low);
        proof {
            assert(lower(text@).take(i + 1) == lower(text@).take(i as int).push(lower(text@)[i as int]));
        }
        i = i + 1;
    }
    assert(lower(text@).take(source@.len() as int) == lower(text@));
    chars
}

fn matches_at(text: &Vec<char>, needle: &Vec<char>, at: usize) -> (r: bool)
    requires
        at + needle@.len() <= text@.len(),
    ensures
        r == stands_at(text@, needle@, at as int),
{
    let size = text.len();
    let mut j: usize = 0;
    while j < needle.len()
        invariant
            j <= needle@.len(),
            at + needle@.len() <= text@.len(),
            size == text@.len(),
            forall|k: int| 0 <= k < j ==> text@[at + k] == needle@[k],
        decreases needle.len() - j,
    {
        if text[at + j] != needle[j] {
            assert(text@.subrange(at as int, at + needle@.len())[j as int] != needle@[j as int]);
            return false;
        }
        j = j + 1;
    }
    assert(text@.subrange(at as int, at + needle@.len()) =~= needle@);
    true
}

/// Whether `needle` occurs somewhere in `text`.
pub fn has_text(text: &Vec<char>, needle: &str) -> (r: bool)
    ensures
        r == occurs(text@, needle@),
{
    let pattern = characters(needle);
    if pattern.len() > text.len() {
        return false;
    }
    let last: usize = text.len() - pattern.len();
    let mut at: usize = 0;
    while at < last
        invariant
            at <= last,
            pattern@ == needle@,
            last == text@.len() - pattern@.len(),
            forall|k: int| 0 <= k < at ==> !stands_at(text@, needle@, k),
        decreases last - at,
    {
        if matches_at(text, &pattern, at) {
            return true;
        }
        at = at + 1;
    }
    matches_at(text, &pattern, last)
}

/// Whether `text` starts with `needle`.
pub fn has_start(text: &Vec<char>, needle: &str) -> (r: bool)
    ensures
        r == starts_in(text@, needle@),
{
    let pattern = characters(needle);
    if pattern.len() > text.len() {
        return false;
    }
    matches_at(text, &pattern, 0)
}

/// Whether `text` ends with `needle`.
pub fn has_ending(text: &Vec<char>, needle: &str) -> (r: bool)
    ensures
        r == ends_in(text@, needle@),
{
    let pattern = characters(needle);
    if pattern.len() > text.len() {
        return false;
    }
    matches_at(text, &pattern, text.len() - pattern.len())
}

/// Whether a character is white space.
pub fn space(c: char) -> (r: bool)
    ensures
        r == is_space(c),
{
    let n = c as u32;
    (0x09 <= n && n <= 0x0D) || n == 0x20 || n == 0x85 || n == 0xA0 || n == 0x1680 || (0x2000 <= n
        && n <= 0x200A) || n == 0x2028 || n == 0x2029 || n == 0x202F || n == 0x205F || n == 0x3000
}

/// Whether a text holds nothing but white space.
pub fn is_blank(text: &str) -> (r: bool)
    ensures
        r == blank(text@),
{
    let chars = characters(text);
    let mut i: usize = 0;
    while i < chars.len()
        invariant
            i <= chars@.len(),
            chars@ == text@,
            forall|k: int| 0 <= k < i ==> is_space(#[trigger] text@[k]),
        decreases chars.len() - i,
    {
        if !space(chars[i]) {
            return false;
        }
        i = i + 1;
    }
    true
}

/// Whether a text neither starts nor ends with white space.
pub fn is_unpadded(text: &str) -> (r: bool)
    ensures
        r == unpadded(text@),
{
    let chars = characters(text);
    if chars.len() == 0 {
        true
    } else {
        !space(chars[0]) && !space(chars[chars.len() - 1])
    }
}

/// A text without the white space at its start and end.
pub fn trim(text: &str) -> (inner: String)
    ensures
        inner@ == trimmed(text@),
{
    let chars = characters(text);
    let mut from: usize = 0;
    let mut to: usize = chars.len();
    assert(chars@.subrange(0, to as int) =~= chars@);
    while from < to && space(chars[from])
        invariant
            from <= to == chars@.len(),
            trimmed(chars@.subrange(from as int, to as int)) == trimmed(chars@),
        decreases to - from,
    {
        assert(chars@.subrange(from as int, to as int).skip(1) =~= chars@.subrange(
            from + 1,
            to as int,
        ));
        from = from + 1;
    }
    while from < to && space(chars[to - 1])
        invariant
            from <= to <= chars@.len(),
            from < to ==> !is_space(chars@[from as int]),
            trimmed(chars@.subrange(from as int, to as int)) == trimmed(chars@),
        decreases to - from,
    {
        assert(chars@.subrange(from as int, to as int).drop_last() =~= chars@.subrange(
            from as int,
            to - 1,
        ));
        to = to - 1;
    }
    text_of(&chars, from, to)
}

/// Appends the decimal digits of `n`.
pub fn push_decimal(out: &mut String, n: u64)
    ensures
        final(out)@ == old(out)@ + decimal(n as nat),
    decreases n,
{
    let ghost before = out@;
    if n < 10 {
        out.push((48 + n as u8) as char);
        assert(before.push(digit_char(n as nat)) =~= before + decimal(n as nat));
    } else {
        push_decimal(out, n / 10);
        out.push((48 + (n % 10) as u8) as char);
        assert((before + decimal(n as nat / 10)).push(digit_char(n as nat % 10)) =~= before + decimal(
            n as nat,
        ));
    }
}

// ── Laws ────────────────────────────────────────────────────────────────────

/// Lowering keeps every character in its place but for the ASCII capitals, which become the small
/// letters 32 code points on.
pub proof fn law_lowering_touches_only_ascii_capitals(text: Seq<char>, i: int)
    requires
        0 <= i < text.len(),
    ensures
        lower(text).len() == text.len(),
        65 <= text[i] as u32 <= 90 ==> lower(text)[i] as u32 == text[i] as u32 + 32,
        !(65 <= text[i] as u32 <= 90) ==> lower(text)[i] == text[i],
{
}

/// A needle occurs exactly if its characters stand one after the other somewhere in the text; it
/// starts or ends the text if they stand at the text's start or end.
pub proof fn law_occurring_means_standing_somewhere(text: Seq<char>, needle: Seq<char>)
    ensures
        occurs(text, needle) <==> exists|at: int| #[trigger]
            stands_at(text, needle, at) && 0 <= at <= text.len() - needle.len() && forall|j: int|
                0 <= j < needle.len() ==> text[at + j] == #[trigger] needle[j],
        starts_in(text, needle) <==> needle.len() <= text.len() && forall|j: int|
            0 <= j < needle.len() ==> text[j] == #[trigger] needle[j],
        ends_in(text, needle) <==> needle.len() <= text.len() && forall|j: int|
            0 <= j < needle.len() ==> text[text.len() - needle.len() + j] == #[trigger] needle[j],
{
    lemma_standing(text, needle, 0);
    lemma_standing(text, needle, text.len() - needle.len());
    assert forall|at: int| #[trigger] stands_at(text, needle, at) implies 0 <= at <= text.len()
        - needle.len() && forall|j: int|
        0 <= j < needle.len() ==> text[at + j] == #[trigger] needle[j] by {
        lemma_standing(text, needle, at);
    }
}

proof fn lemma_standing(text: Seq<char>, needle: Seq<char>, at: int)
    ensures
        stands_at(text, needle, at) <==> 0 <= at <= text.len() - needle.len() && forall|j: int|
            0 <= j < needle.len() ==> text[at + j] == #[trigger] needle[j],
{
    if 0 <= at && at + needle.len() <= text.len() {
        let part = text.subrange(at, at + needle.len());
        assert(forall|j: int| 0 <= j < needle.len() ==> part[j] == #[trigger] text[at + j]);
        if stands_at(text, needle, at) {
            assert forall|j: int| 0 <= j < needle.len() implies text[at + j] == #[trigger] needle[j] by {
                assert(part[j] == needle[j]);
            }
        } else if forall|j: int| 0 <= j < needle.len() ==> text[at + j] == #[trigger] needle[j] {
            assert(part =~= needle);
        }
    }
}

/// The number that decimal digits write.
pub open spec fn number_of(digits: Seq<char>) -> int
    decreases digits.len(),
{
    if digits.len() == 0 {
        0
    } else {
        10 * number_of(digits.drop_last()) + (digits.last() as int - 48)
    }
}

/// The digits of a number write that number, each between zero and nine, without a leading zero.
pub proof fn law_decimals_read_back(n: nat)
    ensures
        number_of(decimal(n)) == n,
        decimal(n).len() > 0,
        n > 0 ==> decimal(n)[0] != '0',
        n == 0 ==> decimal(n).len() == 1,
        forall|i: int| 0 <= i < decimal(n).len() ==> '0' <= #[trigger] decimal(n)[i] <= '9',
    decreases n,
{
    if n >= 10 {
        law_decimals_read_back(n / 10);
        assert(decimal(n).drop_last() =~= decimal(n / 10));
        assert(decimal(n).last() == digit_char(n % 10));
        assert(decimal(n)[0] == decimal(n / 10)[0]);
        assert forall|i: int| 0 <= i < decimal(n).len() implies '0' <= #[trigger] decimal(n)[i]
            <= '9' by {
            if i < decimal(n / 10).len() {
                assert(decimal(n)[i] == decimal(n / 10)[i]);
            }
        }
    } else {
        assert(decimal(n).drop_last() =~= Seq::<char>::empty());
        reveal_with_fuel(number_of, 2);
    }
}

/// White space is what Unicode calls so: the controls from tab to carriage return, the space, the
/// next-line control, and the other spaces and separators.
pub proof fn law_white_space(c: char)
    ensures
        is_space(c) <==> {
            let n = c as u32;
            ||| n == 9 || n == 10 || n == 11 || n == 12 || n == 13 || n == 32
            ||| n == 133 || n == 160 || n == 5760
            ||| 8192 <= n <= 8202
            ||| n == 8232 || n == 8233 || n == 8239 || n == 8287 || n == 12288
        },
{
}

/// A text is blank exactly if trimming leaves nothing of it, and unpadded exactly if trimming
/// leaves all of it.
pub proof fn law_trimming_tells_blank_and_unpadded(text: Seq<char>)
    ensures
        blank(text) <==> trimmed(text).len() == 0,
        unpadded(text) <==> trimmed(text) == text,
{
    let (from, to) = lemma_trimmed_stands(text);
    if blank(text) {
        if from < to {
            assert(is_space(text[from]));
        }
    }
    if trimmed(text).len() == 0 {
        assert forall|i: int| 0 <= i < text.len() implies is_space(#[trigger] text[i]) by {}
    }
    if unpadded(text) && text.len() > 0 {
        assert(trimmed(text) == text);
    }
    if trimmed(text) == text && text.len() > 0 {
        assert(from == 0 && to == text.len());
    }
}

} // verus!
