//! Text as sequences of characters.
use vstd::prelude::*;

verus! {

/// `std::string::String::push` appends one character.
pub assume_specification[ String::push ](s: &mut String, c: char)
    ensures
        final(s)@ == old(s)@.push(c),
;

/// What `char::is_alphanumeric` says of a character.
pub uninterp spec fn alphanumeric(c: char) -> bool;

/// `char::is_alphanumeric`: whether the character is a letter or a numeric
/// character of Unicode. The answer is named, not spelled out: the tables are
/// std's.
pub assume_specification[ char::is_alphanumeric ](c: char) -> (r: bool)
    ensures
        r == alphanumeric(c),
;

/// What `char::to_lowercase` yields for a character.
pub uninterp spec fn lowercase(c: char) -> Seq<char>;

/// `char::to_lowercase`: the lowercase mapping of a character, which may be
/// several characters. The mapping is named, not spelled out: the tables are
/// std's.
#[verifier::external_body]
fn lowercase_chars(c: char) -> (r: Vec<char>)
    ensures
        r@ == lowercase(c),
{
    c.to_lowercase().collect()
}

/// What `str::to_lowercase` makes of a text.
pub uninterp spec fn lowercased(s: Seq<char>) -> Seq<char>;

/// `str::to_lowercase`: the lowercase equivalent of a whole text. The mapping
/// is named, not spelled out: the tables, and the rule for a final sigma, are
/// std's.
#[verifier::external_body]
pub(crate) fn lowercase_text(s: &str) -> (r: String)
    ensures
        r@ == lowercased(s@),
{
    s.to_lowercase()
}

/// The characters of a string.
pub fn chars_of(s: &str) -> (out: Vec<char>)
    ensures
        out@ == s@,
{
    broadcast use vstd::string::axiom_spec_iter;

    let mut out: Vec<char> = Vec::new();
    for c in it: s.chars()
        invariant
            out@ == it.seq().take(it.index() as int),
            it.seq() == s@,
    {
        assert(it.seq().take(it.index() as int + 1) =~= it.seq().take(it.index() as int).push(c));
        out.push(c);
    }
    assert(out@ =~= s@);
    out
}

/// The string of the given characters.
pub fn string_of(cs: &[char]) -> (s: String)
    ensures
        s@ == cs@,
{
    let mut s: String = String::new();
    let mut i: usize = 0;
    assert(s@ =~= cs@.take(0));
    while i < cs.len()
        invariant
            i <= cs.len(),
            s@ == cs@.take(i as int),
        decreases cs.len() - i,
    {
        s.push(cs[i]);
        assert(cs@.take(i + 1) =~= cs@.take(i as int).push(cs[i as int]));
        i = i + 1;
    }
    assert(cs@.take(i as int) =~= cs@);
    s
}

/// The Unicode property `White_Space`.
pub open spec fn is_space(c: char) -> bool {
    let n = c as u32;
    (0x9 <= n <= 0xd) || n == 0x20 || n == 0x85 || n == 0xa0 || n == 0x1680 || (0x2000 <= n
        <= 0x200a) || n == 0x2028 || n == 0x2029 || n == 0x202f || n == 0x205f || n == 0x3000
}

pub fn is_white_space(c: char) -> (r: bool)
    ensures
        r == is_space(c),
{
    let n: u32 = c as u32;
    (0x9 <= n && n <= 0xd) || n == 0x20 || n == 0x85 || n == 0xa0 || n == 0x1680 || (0x2000 <= n
        && n <= 0x200a) || n == 0x2028 || n == 0x2029 || n == 0x202f || n == 0x205f || n == 0x3000
}

/// Without leading white space.
pub open spec fn trimmed_start(s: Seq<char>) -> Seq<char>
    decreases s.len(),
{
    if s.len() > 0 && is_space(s[0]) {
        trimmed_start(s.drop_first())
    } else {
        s
    }
}

/// Without trailing white space.
pub open spec fn trimmed_end(s: Seq<char>) -> Seq<char>
    decreases s.len(),
{
    if s.len() > 0 && is_space(s.last()) {
        trimmed_end(s.drop_last())
    } else {
        s
    }
}

/// Without leading and trailing white space.
pub open spec fn trimmed(s: Seq<char>) -> Seq<char> {
    trimmed_end(trimmed_start(s))
}

pub fn trim(s: &[char]) -> (out: &[char])
    ensures
        out@ == trimmed(s@),
        out.len() <= s.len(),
{
    let mut lo: usize = 0;
    let mut hi: usize = s.len();
    assert(s@.subrange(0, hi as int) =~= s@);
    while lo < hi && is_white_space(s[lo])
        invariant
            lo <= hi == s.len(),
            trimmed_start(s@) == trimmed_start(s@.subrange(lo as int, hi as int)),
        decreases hi - lo,
    {
        assert(s@.subrange(lo as int, hi as int).drop_first() =~= s@.subrange(lo + 1, hi as int));
        lo = lo + 1;
    }
    assert(trimmed_start(s@) == s@.subrange(lo as int, hi as int));
    while lo < hi && is_white_space(s[hi - 1])
        invariant
            lo <= hi <= s.len(),
            trimmed(s@) == trimmed_end(s@.subrange(lo as int, hi as int)),
        decreases hi - lo,
    {
        assert(s@.subrange(lo as int, hi as int).drop_last() =~= s@.subrange(lo as int, hi - 1));
        hi = hi - 1;
    }
    &s[lo..hi]
}

pub proof fn lemma_trimmed_len(s: Seq<char>)
    ensures
        trimmed(s).len() <= s.len(),
{
    lemma_trimmed_start_len(s);
    lemma_trimmed_end_len(trimmed_start(s));
}

proof fn lemma_trimmed_start_len(s: Seq<char>)
    ensures
        trimmed_start(s).len() <= s.len(),
    decreases s.len(),
{
    if s.len() > 0 && is_space(s[0]) {
        lemma_trimmed_start_len(s.drop_first());
    }
}

proof fn lemma_trimmed_end_len(s: Seq<char>)
    ensures
        trimmed_end(s).len() <= s.len(),
    decreases s.len(),
{
    if s.len() > 0 && is_space(s.last()) {
        lemma_trimmed_end_len(s.drop_last());
    }
}

/// The ASCII lowercase of a character; others stay.
pub open spec fn ascii_lower(c: char) -> char {
    if 'A' <= c <= 'Z' {
        ((c as u8 + 32) as u8) as char
    } else {
        c
    }
}

pub fn to_ascii_lower(c: char) -> (r: char)
    ensures
        r == ascii_lower(c),
{
    if 'A' <= c && c <= 'Z' {
        let b: u8 = c as u8;
        (b + 32) as char
    } else {
        c
    }
}

/// A letter is lowered to the one 32 further on; everything else stays.
pub proof fn lemma_lower_letter(c: char, t: char)
    requires
        !('A' <= t <= 'Z'),
    ensures
        ascii_lower(c) == t <==> c == t || ('a' <= t <= 'z' && c as int == t as int - 32),
{
    if 'A' <= c <= 'Z' {
        assert(ascii_lower(c) as int == c as int + 32);
    }
}

/// ASCII lowercase of every character.
pub open spec fn lowered(s: Seq<char>) -> Seq<char> {
    s.map_values(|c: char| ascii_lower(c))
}

pub fn lower_all(s: &[char]) -> (out: Vec<char>)
    ensures
        out@ == lowered(s@),
{
    let mut out: Vec<char> = Vec::new();
    let mut i: usize = 0;
    while i < s.len()
        invariant
            i <= s.len(),
            out.len() == i,
            forall|k: int| 0 <= k < i ==> #[trigger] out[k] == ascii_lower(s[k]),
        decreases s.len() - i,
    {
        out.push(to_ascii_lower(s[i]));
        i = i + 1;
    }
    assert(out@ =~= lowered(s@));
    out
}

/// `part` stands at position `at` of `s`.
pub open spec fn occurs_at(s: Seq<char>, part: Seq<char>, at: int) -> bool {
    0 <= at && at + part.len() <= s.len() && s.subrange(at, at + part.len()) == part
}

pub open spec fn starts_with(s: Seq<char>, part: Seq<char>) -> bool {
    occurs_at(s, part, 0)
}

pub open spec fn ends_with(s: Seq<char>, part: Seq<char>) -> bool {
    occurs_at(s, part, s.len() - part.len())
}

/// `part` stands somewhere in `s`.
pub open spec fn has_part(s: Seq<char>, part: Seq<char>) -> bool {
    exists|at: int| #[trigger] occurs_at(s, part, at)
}

pub fn is_at(s: &[char], part: &[char], at: usize) -> (r: bool)
    ensures
        r == occurs_at(s@, part@, at as int),
{
    if at > s.len() || part.len() > s.len() - at {
        return false;
    }
    let mut i: usize = 0;
    while i < part.len()
        invariant
            i <= part.len(),
            at + part.len() <= s.len(),
            forall|k: int| 0 <= k < i ==> s[at + k] == #[trigger] part[k],
        decreases part.len() - i,
    {
        if s[at + i] != part[i] {
            assert(s@.subrange(at as int, at + part.len())[i as int] != part@[i as int]);
            return false;
        }
        i = i + 1;
    }
    assert(s@.subrange(at as int, at + part.len()) =~= part@);
    true
}

pub fn is_prefix(s: &[char], part: &[char]) -> (r: bool)
    ensures
        r == starts_with(s@, part@),
{
    is_at(s, part, 0)
}

pub fn is_suffix(s: &[char], part: &[char]) -> (r: bool)
    ensures
        r == ends_with(s@, part@),
{
    if part.len() > s.len() {
        return false;
    }
    is_at(s, part, s.len() - part.len())
}

pub fn is_part(s: &[char], part: &[char]) -> (r: bool)
    ensures
        r == has_part(s@, part@),
{
    let mut at: usize = 0;
    while at < s.len()
        invariant
            at <= s.len(),
            forall|k: int| 0 <= k < at ==> !#[trigger] occurs_at(s@, part@, k),
        decreases s.len() - at,
    {
        if is_at(s, part, at) {
            return true;
        }
        at = at + 1;
    }
    is_at(s, part, at)
}

/// The letters and digits of a text, in lowercase: the key by which titles
/// and artists are compared.
pub open spec fn key_of(s: Seq<char>) -> Seq<char>
    decreases s.len(),
{
    if s.len() == 0 {
        Seq::empty()
    } else {
        key_of(s.drop_last()) + if alphanumeric(s.last()) {
            lowercase(s.last())
        } else {
            Seq::empty()
        }
    }
}

/// The key of a text as characters.
pub fn key_chars(value: &str) -> (key: Vec<char>)
    ensures
        key@ == key_of(value@),
{
    let cs: Vec<char> = chars_of(value);
    let mut key: Vec<char> = Vec::new();
    let mut i: usize = 0;
    assert(cs@.take(0) =~= Seq::<char>::empty());
    while i < cs.len()
        invariant
            i <= cs.len(),
            key@ == key_of(cs@.take(i as int)),
        decreases cs.len() - i,
    {
        let c: char = cs[i];
        assert(cs@.take(i + 1).drop_last() =~= cs@.take(i as int));
        if c.is_alphanumeric() {
            let mut lower: Vec<char> = lowercase_chars(c);
            key.append(&mut lower);
        }
        assert(key@ =~= key_of(cs@.take(i + 1)));
        i = i + 1;
    }
    assert(cs@.take(i as int) =~= cs@);
    key
}

/// The value of a sequence of decimal digits.
pub open spec fn digits_value(s: Seq<char>) -> nat
    decreases s.len(),
{
    if s.len() == 0 {
        0
    } else {
        digits_value(s.drop_last()) * 10 + (s.last() as nat - 48) as nat
    }
}

pub open spec fn all_digits(s: Seq<char>) -> bool {
    forall|i: int| 0 <= i < s.len() ==> '0' <= #[trigger] s[i] <= '9'
}

/// A number as `str::parse` reads it for unsigned integers: an optional plus
/// sign and at least one digit, at most `max`.
pub open spec fn parsed_number(s: Seq<char>, max: nat) -> Option<nat> {
    let digits = if s.len() > 0 && s[0] == '+' {
        s.drop_first()
    } else {
        s
    };
    if digits.len() > 0 && all_digits(digits) && digits_value(digits) <= max {
        Some(digits_value(digits))
    } else {
        None
    }
}

proof fn lemma_digits_monotone(s: Seq<char>, i: int)
    requires
        0 <= i <= s.len(),
    ensures
        digits_value(s.take(i)) <= digits_value(s),
    decreases s.len() - i,
{
    if i < s.len() {
        assert(s.take(i + 1).drop_last() =~= s.take(i));
        lemma_digits_monotone(s, i + 1);
    } else {
        assert(s.take(i) =~= s);
    }
}

/// Read an unsigned decimal number of at most `max`.
pub fn parse_number(s: &[char], max: u64) -> (r: Option<u64>)
    ensures
        match r {
            Some(v) => parsed_number(s@, max as nat) == Some(v as nat),
            None => parsed_number(s@, max as nat) is None,
        },
{
    let start: usize = if s.len() > 0 && s[0] == '+' {
        1
    } else {
        0
    };
    let ghost digits = if s.len() > 0 && s[0] == '+' {
        s@.drop_first()
    } else {
        s@
    };
    assert(digits =~= s@.subrange(start as int, s.len() as int));
    if start == s.len() {
        return None;
    }
    let mut v: u128 = 0;
    let mut i: usize = start;
    assert(digits.take(0) =~= Seq::<char>::empty());
    while i < s.len()
        invariant
            start <= i <= s.len(),
            digits == s@.subrange(start as int, s.len() as int),
            digits == if s.len() > 0 && s[0] == '+' {
                s@.drop_first()
            } else {
                s@
            },
            digits.len() > 0,
            forall|k: int| 0 <= k < i - start ==> '0' <= #[trigger] digits[k] <= '9',
            v == digits_value(digits.take(i - start)),
            v <= max,
        decreases s.len() - i,
    {
        let c: char = s[i];
        assert(c == digits[i - start]);
        if c < '0' || c > '9' {
            return None;
        }
        let d: u128 = (c as u32 - 48) as u128;
        let next: u128 = v * 10 + d;
        proof {
            assert(digits.take(i - start + 1).drop_last() =~= digits.take(i - start));
            assert(next == digits_value(digits.take(i - start + 1)));
            lemma_digits_monotone(digits, i - start + 1);
        }
        if next > max as u128 {
            return None;
        }
        v = next;
        i = i + 1;
    }
    assert(digits.take(i - start) =~= digits);
    Some(v as u64)
}

/// The pieces of a text between separators.
pub open spec fn pieces(s: Seq<char>, sep: char) -> Seq<Seq<char>>
    decreases s.len(),
{
    if s.len() == 0 {
        seq![Seq::empty()]
    } else {
        let rest = pieces(s.drop_last(), sep);
        if s.last() == sep {
            rest.push(Seq::empty())
        } else {
            rest.drop_last().push(rest.last().push(s.last()))
        }
    }
}

/// The texts of a vector of texts.
pub open spec fn texts(v: Seq<Vec<char>>) -> Seq<Seq<char>> {
    v.map_values(|t: Vec<char>| t@)
}

/// Splits a text at every separator.
pub fn split_text(s: &[char], sep: char) -> (out: Vec<Vec<char>>)
    ensures
        texts(out@) == pieces(s@, sep),
{
    let mut out: Vec<Vec<char>> = Vec::new();
    let mut current: Vec<char> = Vec::new();
    let mut i: usize = 0;
    assert(s@.take(0) =~= Seq::<char>::empty());
    assert(texts(out@).push(current@) =~= pieces(s@.take(0), sep)) by {
        assert(current@ =~= Seq::<char>::empty());
    }
    while i < s.len()
        invariant
            i <= s.len(),
            texts(out@).push(current@) == pieces(s@.take(i as int), sep),
        decreases s.len() - i,
    {
        let c: char = s[i];
        let ghost before = texts(out@).push(current@);
        proof {
            assert(s@.take(i + 1).drop_last() =~= s@.take(i as int));
            assert(before.drop_last() =~= texts(out@));
        }
        if c == sep {
            out.push(current);
            current = Vec::new();
            assert(texts(out@) =~= before);
            assert(current@ =~= Seq::<char>::empty());
        } else {
            current.push(c);
        }
        i = i + 1;
        assert(texts(out@).push(current@) =~= pieces(s@.take(i as int), sep));
    }
    assert(s@.take(i as int) =~= s@);
    let ghost all = texts(out@).push(current@);
    out.push(current);
    assert(texts(out@) =~= all);
    out
}

/// Position of the last dot of a file name that starts an extension; a
/// leading dot does not.
pub open spec fn is_extension_dot(name: Seq<char>, at: int) -> bool {
    &&& 0 < at < name.len()
    &&& name[at] == '.'
    &&& forall|k: int| at < k < name.len() ==> #[trigger] name[k] != '.'
}

/// The extension of a file name: what stands behind its last dot, unless
/// that dot is the first character. A name `..` has none.
pub fn extension(name: &[char]) -> (ext: Option<Vec<char>>)
    ensures
        match ext {
            Some(e) => name@ != ".."@ && exists|at: int| #[trigger]
                is_extension_dot(name@, at) && e@ == name@.skip(at + 1),
            None => name@ == ".."@ || forall|at: int| !#[trigger] is_extension_dot(name@, at),
        },
{
    proof {
        reveal_strlit("..");
    }
    if name.len() == 2 && name[0] == '.' && name[1] == '.' {
        assert(name@ =~= ".."@);
        return None;
    }
    let mut at: usize = name.len();
    while at > 1
        invariant
            at <= name.len(),
            name@ != ".."@,
            forall|k: int| at <= k < name.len() ==> #[trigger] name[k] != '.',
        decreases at,
    {
        at = at - 1;
        if name[at] == '.' {
            let mut ext: Vec<char> = Vec::new();
            let mut k: usize = at + 1;
            while k < name.len()
                invariant
                    at < k <= name.len(),
                    ext@ == name@.subrange(at + 1, k as int),
                decreases name.len() - k,
            {
                ext.push(name[k]);
                k = k + 1;
                assert(ext@ =~= name@.subrange(at + 1, k as int));
            }
            assert(is_extension_dot(name@, at as int));
            assert(ext@ =~= name@.skip(at + 1));
            return Some(ext);
        }
    }
    None
}

/// `a` comes before `b` in the order of texts: by the first character that
/// differs, a part of a text before the whole.
pub open spec fn text_less(a: Seq<char>, b: Seq<char>) -> bool
    decreases a.len(),
{
    if b.len() == 0 {
        false
    } else if a.len() == 0 {
        true
    } else if a[0] != b[0] {
        a[0] < b[0]
    } else {
        text_less(a.drop_first(), b.drop_first())
    }
}

/// Of two different texts one comes before the other.
pub proof fn lemma_text_order(a: Seq<char>, b: Seq<char>)
    ensures
        !text_less(a, a),
        text_less(a, b) || text_less(b, a) || a == b,
        !(text_less(a, b) && text_less(b, a)),
    decreases a.len(),
{
    if a.len() > 0 {
        lemma_text_order(a.drop_first(), a.drop_first());
        if b.len() > 0 {
            lemma_text_order(a.drop_first(), b.drop_first());
            if a.drop_first() == b.drop_first() && a[0] == b[0] {
                assert(a =~= seq![a[0]] + a.drop_first());
                assert(b =~= seq![b[0]] + b.drop_first());
            }
        }
    } else if b.len() == 0 {
        assert(a =~= b);
    }
}

/// The order of texts is transitive.
pub proof fn lemma_text_transitive(a: Seq<char>, b: Seq<char>, c: Seq<char>)
    requires
        text_less(a, b),
        text_less(b, c),
    ensures
        text_less(a, c),
    decreases a.len(),
{
    if a.len() > 0 && a[0] == b[0] && b[0] == c[0] {
        lemma_text_transitive(a.drop_first(), b.drop_first(), c.drop_first());
    }
}

/// Compares two texts.
pub fn is_text_less(a: &[char], b: &[char]) -> (r: bool)
    ensures
        r == text_less(a@, b@),
{
    let mut i: usize = 0;
    assert(a@.skip(0) =~= a@);
    assert(b@.skip(0) =~= b@);
    while i < a.len() && i < b.len() && a[i] == b[i]
        invariant
            i <= a.len(),
            i <= b.len(),
            text_less(a@, b@) == text_less(a@.skip(i as int), b@.skip(i as int)),
        decreases a.len() - i,
    {
        assert(a@.skip(i as int).drop_first() =~= a@.skip(i + 1));
        assert(b@.skip(i as int).drop_first() =~= b@.skip(i + 1));
        i = i + 1;
    }
    if i >= b.len() {
        false
    } else if i >= a.len() {
        true
    } else {
        a[i] < b[i]
    }
}

/// The lowercase hexadecimal digit of a number below 16.
pub open spec fn hex_digit(d: int) -> char {
    if d < 10 {
        (48 + d) as char
    } else {
        (87 + d) as char
    }
}

/// The bytes in lowercase hexadecimal, two digits each.
pub open spec fn hex(bytes: Seq<u8>) -> Seq<char>
    decreases bytes.len(),
{
    if bytes.len() == 0 {
        Seq::empty()
    } else {
        hex(bytes.drop_last()).push(hex_digit(bytes.last() as int / 16)).push(
            hex_digit(bytes.last() as int % 16),
        )
    }
}

fn hex_char(d: u8) -> (c: char)
    requires
        d < 16,
    ensures
        c == hex_digit(d as int),
{
    let code: u8 = if d < 10 {
        48 + d
    } else {
        87 + d
    };
    code as char
}

/// The bytes in lowercase hexadecimal.
pub fn to_hex(bytes: &[u8]) -> (s: String)
    ensures
        s@ == hex(bytes@),
{
    let mut cs: Vec<char> = Vec::new();
    let mut i: usize = 0;
    assert(bytes@.take(0) =~= Seq::<u8>::empty());
    while i < bytes.len()
        invariant
            i <= bytes.len(),
            cs@ == hex(bytes@.take(i as int)),
        decreases bytes.len() - i,
    {
        assert(bytes@.take(i + 1).drop_last() =~= bytes@.take(i as int));
        cs.push(hex_char(bytes[i] / 16));
        cs.push(hex_char(bytes[i] % 16));
        i = i + 1;
    }
    assert(bytes@.take(i as int) =~= bytes@);
    string_of(&cs)
}

// ---- laws ----

/// White space, by code point.
pub open spec fn blank(c: char) -> bool {
    let n = c as int;
    n == 0x9 || n == 0xa || n == 0xb || n == 0xc || n == 0xd || n == 0x20 || n == 0x85 || n == 0xa0
        || n == 0x1680 || 0x2000 <= n <= 0x200a || n == 0x2028 || n == 0x2029 || n == 0x202f || n
        == 0x205f || n == 0x3000
}

proof fn lemma_blank(c: char)
    ensures
        is_space(c) == blank(c),
{
}

pub open spec fn all_blank(s: Seq<char>) -> bool {
    forall|i: int| 0 <= i < s.len() ==> blank(#[trigger] s[i])
}

/// Trimming takes the white space from both ends of a text and leaves what
/// stands between.
pub proof fn law_trimming_takes_white_space_from_both_ends(
    lead: Seq<char>,
    text: Seq<char>,
    tail: Seq<char>,
)
    requires
        all_blank(lead),
        all_blank(tail),
        text.len() > 0 ==> !blank(text[0]) && !blank(text.last()),
    ensures
        trimmed(lead + text + tail) == text,
{
    let all = lead + text + tail;
    lemma_start_skips(lead, text + tail);
    assert(all =~= lead + (text + tail));
    if text.len() == 0 {
        lemma_start_skips(tail, text);
        assert(text + tail =~= tail + text);
    } else {
        assert((text + tail)[0] == text[0]);
        lemma_blank(text[0]);
        lemma_end_skips(text, tail);
        assert(trimmed_start(text + tail) == text + tail);
    }
}

proof fn lemma_start_skips(lead: Seq<char>, rest: Seq<char>)
    requires
        all_blank(lead),
    ensures
        trimmed_start(lead + rest) == trimmed_start(rest),
        rest.len() == 0 ==> trimmed_end(trimmed_start(lead + rest)) == rest,
    decreases lead.len(),
{
    if lead.len() > 0 {
        assert(is_space(lead[0])) by {
            assert(blank(lead[0]));
        }
        assert(all_blank(lead.drop_first())) by {
            assert forall|i: int| 0 <= i < lead.drop_first().len() implies blank(
                #[trigger] lead.drop_first()[i],
            ) by {
                assert(blank(lead[i + 1]));
            }
        }
        assert((lead + rest)[0] == lead[0]);
        assert((lead + rest).drop_first() =~= lead.drop_first() + rest);
        lemma_start_skips(lead.drop_first(), rest);
    } else {
        assert(lead + rest =~= rest);
    }
}

proof fn lemma_end_skips(text: Seq<char>, tail: Seq<char>)
    requires
        all_blank(tail),
        text.len() > 0,
        !blank(text.last()),
    ensures
        trimmed_end(text + tail) == text,
    decreases tail.len(),
{
    if tail.len() > 0 {
        assert(is_space(tail.last())) by {
            assert(blank(tail[tail.len() - 1]));
        }
        assert(all_blank(tail.drop_last())) by {
            assert forall|i: int| 0 <= i < tail.drop_last().len() implies blank(
                #[trigger] tail.drop_last()[i],
            ) by {
                assert(blank(tail[i]));
            }
        }
        assert((text + tail).last() == tail.last());
        assert((text + tail).drop_last() =~= text + tail.drop_last());
        lemma_end_skips(text, tail.drop_last());
    } else {
        lemma_blank(text.last());
        assert(text + tail =~= text);
        assert(trimmed_end(text) == text);
    }
}

/// A part starts, ends or stands in a text exactly if the text is the part
/// with something behind it, before it, or around it.
pub proof fn law_parts_are_cut_out(a: Seq<char>, part: Seq<char>, b: Seq<char>, s: Seq<char>)
    ensures
        starts_with(part + b, part),
        starts_with(s, part) ==> s == part + s.skip(part.len() as int),
        ends_with(a + part, part),
        ends_with(s, part) ==> s == s.take(s.len() - part.len()) + part,
        has_part(a + part + b, part),
        has_part(s, part) ==> exists|x: Seq<char>, y: Seq<char>| s == #[trigger] ((x + part) + y),
{
    assert((part + b).subrange(0, part.len() as int) =~= part);
    assert((a + part).subrange(a.len() as int, (a.len() + part.len()) as int) =~= part);
    assert((a + part + b).subrange(a.len() as int, (a.len() + part.len()) as int) =~= part);
    assert(occurs_at(a + part + b, part, a.len() as int));
    if starts_with(s, part) {
        assert(s =~= s.subrange(0, part.len() as int) + s.skip(part.len() as int));
    }
    if ends_with(s, part) {
        let k = s.len() - part.len();
        assert(s =~= s.take(k) + s.subrange(k, s.len() as int));
    }
    if has_part(s, part) {
        let at = choose|at: int| #[trigger] occurs_at(s, part, at);
        let (x, y) = (s.take(at), s.skip(at + part.len()));
        assert(s =~= (x + s.subrange(at, at + part.len())) + y);
        assert(s == (x + part) + y);
    }
}

/// ASCII lowercase goes character by character: capitals become the letters
/// 32 further on, and nothing else changes.
pub proof fn law_lowercase_is_by_character(s: Seq<char>)
    ensures
        lowered(s).len() == s.len(),
        forall|i: int|
            0 <= i < s.len() ==> (#[trigger] lowered(s)[i]) as int == s[i] as int + if 65
                <= s[i] as int <= 90 {
                32int
            } else {
                0
            },
{
}

/// A key drops what is neither letter nor digit and lowers the rest,
/// character by character.
pub proof fn law_keys_are_by_character(s: Seq<char>, c: char)
    ensures
        key_of(Seq::<char>::empty()).len() == 0,
        alphanumeric(c) ==> key_of(s.push(c)) == key_of(s) + lowercase(c),
        !alphanumeric(c) ==> key_of(s.push(c)) == key_of(s),
{
    assert(s.push(c).drop_last() =~= s);
    assert(key_of(s) + Seq::<char>::empty() =~= key_of(s));
}

/// A number is read digit by digit: one digit reads as its value, and a
/// further digit makes ten times the number before it and that digit. What
/// holds anything else than digits, or nothing, or a number over the bound,
/// does not read; a single plus sign in front is skipped.
pub proof fn law_numbers_are_read_digit_by_digit(s: Seq<char>, c: char, max: nat)
    ensures
        parsed_number(Seq::<char>::empty(), max) is None,
        parsed_number(seq!['+'], max) is None,
        48 <= c as int <= 57 && c as int - 48 <= max ==> parsed_number(seq![c], max) == Some(
            (c as int - 48) as nat,
        ),
        !(48 <= c as int <= 57) && s.len() > 0 ==> parsed_number(s.push(c), max) is None,
        parsed_number(s, max) matches Some(v) ==> {
            &&& v <= max
            &&& 48 <= c as int <= 57 && 10 * v + (c as int - 48) <= max ==> parsed_number(
                s.push(c),
                max,
            ) == Some((10 * v + (c as int - 48)) as nat)
            &&& 48 <= c as int <= 57 && 10 * v + (c as int - 48) > max ==> parsed_number(
                s.push(c),
                max,
            ) is None
            &&& s[0] != '+' ==> parsed_number(seq!['+'] + s, max) == Some(v)
            &&& s[0] == '+' ==> parsed_number(seq!['+'] + s, max) is None
        },
        s.len() > 0 && parsed_number(s, max) is None && s != seq!['+'] ==> parsed_number(
            s.push(c),
            max,
        ) is None,
{
    let t = s.push(c);
    let d = if s.len() > 0 && s[0] == '+' {
        s.drop_first()
    } else {
        s
    };
    let one = seq![c];
    assert(one.drop_last() =~= Seq::<char>::empty());
    assert(digits_value(Seq::<char>::empty()) == 0);
    if c != '+' {
        assert(digits_value(one) == (c as nat - 48) as nat);
        assert(one[0] == c);
    }
    if s.len() > 0 {
        assert(t[0] == s[0]);
        if s[0] == '+' {
            assert(t.drop_first() =~= d.push(c));
        }
        let e = d.push(c);
        assert(e.drop_last() =~= d);
        assert(e.last() == c);
        assert(all_digits(e) ==> all_digits(d)) by {
            if all_digits(e) {
                assert forall|i: int| 0 <= i < d.len() implies '0' <= #[trigger] d[i] <= '9' by {
                    assert(e[i] == d[i]);
                }
            }
        }
        assert(all_digits(e) ==> '0' <= c <= '9') by {
            assert(e[d.len() as int] == c);
        }
        assert(digits_value(e) >= digits_value(d));
        if d.len() == 0 {
            assert(s =~= seq!['+']);
        }
        let plus = seq!['+'] + s;
        assert(plus.drop_first() =~= s);
        if s[0] == '+' && all_digits(s) {
            assert('0' <= s[0]);
        }
    }
    assert(seq!['+'].drop_first() =~= Seq::<char>::empty());
}

/// The pieces between separators: putting a separator between any two gives
/// the text back, and no piece holds one.
pub proof fn law_pieces_rejoin(s: Seq<char>, sep: char)
    ensures
        pieces(s, sep).len() >= 1,
        rejoined(pieces(s, sep), sep) == s,
        forall|i: int|
            0 <= i < pieces(s, sep).len() ==> !(#[trigger] pieces(s, sep)[i]).contains(sep),
    decreases s.len(),
{
    let all = pieces(s, sep);
    if s.len() == 0 {
        assert(all.drop_last() =~= Seq::<Seq<char>>::empty());
        assert(rejoined(all, sep) =~= s);
    } else {
        let rest = pieces(s.drop_last(), sep);
        law_pieces_rejoin(s.drop_last(), sep);
        if s.last() == sep {
            assert(all.drop_last() =~= rest);
            assert(rejoined(all, sep) =~= s);
        } else {
            assert(all.drop_last() =~= rest.drop_last());
            assert(rejoined(all, sep) =~= rejoined(rest, sep).push(s.last()));
            assert(rejoined(all, sep) =~= s);
            let (p, q) = (rest.last(), all.last());
            assert(!q.contains(sep)) by {
                if q.contains(sep) {
                    let k = q.index_of(sep);
                    assert(p[k] == sep);
                    assert(rest[rest.len() - 1].contains(sep));
                }
            }
        }
        assert forall|i: int| 0 <= i < all.len() implies !(#[trigger] all[i]).contains(sep) by {
            if i < all.len() - 1 {
                assert(all[i] == rest[i]);
            }
        }
    }
}

/// The pieces with a separator between any two.
pub open spec fn rejoined(parts: Seq<Seq<char>>, sep: char) -> Seq<char>
    decreases parts.len(),
{
    if parts.len() <= 1 {
        if parts.len() == 0 {
            Seq::empty()
        } else {
            parts[0]
        }
    } else {
        rejoined(parts.drop_last(), sep).push(sep) + parts.last()
    }
}

/// Texts are ordered by the first character in which they differ, and a text
/// stands before every longer one that starts with it.
pub proof fn law_texts_are_ordered_by_first_difference(
    start: Seq<char>,
    a: Seq<char>,
    b: Seq<char>,
)
    ensures
        b.len() > 0 ==> text_less(start, start + b),
        !text_less(start + b, start),
        a.len() > 0 && b.len() > 0 && a[0] != b[0] ==> (text_less(start + a, start + b) <==> (
        a[0] as int) < (b[0] as int)),
    decreases start.len(),
{
    if start.len() > 0 {
        let rest = start.drop_first();
        law_texts_are_ordered_by_first_difference(rest, a, b);
        assert((start + a).drop_first() =~= rest + a);
        assert((start + b).drop_first() =~= rest + b);
        assert((start + a)[0] == start[0] && (start + b)[0] == start[0]);
    } else {
        assert(start + a =~= a);
        assert(start + b =~= b);
    }
}

/// Every byte is written as two digits, 0 to 9 or a to f: the digits at
/// positions `2 i` and `2 i + 1` are the sixteens and the ones of byte `i`.
pub proof fn law_hexadecimal_is_two_digits_per_byte(bytes: Seq<u8>)
    ensures
        hex(bytes).len() == 2 * bytes.len(),
        forall|i: int|
            0 <= i < bytes.len() ==> 16 * digit_worth(hex(bytes)[2 * i]) + digit_worth(
                hex(bytes)[2 * i + 1],
            ) == (#[trigger] bytes[i]) as int && digit_worth(hex(bytes)[2 * i]) >= 0
                && digit_worth(hex(bytes)[2 * i + 1]) >= 0,
    decreases bytes.len(),
{
    if bytes.len() > 0 {
        let rest = bytes.drop_last();
        law_hexadecimal_is_two_digits_per_byte(rest);
        assert forall|i: int| 0 <= i < bytes.len() implies 16 * digit_worth(hex(bytes)[2 * i])
            + digit_worth(hex(bytes)[2 * i + 1]) == (#[trigger] bytes[i]) as int && digit_worth(
            hex(bytes)[2 * i],
        ) >= 0 && digit_worth(hex(bytes)[2 * i + 1]) >= 0 by {
            if i < rest.len() {
                assert(rest[i] == bytes[i]);
                assert(hex(bytes)[2 * i] == hex(rest)[2 * i]);
                assert(hex(bytes)[2 * i + 1] == hex(rest)[2 * i + 1]);
            } else {
                let n = bytes.last() as int;
                assert(hex(bytes)[2 * i] == hex_digit(n / 16));
                assert(hex(bytes)[2 * i + 1] == hex_digit(n % 16));
            }
        }
    }
}

/// What a lowercase hexadecimal digit stands for; -1 for anything else.
pub open spec fn digit_worth(c: char) -> int {
    let n = c as int;
    if 48 <= n <= 57 {
        n - 48
    } else if 97 <= n <= 102 {
        n - 87
    } else {
        -1
    }
}

/// A text is trimmed to nothing exactly if it holds nothing but white space.
pub proof fn law_texts_are_blank_or_not(s: Seq<char>)
    ensures
        trimmed(s).len() > 0 <==> exists|i: int| 0 <= i < s.len() && !blank(#[trigger] s[i]),
{
    let no = Seq::<char>::empty();
    if all_blank(s) {
        law_trimming_takes_white_space_from_both_ends(s, no, no);
        assert(s + no + no =~= s);
    } else {
        lemma_start_stops(s);
        lemma_end_stops(trimmed_start(s));
        let i = choose|i: int| 0 <= i < s.len() && !blank(#[trigger] s[i]);
        assert(!blank(s[i]));
    }
}

proof fn lemma_start_stops(s: Seq<char>)
    requires
        !all_blank(s),
    ensures
        trimmed_start(s).len() > 0,
        !blank(trimmed_start(s)[0]),
    decreases s.len(),
{
    let i = choose|i: int| 0 <= i < s.len() && !blank(#[trigger] s[i]);
    lemma_blank(s[0]);
    if is_space(s[0]) {
        assert(s.drop_first()[i - 1] == s[i]);
        lemma_start_stops(s.drop_first());
    }
}

proof fn lemma_end_stops(s: Seq<char>)
    requires
        s.len() > 0,
        !blank(s[0]),
    ensures
        trimmed_end(s).len() > 0,
    decreases s.len(),
{
    lemma_blank(s.last());
    if is_space(s.last()) {
        assert(s.drop_last()[0] == s[0]);
        lemma_end_stops(s.drop_last());
    }
}

} // verus!
