//! Text as sequences of characters.

use vstd::prelude::*;

verus! {

/// `String::push`: appends one character.
pub assume_specification[ String::push ](s: &mut String, c: char)
    ensures
        final(s)@ == old(s)@.push(c),
;

/// `char::from_u32`: the character with the given code, where there is one.
pub assume_specification[ char::from_u32 ](i: u32) -> (r: Option<char>)
    ensures
        match r {
            Some(c) => c as u32 == i,
            None => 0xD800 <= i <= 0xDFFF || i > 0x10FFFF,
        },
;

/// The characters of `s`.
pub fn chars_of(s: &str) -> (r: Vec<char>)
    ensures
        r@ == s@,
{
    let mut out: Vec<char> = Vec::new();
    for c in it: s.chars()
        invariant
            it.seq() == s@,
            out@ =~= s@.take(it.index() as int),
    {
        out.push(c);
    }
    assert(out@ =~= s@);
    out
}

/// The text that consists of the given characters.
pub fn string_of(chars: &[char]) -> (r: String)
    ensures
        r@ == chars@,
{
    let mut out = String::new();
    let mut i: usize = 0;
    while i < chars.len()
        invariant
            i <= chars@.len(),
            out@ =~= chars@.take(i as int),
        decreases chars@.len() - i,
    {
        out.push(chars[i]);
        i = i + 1;
    }
    assert(chars@.take(i as int) =~= chars@);
    out
}

/// A copy of `bytes`.
pub fn copy_bytes(bytes: &Vec<u8>) -> (r: Vec<u8>)
    ensures
        r@ == bytes@,
{
    vstd::slice::slice_to_vec(bytes.as_slice())
}

/// `s` with backslashes turned into slashes.
pub open spec fn forward_slashes(s: Seq<char>) -> Seq<char> {
    s.map_values(|c: char| if c == '\\' { '/' } else { c })
}

pub fn to_forward_slashes(s: &str) -> (r: String)
    ensures
        r@ == forward_slashes(s@),
{
    let chars = chars_of(s);
    let mut out = String::new();
    let mut i: usize = 0;
    while i < chars.len()
        invariant
            i <= chars@.len(),
            chars@ == s@,
            out@ =~= forward_slashes(s@.take(i as int)),
        decreases chars@.len() - i,
    {
        if chars[i] == '\\' {
            out.push('/');
        } else {
            out.push(chars[i]);
        }
        i = i + 1;
    }
    assert(s@.take(i as int) =~= s@);
    out
}

/// `a` followed by `b`.
pub fn concat(a: &str, b: &str) -> (r: String)
    ensures
        r@ == a@ + b@,
{
    let mut out = String::new();
    push_text(&mut out, a);
    push_text(&mut out, b);
    assert(out@ =~= a@ + b@);
    out
}

/// Appends `s` to `out`.
pub fn push_text(out: &mut String, s: &str)
    ensures
        final(out)@ == old(out)@ + s@,
{
    let chars = chars_of(s);
    let mut i: usize = 0;
    while i < chars.len()
        invariant
            i <= chars@.len(),
            chars@ == s@,
            out@ =~= old(out)@ + s@.take(i as int),
        decreases chars@.len() - i,
    {
        out.push(chars[i]);
        i = i + 1;
    }
    assert(s@.take(i as int) =~= s@);
}

/// A copy of `s`.
pub fn text(s: &str) -> (r: String)
    ensures
        r@ == s@,
{
    s.to_owned()
}

/// Whether two texts are the same.
pub fn same_text(a: &str, b: &str) -> (r: bool)
    ensures
        r == (a@ == b@),
{
    same_chars(chars_of(a).as_slice(), chars_of(b).as_slice())
}

pub fn same_chars(a: &[char], b: &[char]) -> (r: bool)
    ensures
        r == (a@ == b@),
{
    if a.len() != b.len() {
        return false;
    }
    let mut i: usize = 0;
    while i < a.len()
        invariant
            i <= a@.len(),
            a@.len() == b@.len(),
            forall|j: int| 0 <= j < i ==> a@[j] == b@[j],
        decreases a@.len() - i,
    {
        if a[i] != b[i] {
            return false;
        }
        i = i + 1;
    }
    assert(a@ =~= b@);
    true
}

/// A character with an ASCII capital made small.
pub open spec fn lower_char(c: char) -> char {
    if 'A' <= c <= 'Z' {
        (c as u32 + 32) as char
    } else {
        c
    }
}

/// Text with ASCII capitals made small.
pub open spec fn lower(s: Seq<char>) -> Seq<char> {
    s.map_values(|c: char| lower_char(c))
}

pub fn to_lower_char(c: char) -> (r: char)
    ensures
        r == lower_char(c),
{
    if c >= 'A' && c <= 'Z' {
        ((c as u8) + 32) as char
    } else {
        c
    }
}

/// `s` with ASCII capitals made small.
pub fn to_lower(s: &str) -> (r: String)
    ensures
        r@ == lower(s@),
{
    let chars = chars_of(s);
    let mut out = String::new();
    let mut i: usize = 0;
    while i < chars.len()
        invariant
            i <= chars@.len(),
            chars@ == s@,
            out@ =~= lower(s@.take(i as int)),
        decreases chars@.len() - i,
    {
        out.push(to_lower_char(chars[i]));
        i = i + 1;
    }
    assert(s@.take(i as int) =~= s@);
    out
}

/// Whether two texts differ only in the case of ASCII letters.
pub fn same_ignoring_case(a: &str, b: &str) -> (r: bool)
    ensures
        r == (lower(a@) == lower(b@)),
{
    same_text(to_lower(a).as_str(), to_lower(b).as_str())
}

/// Whether `s` ends with `end`.
pub open spec fn has_suffix(s: Seq<char>, end: Seq<char>) -> bool {
    end.len() <= s.len() && s.skip(s.len() - end.len()) == end
}

/// Whether `s` starts with `start`.
pub open spec fn has_prefix(s: Seq<char>, start: Seq<char>) -> bool {
    start.len() <= s.len() && s.take(start.len() as int) == start
}

/// `s` without `end` at its end, where it is there.
pub open spec fn without_suffix(s: Seq<char>, end: Seq<char>) -> Seq<char> {
    if has_suffix(s, end) {
        s.take(s.len() - end.len())
    } else {
        s
    }
}

/// The characters `from..to` of a text.
pub fn chars_between(chars: &Vec<char>, from: usize, to: usize) -> (r: Vec<char>)
    requires
        from <= to <= chars@.len(),
    ensures
        r@ == chars@.subrange(from as int, to as int),
{
    vstd::slice::slice_to_vec(vstd::slice::slice_subrange(chars.as_slice(), from, to))
}

pub fn ends_with(s: &str, end: &str) -> (r: bool)
    ensures
        r == has_suffix(s@, end@),
{
    strip_suffix(s, end).is_some()
}

pub fn starts_with(s: &str, start: &str) -> (r: bool)
    ensures
        r == has_prefix(s@, start@),
{
    strip_prefix(s, start).is_some()
}

/// `s` without `end` at its end.
pub fn strip_suffix(s: &str, end: &str) -> (r: Option<String>)
    ensures
        match r {
            Some(t) => has_suffix(s@, end@) && t@ == s@.take(s@.len() - end@.len()),
            None => !has_suffix(s@, end@),
        },
{
    let sc = chars_of(s);
    let ec = chars_of(end);
    if ec.len() > sc.len() {
        return None;
    }
    let at: usize = sc.len() - ec.len();
    let tail = chars_between(&sc, at, sc.len());
    assert(tail@ =~= s@.skip(at as int));
    if same_chars(tail.as_slice(), ec.as_slice()) {
        let head = chars_between(&sc, 0, at);
        assert(head@ =~= s@.take(at as int));
        Some(string_of(head.as_slice()))
    } else {
        None
    }
}

/// `s` without `start` at its start.
pub fn strip_prefix(s: &str, start: &str) -> (r: Option<String>)
    ensures
        match r {
            Some(t) => has_prefix(s@, start@) && t@ == s@.skip(start@.len() as int),
            None => !has_prefix(s@, start@),
        },
{
    let sc = chars_of(s);
    let pc = chars_of(start);
    if pc.len() > sc.len() {
        return None;
    }
    let head = chars_between(&sc, 0, pc.len());
    assert(head@ =~= s@.take(pc@.len() as int));
    if same_chars(head.as_slice(), pc.as_slice()) {
        let tail = chars_between(&sc, pc.len(), sc.len());
        assert(tail@ =~= s@.skip(pc@.len() as int));
        Some(string_of(tail.as_slice()))
    } else {
        None
    }
}

/// Where `c` first occurs in `s` from `i` on, or the length of `s`.
pub open spec fn first_of(s: Seq<char>, c: char, i: int) -> int
    decreases s.len() - i,
{
    if i >= s.len() || s[i] == c {
        i
    } else {
        first_of(s, c, i + 1)
    }
}

pub proof fn lemma_first_of(s: Seq<char>, c: char, i: int)
    requires
        0 <= i <= s.len(),
    ensures
        i <= first_of(s, c, i) <= s.len(),
        first_of(s, c, i) < s.len() ==> s[first_of(s, c, i)] == c,
        forall|j: int| i <= j < first_of(s, c, i) ==> s[j] != c,
    decreases s.len() - i,
{
    if i < s.len() && s[i] != c {
        lemma_first_of(s, c, i + 1);
    }
}

pub fn find_char(chars: &Vec<char>, c: char) -> (r: usize)
    ensures
        r == first_of(chars@, c, 0),
        r <= chars@.len(),
        r < chars@.len() ==> chars@[r as int] == c,
        forall|j: int| 0 <= j < r ==> chars@[j] != c,
{
    let mut i: usize = 0;
    while i < chars.len() && chars[i] != c
        invariant
            i <= chars@.len(),
            first_of(chars@, c, 0) == first_of(chars@, c, i as int),
            forall|j: int| 0 <= j < i ==> chars@[j] != c,
        decreases chars@.len() - i,
    {
        i = i + 1;
    }
    i
}

/// An optional text as a value.
pub open spec fn option_text(o: Option<String>) -> Option<Seq<char>> {
    match o {
        Some(s) => Some(s@),
        None => None,
    }
}

pub fn copy_option(o: &Option<String>) -> (r: Option<String>)
    ensures
        option_text(r) == option_text(*o),
{
    match o {
        Some(s) => Some(text(s.as_str())),
        None => None,
    }
}

/// Strings as values.
pub open spec fn texts(v: Seq<String>) -> Seq<Seq<char>> {
    v.map_values(|s: String| s@)
}

/// Whether Unicode counts `c` as white space.
pub open spec fn is_white(c: char) -> bool {
    ||| 0x9 <= c as u32 <= 0xD
    ||| c as u32 == 0x20
    ||| c as u32 == 0x85
    ||| c as u32 == 0xA0
    ||| c as u32 == 0x1680
    ||| 0x2000 <= c as u32 <= 0x200A
    ||| c as u32 == 0x2028
    ||| c as u32 == 0x2029
    ||| c as u32 == 0x202F
    ||| c as u32 == 0x205F
    ||| c as u32 == 0x3000
}

pub fn is_white_char(c: char) -> (r: bool)
    ensures
        r == is_white(c),
{
    let n: u32 = c as u32;
    (n >= 0x9 && n <= 0xD) || n == 0x20 || n == 0x85 || n == 0xA0 || n == 0x1680 || (n >= 0x2000
        && n <= 0x200A) || n == 0x2028 || n == 0x2029 || n == 0x202F || n == 0x205F || n == 0x3000
}

/// `s` without white space at its start.
pub open spec fn trim_start(s: Seq<char>) -> Seq<char>
    decreases s.len(),
{
    if s.len() > 0 && is_white(s[0]) {
        trim_start(s.skip(1))
    } else {
        s
    }
}

/// `s` without white space at its end.
pub open spec fn trim_end(s: Seq<char>) -> Seq<char>
    decreases s.len(),
{
    if s.len() > 0 && is_white(s.last()) {
        trim_end(s.drop_last())
    } else {
        s
    }
}

/// `s` without white space at either end.
pub open spec fn trimmed(s: Seq<char>) -> Seq<char> {
    trim_end(trim_start(s))
}

pub fn trim(s: &str) -> (r: Vec<char>)
    ensures
        r@ == trimmed(s@),
{
    let chars = chars_of(s);
    let mut from: usize = 0;
    assert(chars@.skip(0) =~= chars@);
    while from < chars.len() && is_white_char(chars[from])
        invariant
            from <= chars@.len(),
            trim_start(chars@) == trim_start(chars@.skip(from as int)),
        decreases chars@.len() - from,
    {
        assert(chars@.skip(from as int).skip(1) =~= chars@.skip(from + 1));
        from = from + 1;
    }
    let ghost start = trim_start(chars@);
    assert(start == chars@.skip(from as int));
    let mut to: usize = chars.len();
    assert(chars@.subrange(from as int, to as int) =~= start);
    while to > from && is_white_char(chars[to - 1])
        invariant
            from <= to <= chars@.len(),
            trim_end(start) == trim_end(chars@.subrange(from as int, to as int)),
        decreases to,
    {
        assert(chars@.subrange(from as int, to as int).drop_last() =~= chars@.subrange(
            from as int,
            to - 1,
        ));
        to = to - 1;
    }
    chars_between(&chars, from, to)
}

/// The pieces of `s` from position `from` on, between separators.
pub open spec fn split_from(s: Seq<char>, sep: char, from: int) -> Seq<Seq<char>>
    decreases s.len() - from,
    when 0 <= from
{
    let end = first_of(s, sep, from);
    if end < from || end >= s.len() {
        seq![s.skip(from)]
    } else {
        seq![s.subrange(from, end)] + split_from(s, sep, end + 1)
    }
}

/// The pieces of texts as sequences.
pub open spec fn pieces(v: Seq<Vec<char>>) -> Seq<Seq<char>> {
    v.map_values(|p: Vec<char>| p@)
}

/// Splits a text at every separator.
pub fn split(chars: &Vec<char>, sep: char) -> (r: Vec<Vec<char>>)
    ensures
        pieces(r@) == split_from(chars@, sep, 0),
        r@.len() > 0,
{
    let mut out: Vec<Vec<char>> = Vec::new();
    let mut from: usize = 0;
    let ghost all = split_from(chars@, sep, 0);
    assert(pieces(out@) + split_from(chars@, sep, 0) =~= all);
    loop
        invariant
            from <= chars@.len(),
            all == split_from(chars@, sep, 0),
            pieces(out@) + split_from(chars@, sep, from as int) == all,
        decreases chars@.len() - from,
    {
        let mut end: usize = from;
        while end < chars.len() && chars[end] != sep
            invariant
                from <= end <= chars@.len(),
                first_of(chars@, sep, from as int) == first_of(chars@, sep, end as int),
            decreases chars@.len() - end,
        {
            end = end + 1;
        }
        let ghost before = pieces(out@);
        let piece = chars_between(chars, from, end);
        let ghost p = piece@;
        out.push(piece);
        assert(pieces(out@) =~= before.push(p));
        if end >= chars.len() {
            assert(chars@.skip(from as int) =~= p);
            assert(before + seq![p] =~= before.push(p));
            return out;
        }
        assert(before + (seq![p] + split_from(chars@, sep, end + 1)) =~= before.push(p)
            + split_from(chars@, sep, end + 1));
        from = end + 1;
    }
}

/// Whether `part` occurs in `s` at `at`.
pub open spec fn occurs_at(s: Seq<char>, part: Seq<char>, at: int) -> bool {
    0 <= at && at + part.len() <= s.len() && s.subrange(at, at + part.len()) == part
}

/// Whether `part` occurs in `s`.
pub open spec fn has_part(s: Seq<char>, part: Seq<char>) -> bool {
    exists|at: int| occurs_at(s, part, at)
}

pub fn contains(s: &str, part: &str) -> (r: bool)
    ensures
        r == has_part(s@, part@),
{
    let sc = chars_of(s);
    let pc = chars_of(part);
    let n: usize = sc.len();
    let m: usize = pc.len();
    if m > n {
        assert forall|j: int| !#[trigger] occurs_at(s@, part@, j) by {}
        return false;
    }
    let last: usize = n - m;
    let mut at: usize = 0;
    while at < last
        invariant
            at <= last,
            last + m == n,
            n == s@.len(),
            m == part@.len(),
            sc@ == s@,
            pc@ == part@,
            forall|j: int| 0 <= j < at ==> !#[trigger] occurs_at(s@, part@, j),
        decreases last - at,
    {
        let piece = chars_between(&sc, at, at + m);
        if same_chars(piece.as_slice(), pc.as_slice()) {
            assert(occurs_at(s@, part@, at as int));
            return true;
        }
        assert(!occurs_at(s@, part@, at as int));
        at = at + 1;
    }
    let piece = chars_between(&sc, last, n);
    let r = same_chars(piece.as_slice(), pc.as_slice());
    proof {
        if r {
            assert(occurs_at(s@, part@, last as int));
        } else {
            assert(!occurs_at(s@, part@, last as int));
            assert forall|j: int| !#[trigger] occurs_at(s@, part@, j) by {}
        }
    }
    r
}

/// Where `part` first occurs in `s` from `i` on.
pub open spec fn part_from(s: Seq<char>, part: Seq<char>, i: int) -> Option<int>
    decreases s.len() + 1 - i,
{
    if i + part.len() > s.len() {
        None
    } else if occurs_at(s, part, i) {
        Some(i)
    } else {
        part_from(s, part, i + 1)
    }
}

/// Where `part` first occurs in `s`.
pub fn find_part(sc: &Vec<char>, part: &str) -> (r: Option<usize>)
    ensures
        match r {
            Some(i) => part_from(sc@, part@, 0) == Some(i as int) && i + part@.len() <= sc@.len(),
            None => part_from(sc@, part@, 0) is None,
        },
{
    let pc = chars_of(part);
    let mut at: usize = 0;
    while at <= sc.len() && pc.len() <= sc.len() - at
        invariant
            at <= sc@.len() + 1,
            pc@ == part@,
            part_from(sc@, part@, 0) == part_from(sc@, part@, at as int),
        decreases sc@.len() + 1 - at,
    {
        let piece = chars_between(sc, at, at + pc.len());
        if same_chars(piece.as_slice(), pc.as_slice()) {
            return Some(at);
        }
        if at == sc.len() {
            assert(part_from(sc@, part@, at + 1) is None);
            return None;
        }
        at = at + 1;
    }
    None
}

/// Whether `c` is an ASCII digit.
pub open spec fn is_digit(c: char) -> bool {
    '0' <= c <= '9'
}

/// The number that decimal digits stand for.
pub open spec fn decimal_value(s: Seq<char>) -> int
    decreases s.len(),
{
    if s.len() == 0 {
        0
    } else {
        decimal_value(s.drop_last()) * 10 + (s.last() as u32 - '0' as u32)
    }
}

/// Whether `s` is one or more digits.
pub open spec fn is_number(s: Seq<char>) -> bool {
    s.len() > 0 && forall|i: int| 0 <= i < s.len() ==> is_digit(#[trigger] s[i])
}

proof fn lemma_decimal_monotone(s: Seq<char>, n: int)
    requires
        0 <= n <= s.len(),
        forall|i: int| 0 <= i < s.len() ==> is_digit(#[trigger] s[i]),
    ensures
        0 <= decimal_value(s.take(n)) <= decimal_value(s),
    decreases s.len(),
{
    if n == s.len() {
        assert(s.take(n) =~= s);
        if n > 0 {
            lemma_decimal_monotone(s.drop_last(), n - 1);
            assert(s.drop_last().take(n - 1) =~= s.drop_last());
        }
    } else {
        lemma_decimal_monotone(s.drop_last(), n);
        assert(s.drop_last().take(n) =~= s.take(n));
        assert(s.last() == s[s.len() - 1]);
    }
}

/// Reads decimal digits from position `from` on; `None` where there are none,
/// where something else stands there, or where the number is above `max`.
pub fn parse_decimal(chars: &Vec<char>, from: usize, max: u64) -> (r: Option<u64>)
    requires
        from <= chars@.len(),
    ensures
        ({
            let s = chars@.skip(from as int);
            match r {
                Some(v) => is_number(s) && v == decimal_value(s) && v <= max,
                None => !is_number(s) || decimal_value(s) > max,
            }
        }),
{
    let ghost s = chars@.skip(from as int);
    if from == chars.len() {
        return None;
    }
    let mut value: u64 = 0;
    let mut i: usize = from;
    let mut too_large: bool = false;
    assert(s.take(0) =~= Seq::empty());
    while i < chars.len()
        invariant
            from <= i <= chars@.len(),
            s == chars@.skip(from as int),
            forall|j: int| 0 <= j < i - from ==> is_digit(#[trigger] s[j]),
            !too_large ==> value == decimal_value(s.take(i - from)) && value <= max,
            too_large ==> decimal_value(s.take(i - from)) > max,
        decreases chars@.len() - i,
    {
        let c: char = chars[i];
        assert(s[i - from] == c);
        if c < '0' || c > '9' {
            return None;
        }
        let digit: u64 = (c as u32 - '0' as u32) as u64;
        assert(s.take(i + 1 - from).drop_last() =~= s.take(i - from));
        if !too_large {
            if digit > max || value > max / 10 || value * 10 > max - digit {
                too_large = true;
            } else {
                value = value * 10 + digit;
            }
        }
        i = i + 1;
    }
    assert(s.take(i - from) =~= s);
    if too_large {
        None
    } else {
        Some(value)
    }
}

/// A sign, where `s` starts with one, and where the digits start.
pub open spec fn sign_of(s: Seq<char>) -> (bool, int) {
    if s.len() > 0 && s[0] == '-' {
        (true, 1)
    } else if s.len() > 0 && s[0] == '+' {
        (false, 1)
    } else {
        (false, 0)
    }
}

/// The signed 64-bit number that `s` spells out: an optional sign and digits.
pub open spec fn i64_text(s: Seq<char>) -> Option<int> {
    let (negative, from) = sign_of(s);
    let digits = s.skip(from);
    let value = if negative {
        -decimal_value(digits)
    } else {
        decimal_value(digits)
    };
    if is_number(digits) && i64::MIN <= value <= i64::MAX {
        Some(value)
    } else {
        None
    }
}

pub fn parse_i64(s: &str) -> (r: Option<i64>)
    ensures
        match r {
            Some(v) => i64_text(s@) == Some(v as int),
            None => i64_text(s@) is None,
        },
{
    let chars = chars_of(s);
    if chars.len() > 0 && chars[0] == '-' {
        match parse_decimal(&chars, 1, 0x8000_0000_0000_0000) {
            Some(v) => {
                if v == 0x8000_0000_0000_0000 {
                    Some(i64::MIN)
                } else {
                    Some(-(v as i64))
                }
            },
            None => None,
        }
    } else {
        let from: usize = if chars.len() > 0 && chars[0] == '+' {
            1
        } else {
            0
        };
        match parse_decimal(&chars, from, 0x7FFF_FFFF_FFFF_FFFF) {
            Some(v) => Some(v as i64),
            None => None,
        }
    }
}

/// The decimal digits of `n`.
pub open spec fn decimal_text(n: int) -> Seq<char>
    decreases n,
{
    if n < 10 {
        seq![(n + '0' as u32) as char]
    } else {
        decimal_text(n / 10).push((n % 10 + '0' as u32) as char)
    }
}

/// The decimal digits of `n`, with a sign where it is negative.
pub open spec fn i64_digits(n: int) -> Seq<char> {
    if n < 0 {
        seq!['-'] + decimal_text(-n)
    } else {
        decimal_text(n)
    }
}

pub fn decimal(n: u64) -> (r: String)
    ensures
        r@ == decimal_text(n as int),
    decreases n,
{
    let digit: char = ((n % 10) as u8 + 48) as char;
    if n < 10 {
        let mut out = String::new();
        out.push(digit);
        assert(out@ =~= seq![(n + '0' as u32) as char]);
        out
    } else {
        let mut out = decimal(n / 10);
        out.push(digit);
        out
    }
}

pub fn decimal_i64(n: i64) -> (r: String)
    ensures
        r@ == i64_digits(n as int),
{
    if n < 0 {
        let mut out = String::new();
        out.push('-');
        let size: u64 = if n == i64::MIN {
            0x8000_0000_0000_0000
        } else {
            (-n) as u64
        };
        let digits = decimal(size);
        push_text(&mut out, digits.as_str());
        assert(out@ =~= seq!['-'] + decimal_text(-n));
        out
    } else {
        decimal(n as u64)
    }
}

/// Reading back the decimal digits of a number gives the number.
pub proof fn law_decimal_round_trip(n: int)
    requires
        0 <= n,
    ensures
        is_number(decimal_text(n)),
        decimal_value(decimal_text(n)) == n,
    decreases n,
{
    let s = decimal_text(n);
    if n < 10 {
        assert(s.drop_last() =~= Seq::empty());
        assert(decimal_value(s.drop_last()) == 0);
        assert(s.last() as u32 == n + '0' as u32);
    } else {
        law_decimal_round_trip(n / 10);
        assert(s.drop_last() =~= decimal_text(n / 10));
        assert(s.last() as u32 == n % 10 + '0' as u32);
    }
}

/// Trimming takes white space off both ends and nothing else: what is left starts
/// and ends with something else, and only white space stood around it.
pub proof fn law_trimmed(s: Seq<char>) -> (from: int)
    ensures
        0 <= from,
        from + trimmed(s).len() <= s.len(),
        trimmed(s) == s.subrange(from, from + trimmed(s).len()),
        forall|i: int| 0 <= i < from ==> is_white(#[trigger] s[i]),
        forall|i: int| from + trimmed(s).len() <= i < s.len() ==> is_white(#[trigger] s[i]),
        trimmed(s).len() > 0 ==> !is_white(trimmed(s)[0]) && !is_white(trimmed(s).last()),
{
    let from = lemma_trim_start_at(s);
    let rest = trim_start(s);
    lemma_trim_end_at(rest);
    let t = trimmed(s);
    assert(t =~= s.subrange(from, from + t.len()));
    assert forall|i: int| from + t.len() <= i < s.len() implies is_white(#[trigger] s[i]) by {
        assert(rest[i - from] == s[i]);
    }
    if t.len() > 0 {
        assert(t[0] == rest[0]);
    }
    from
}

proof fn lemma_trim_start_at(s: Seq<char>) -> (from: int)
    ensures
        0 <= from <= s.len(),
        trim_start(s) == s.skip(from),
        forall|i: int| 0 <= i < from ==> is_white(#[trigger] s[i]),
        from < s.len() ==> !is_white(s[from]),
    decreases s.len(),
{
    if s.len() > 0 && is_white(s[0]) {
        let rest = s.skip(1);
        let from = lemma_trim_start_at(rest);
        assert(rest.skip(from) =~= s.skip(from + 1));
        assert forall|i: int| 0 <= i < from + 1 implies is_white(#[trigger] s[i]) by {
            if i > 0 {
                assert(rest[i - 1] == s[i]);
            }
        }
        from + 1
    } else {
        assert(s.skip(0) =~= s);
        0
    }
}

proof fn lemma_trim_end_at(s: Seq<char>)
    ensures
        trim_end(s).len() <= s.len(),
        trim_end(s) == s.take(trim_end(s).len() as int),
        forall|i: int| trim_end(s).len() <= i < s.len() ==> is_white(#[trigger] s[i]),
        trim_end(s).len() > 0 ==> !is_white(trim_end(s).last()),
    decreases s.len(),
{
    if s.len() > 0 && is_white(s.last()) {
        let rest = s.drop_last();
        lemma_trim_end_at(rest);
        assert(rest.take(trim_end(s).len() as int) =~= s.take(trim_end(s).len() as int));
        assert forall|i: int| trim_end(s).len() <= i < s.len() implies is_white(
            #[trigger] s[i],
        ) by {
            if i < rest.len() {
                assert(rest[i] == s[i]);
            }
        }
    } else {
        assert(s.take(s.len() as int) =~= s);
    }
}

/// Text that starts with a piece and a separator is split into that piece and the
/// pieces of the rest; text without a separator is one piece.
pub proof fn law_split(piece: Seq<char>, sep: char, rest: Seq<char>)
    requires
        forall|i: int| 0 <= i < piece.len() ==> piece[i] != sep,
    ensures
        split_from(piece, sep, 0) == seq![piece],
        split_from(piece + seq![sep] + rest, sep, 0) == seq![piece] + split_from(rest, sep, 0),
{
    lemma_first_of(piece, sep, 0);
    assert(piece.skip(0) =~= piece);
    let s = piece + seq![sep] + rest;
    let n = piece.len() as int;
    lemma_first_of(s, sep, 0);
    let at = first_of(s, sep, 0);
    assert(s[n] == sep);
    if at < n {
        assert(s[at] == piece[at]);
    }
    assert(at == n);
    assert(s.subrange(0, n) =~= piece);
    lemma_split_shift(piece + seq![sep], rest, sep, 0);
    assert(s =~= (piece + seq![sep]) + rest);
}

proof fn lemma_split_shift(start: Seq<char>, s: Seq<char>, sep: char, from: int)
    requires
        0 <= from <= s.len(),
    ensures
        split_from(start + s, sep, start.len() + from) == split_from(s, sep, from),
    decreases s.len() - from,
{
    let all = start + s;
    let n = start.len() as int;
    lemma_first_of(s, sep, from);
    lemma_first_of(all, sep, n + from);
    let a = first_of(s, sep, from);
    let b = first_of(all, sep, n + from);
    if b < n + a {
        assert(all[b] == s[b - n]);
    }
    if n + a < b && a < s.len() {
        assert(all[n + a] == s[a]);
    }
    assert(b == n + a);
    if a < s.len() {
        lemma_split_shift(start, s, sep, a + 1);
        assert(all.subrange(n + from, b) =~= s.subrange(from, a));
    } else {
        assert(all.skip(n + from) =~= s.skip(from));
    }
}

/// Where a part is found it occurs, and nowhere before; it is not found just where
/// it does not occur.
pub proof fn law_part_from(s: Seq<char>, part: Seq<char>, i: int)
    requires
        0 <= i,
    ensures
        match part_from(s, part, i) {
            Some(k) => i <= k && occurs_at(s, part, k) && forall|j: int|
                i <= j < k ==> !#[trigger] occurs_at(s, part, j),
            None => forall|j: int| i <= j ==> !#[trigger] occurs_at(s, part, j),
        },
    decreases s.len() + 1 - i,
{
    if i + part.len() <= s.len() && !occurs_at(s, part, i) {
        law_part_from(s, part, i + 1);
    }
}

/// The digits of a signed number are read back as the number.
pub proof fn law_i64_round_trip(n: int)
    requires
        i64::MIN <= n <= i64::MAX,
    ensures
        i64_text(i64_digits(n)) == Some(n),
{
    let s = i64_digits(n);
    if n < 0 {
        law_decimal_round_trip(-n);
        assert(s.skip(1) =~= decimal_text(-n));
    } else {
        law_decimal_round_trip(n);
        assert(s.skip(0) =~= s);
        assert(is_digit(s[0]));
    }
}

/// Making text small is done letter by letter, and twice is the same as once.
pub proof fn law_lower(a: Seq<char>, b: Seq<char>)
    ensures
        lower(a + b) == lower(a) + lower(b),
        lower(lower(a)) == lower(a),
        lower(a).len() == a.len(),
        forall|i: int|
            0 <= i < a.len() ==> lower(a)[i] == if 'A' <= #[trigger] a[i] <= 'Z' {
                (a[i] as u32 + 32) as char
            } else {
                a[i]
            },
{
    assert(lower(a + b) =~= lower(a) + lower(b));
    assert forall|c: char| lower_char(#[trigger] lower_char(c)) == lower_char(c) by {
        if 'A' <= c <= 'Z' {
            let n: u32 = (c as u32 + 32) as u32;
            assert(97 <= n <= 122);
            assert((n as char) as u32 == n);
        }
    }
    assert(lower(lower(a)) =~= lower(a));
}

} // verus!
