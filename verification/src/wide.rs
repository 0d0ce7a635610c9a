//! Text as the operating system takes it: 16-bit units that end in a zero.

use crate::text::{chars_of, string_of};
use vstd::prelude::*;
use vstd::utf8::{char_is_scalar, char_u32_cast};

verus! {

/// The units of a character: one, or a pair of surrogates.
pub open spec fn wide_char(c: char) -> Seq<u16> {
    let n = c as u32 as int;
    if n < 0x10000 {
        seq![n as u16]
    } else {
        seq![
            (0xD800 + (n - 0x10000) / 0x400) as u16,
            (0xDC00 + (n - 0x10000) % 0x400) as u16,
        ]
    }
}

/// The units of a text.
pub open spec fn wide(s: Seq<char>) -> Seq<u16>
    decreases s.len(),
{
    if s.len() == 0 {
        Seq::empty()
    } else {
        wide_char(s[0]) + wide(s.skip(1))
    }
}

pub open spec fn is_high(u: u16) -> bool {
    0xD800 <= u <= 0xDBFF
}

pub open spec fn is_low(u: u16) -> bool {
    0xDC00 <= u <= 0xDFFF
}

/// The code of the character that a pair of surrogates stands for.
pub open spec fn pair_code(high: u16, low: u16) -> u32 {
    (0x10000 + (high - 0xD800) * 0x400 + (low - 0xDC00)) as u32
}

/// The text that units stand for. A surrogate without its other half stands for
/// the replacement character.
pub open spec fn narrow(w: Seq<u16>) -> Seq<char>
    decreases w.len(),
{
    if w.len() == 0 {
        Seq::empty()
    } else if is_high(w[0]) && w.len() > 1 && is_low(w[1]) {
        seq![pair_code(w[0], w[1]) as char] + narrow(w.skip(2))
    } else if is_high(w[0]) || is_low(w[0]) {
        seq!['\u{FFFD}'] + narrow(w.skip(1))
    } else {
        seq![w[0] as u32 as char] + narrow(w.skip(1))
    }
}

/// Where the first zero among units is, from `i` on, or their number.
pub open spec fn first_zero(w: Seq<u16>, i: int) -> int
    decreases w.len() - i,
{
    if i >= w.len() || w[i] == 0 {
        i
    } else {
        first_zero(w, i + 1)
    }
}

/// The units of a text, and a zero.
pub fn to_wide(s: &str) -> (r: Vec<u16>)
    ensures
        r@ == wide(s@).push(0),
{
    let chars = chars_of(s);
    let mut out: Vec<u16> = Vec::new();
    let mut i: usize = 0;
    assert(s@.skip(0) =~= s@);
    assert(out@ + wide(s@) =~= wide(s@));
    while i < chars.len()
        invariant
            i <= chars@.len(),
            chars@ == s@,
            out@ + wide(s@.skip(i as int)) == wide(s@),
        decreases chars@.len() - i,
    {
        let ghost before = out@;
        let ghost rest = s@.skip(i as int);
        let n: u32 = chars[i] as u32;
        proof {
            char_is_scalar(chars@[i as int]);
        }
        assert(rest[0] == chars@[i as int]);
        assert(rest.skip(1) =~= s@.skip(i + 1));
        if n < 0x10000 {
            out.push(n as u16);
            assert(out@ =~= before + wide_char(rest[0]));
        } else {
            let m: u32 = n - 0x10000;
            out.push((0xD800 + m / 0x400) as u16);
            out.push((0xDC00 + m % 0x400) as u16);
            assert(out@ =~= before + wide_char(rest[0]));
        }
        assert((before + wide_char(rest[0])) + wide(rest.skip(1)) =~= before + (wide_char(rest[0])
            + wide(rest.skip(1))));
        i = i + 1;
    }
    assert(out@ + Seq::<u16>::empty() =~= out@);
    out.push(0);
    out
}

/// The text that units before the first zero stand for.
pub fn from_wide(w: &[u16]) -> (r: String)
    ensures
        r@ == narrow(w@.take(first_zero(w@, 0))),
{
    let mut n: usize = 0;
    while n < w.len() && w[n] != 0
        invariant
            n <= w@.len(),
            first_zero(w@, 0) == first_zero(w@, n as int),
        decreases w@.len() - n,
    {
        n = n + 1;
    }
    let ghost all = w@.take(n as int);
    let mut out: Vec<char> = Vec::new();
    let mut i: usize = 0;
    assert(all.skip(0) =~= all);
    assert(out@ + narrow(all) =~= narrow(all));
    while i < n
        invariant
            i <= n <= w@.len(),
            all == w@.take(n as int),
            out@ + narrow(all.skip(i as int)) == narrow(all),
        decreases n - i,
    {
        let ghost before = out@;
        let ghost rest = all.skip(i as int);
        assert(rest[0] == w@[i as int]);
        assert(rest.skip(1) =~= all.skip(i + 1));
        let u: u16 = w[i];
        if u < 0xD800 || u > 0xDFFF {
            let c = match char::from_u32(u as u32) {
                Some(c) => c,
                None => '\u{FFFD}',
            };
            proof {
                char_u32_cast(c, u as u32);
            }
            out.push(c);
            assert(out@ + narrow(rest.skip(1)) =~= before + (seq![c] + narrow(rest.skip(1))));
            i = i + 1;
        } else if u <= 0xDBFF && i + 1 < n && w[i + 1] >= 0xDC00 && w[i + 1] <= 0xDFFF {
            assert(rest[1] == w@[i + 1]);
            assert(rest.skip(2) =~= all.skip(i + 2));
            let m: u32 = 0x10000 + (u as u32 - 0xD800) * 0x400 + (w[i + 1] as u32 - 0xDC00);
            let c = match char::from_u32(m) {
                Some(c) => c,
                None => '\u{FFFD}',
            };
            proof {
                char_u32_cast(c, m);
            }
            out.push(c);
            assert(out@ + narrow(rest.skip(2)) =~= before + (seq![c] + narrow(rest.skip(2))));
            i = i + 2;
        } else {
            if i + 1 < n {
                assert(rest[1] == w@[i + 1]);
            }
            out.push('\u{FFFD}');
            assert(out@ + narrow(rest.skip(1)) =~= before + (seq!['\u{FFFD}'] + narrow(
                rest.skip(1),
            )));
            i = i + 1;
        }
    }
    assert(out@ + Seq::<char>::empty() =~= out@);
    string_of(out.as_slice())
}

/// Units of a text stand for the text.
pub proof fn law_narrow_wide(s: Seq<char>)
    ensures
        narrow(wide(s)) == s,
    decreases s.len(),
{
    if s.len() > 0 {
        let c = s[0];
        let n = c as u32 as int;
        char_is_scalar(c);
        let w = wide(s);
        law_narrow_wide(s.skip(1));
        if n < 0x10000 {
            assert(w.skip(1) =~= wide(s.skip(1)));
            assert(w[0] as u32 == c as u32);
            char_u32_cast(c, w[0] as u32);
            assert(narrow(w) =~= s);
        } else {
            assert(w.skip(2) =~= wide(s.skip(1)));
            assert(pair_code(w[0], w[1]) == c as u32);
            char_u32_cast(c, pair_code(w[0], w[1]));
            assert(narrow(w) =~= s);
        }
    } else {
        assert(narrow(wide(s)) =~= s);
    }
}

/// A text without zero characters is read back as it was written.
pub proof fn law_wide_round_trip(s: Seq<char>)
    requires
        forall|i: int| 0 <= i < s.len() ==> #[trigger] s[i] != '\0',
    ensures
        ({
            let w = wide(s).push(0);
            narrow(w.take(first_zero(w, 0))) == s
        }),
{
    let w = wide(s).push(0);
    lemma_no_zero(s);
    lemma_first_zero(w, 0, wide(s).len() as int);
    assert(w.take(wide(s).len() as int) =~= wide(s));
    law_narrow_wide(s);
}

proof fn lemma_first_zero(w: Seq<u16>, i: int, end: int)
    requires
        0 <= i <= end < w.len(),
        w[end] == 0,
        forall|k: int| i <= k < end ==> #[trigger] w[k] != 0,
    ensures
        first_zero(w, i) == end,
    decreases end - i,
{
    if i < end {
        lemma_first_zero(w, i + 1, end);
    }
}

proof fn lemma_no_zero(s: Seq<char>)
    requires
        forall|i: int| 0 <= i < s.len() ==> #[trigger] s[i] != '\0',
    ensures
        forall|k: int| 0 <= k < wide(s).len() ==> #[trigger] wide(s)[k] != 0,
    decreases s.len(),
{
    if s.len() > 0 {
        let rest = s.skip(1);
        assert forall|i: int| 0 <= i < rest.len() implies #[trigger] rest[i] != '\0' by {
            assert(rest[i] == s[i + 1]);
        }
        lemma_no_zero(rest);
        let head = wide_char(s[0]);
        char_is_scalar(s[0]);
        if s[0] as u32 == 0 {
            char_u32_cast(s[0], 0);
            char_u32_cast('\0', 0);
        }
        assert forall|k: int| 0 <= k < wide(s).len() implies #[trigger] wide(s)[k] != 0 by {
            if k < head.len() {
                assert(wide(s)[k] == head[k]);
            } else {
                assert(wide(s)[k] == wide(rest)[k - head.len()]);
            }
        }
    }
}

} // verus!
