//! How paths and their texts go together.

use crate::paths::{
    first_separator, is_drive_letter, is_rooted, is_separator, is_under, joined, joined_head,
    part_key, path_key, path_text, prefix_len, segment_parts, starts_with_dot, text_parts, PartView,
    PathView,
};
use vstd::prelude::*;

verus! {

/// Whether `s` holds no separator.
pub open spec fn is_segment(s: Seq<char>) -> bool {
    forall|i: int| 0 <= i < s.len() ==> !is_separator(#[trigger] s[i])
}

/// Whether `s` names something in a directory: no separator, and neither nothing
/// nor one or two dots.
pub open spec fn is_plain_name(s: Seq<char>) -> bool {
    &&& is_segment(s)
    &&& s.len() > 0
    &&& s != seq!['.']
    &&& s != seq!['.', '.']
}

/// The first separator is one, or the end, and none stands before it.
pub proof fn law_first_separator(s: Seq<char>, i: int)
    requires
        0 <= i <= s.len(),
    ensures
        i <= first_separator(s, i) <= s.len(),
        first_separator(s, i) < s.len() ==> is_separator(s[first_separator(s, i)]),
        forall|j: int| i <= j < first_separator(s, i) ==> !is_separator(#[trigger] s[j]),
    decreases s.len() - i,
{
    if i < s.len() && !is_separator(s[i]) {
        law_first_separator(s, i + 1);
    }
}

proof fn lemma_separator_is(s: Seq<char>, i: int, end: int)
    requires
        0 <= i <= end <= s.len(),
        end < s.len() ==> is_separator(s[end]),
        forall|j: int| i <= j < end ==> !is_separator(#[trigger] s[j]),
    ensures
        first_separator(s, i) == end,
{
    law_first_separator(s, i);
    let f = first_separator(s, i);
    if f < end {
        assert(!is_separator(s[f]));
    } else if end < f {
        assert(!is_separator(s[end]));
    }
}

/// The parts of a text from a position on are those of the text that is left there.
pub proof fn law_parts_behind(s: Seq<char>, from: int)
    requires
        0 <= from <= s.len(),
    ensures
        text_parts(s, from) == text_parts(s.skip(from), 0),
    decreases s.len() - from,
{
    let t = s.skip(from);
    law_first_separator(s, from);
    let end = first_separator(s, from);
    assert forall|j: int| 0 <= j < end - from implies !is_separator(#[trigger] t[j]) by {
        assert(t[j] == s[from + j]);
    }
    lemma_separator_is(t, 0, end - from);
    if from < s.len() {
        if end >= s.len() {
            assert(s.subrange(from, s.len() as int) =~= t.subrange(0, t.len() as int));
        } else {
            assert(s.subrange(from, end) =~= t.subrange(0, end - from));
            law_parts_behind(s, end + 1);
            law_parts_behind(t, end - from + 1);
            assert(t.skip(end - from + 1) =~= s.skip(end + 1));
        }
    }
}

/// A text without separators is one name. Nothing and a single dot name nothing, two
/// dots the directory above.
pub proof fn law_part_alone(s: Seq<char>)
    requires
        is_segment(s),
    ensures
        s.len() == 0 || s == seq!['.'] ==> text_parts(s, 0) == Seq::<PartView>::empty(),
        s == seq!['.', '.'] ==> text_parts(s, 0) == seq![PartView::Parent],
        is_plain_name(s) ==> text_parts(s, 0) == seq![PartView::Normal(s)],
{
    lemma_separator_is(s, 0, s.len() as int);
    assert(s.subrange(0, s.len() as int) =~= s);
    if s == seq!['.', '.'] {
        assert(s.len() == 2);
    }
}

/// The parts of two texts with a separator between them are those of the first and
/// then those of the second.
pub proof fn law_parts_of_two(a: Seq<char>, c: char, b: Seq<char>)
    requires
        is_separator(c),
    ensures
        text_parts(a + seq![c] + b, 0) == text_parts(a, 0) + text_parts(b, 0),
    decreases a.len(),
{
    let s = a + seq![c] + b;
    law_first_separator(a, 0);
    let end = first_separator(a, 0);
    assert forall|j: int| 0 <= j < end implies !is_separator(#[trigger] s[j]) by {
        assert(s[j] == a[j]);
    }
    assert(end < a.len() ==> s[end] == a[end]);
    assert(end == a.len() ==> s[end] == c);
    lemma_separator_is(s, 0, end);
    assert(s.subrange(0, end) =~= a.subrange(0, end));
    law_parts_behind(s, end + 1);
    if end == a.len() {
        assert(s.skip(end + 1) =~= b);
        assert(a.subrange(0, end) =~= a.subrange(0, a.len() as int));
        assert(a.len() == 0 ==> segment_parts(s.subrange(0, end)) =~= text_parts(a, 0));
        assert(segment_parts(s.subrange(0, end)) == text_parts(a, 0));
    } else {
        let rest = a.skip(end + 1);
        law_parts_behind(a, end + 1);
        assert(s.skip(end + 1) =~= rest + seq![c] + b);
        law_parts_of_two(rest, c, b);
        let first = segment_parts(a.subrange(0, end));
        assert(text_parts(s, 0) =~= first + text_parts(s, end + 1));
        assert(text_parts(a, 0) =~= first + text_parts(a, end + 1));
        assert(first + (text_parts(rest, 0) + text_parts(b, 0)) =~= first + text_parts(rest, 0)
            + text_parts(b, 0));
    }
}

/// A text that starts neither with a drive or share nor at a root leads on from a
/// directory: its parts stand behind those of the directory.
pub proof fn law_joined(base: PathView, s: Seq<char>)
    requires
        base.len() > 1,
        prefix_len(s) == 0,
        !is_rooted(s),
    ensures
        joined(base, s) == base + text_parts(s, 0),
{
}

/// Going two steps from a directory is to go both at once.
pub proof fn law_joined_twice(base: PathView, a: Seq<char>, b: Seq<char>)
    requires
        base.len() > 1,
        a.len() > 0,
        prefix_len(a) == 0 && !is_rooted(a),
        prefix_len(b) == 0 && !is_rooted(b),
    ensures
        joined(joined(base, a), b) == joined(base, a + seq!['/'] + b),
{
    let s = a + seq!['/'] + b;
    assert(s[0] == a[0]);
    assert(!is_separator(s[0]));
    if a.len() == 1 {
        assert(s[1] == '/');
    } else {
        assert(s[1] == a[1]);
    }
    assert(prefix_len(s) == 0);
    assert(!is_rooted(s));
    law_parts_of_two(a, '/', b);
    law_joined(base, a);
    law_joined(joined(base, a), b);
    law_joined(base, s);
    assert(base + text_parts(a, 0) + text_parts(b, 0) =~= base + (text_parts(a, 0) + text_parts(
        b,
        0,
    )));
}

/// A name leads to what it names in the directory.
pub proof fn law_joined_name(base: PathView, name: Seq<char>)
    requires
        is_plain_name(name),
        prefix_len(name) == 0,
    ensures
        joined(base, name) == base.push(PartView::Normal(name)),
{
    assert(!is_rooted(name));
    if starts_with_dot(name, 0) {
        if name.len() == 1 {
            assert(name =~= seq!['.']);
        }
    }
    law_part_alone(name);
    assert(joined(base, name) =~= base.push(PartView::Normal(name)));
}

/// A text with a drive or a share leads to the same place from everywhere. One that
/// starts at a root does so from all directories of one drive.
pub proof fn law_joined_absolute(base: PathView, other: PathView, s: Seq<char>)
    ensures
        prefix_len(s) > 0 ==> joined(base, s) == joined(other, s) && joined(base, s)[0]
            == PartView::Prefix(s.take(prefix_len(s))),
        prefix_len(s) == 0 && is_rooted(s) && base.len() > 0 && other.len() > 0 && base[0]
            == other[0] ==> joined(base, s) == joined(other, s),
        prefix_len(s) == 0 && is_rooted(s) && (base.len() == 0 || !(base[0] is Prefix)) ==> joined(
            base,
            s,
        ) == seq![PartView::Root] + text_parts(s, 0),
{
    if prefix_len(s) == 0 && is_rooted(s) && (base.len() == 0 || !(base[0] is Prefix)) {
        assert(joined_head(base, s) =~= seq![PartView::Root]);
    }
}

/// A letter and a colon are a drive.
pub proof fn law_drive(letter: char, rest: Seq<char>)
    requires
        is_drive_letter(letter),
    ensures
        prefix_len(seq![letter, ':'] + rest) == 2,
{
    let s = seq![letter, ':'] + rest;
    assert(s[0] == letter && s[1] == ':');
}

/// Two separators, a name, a separator and a name are a share, up to the next
/// separator or the end.
pub proof fn law_share(s: Seq<char>, server: int, share: int)
    requires
        0 < server,
        0 < share,
        server + share + 3 <= s.len(),
        is_separator(s[0]) && is_separator(s[1]) && is_separator(s[server + 2]),
        server + share + 3 < s.len() ==> is_separator(s[server + share + 3]),
        is_segment(s.subrange(2, server + 2)),
        is_segment(s.subrange(server + 3, server + share + 3)),
    ensures
        prefix_len(s) == server + share + 3,
        is_rooted(s),
{
    assert forall|j: int| 2 <= j < server + 2 implies !is_separator(#[trigger] s[j]) by {
        assert(s.subrange(2, server + 2)[j - 2] == s[j]);
    }
    assert forall|j: int| server + 3 <= j < server + share + 3 implies !is_separator(
        #[trigger] s[j],
    ) by {
        assert(s.subrange(server + 3, server + share + 3)[j - server - 3] == s[j]);
    }
    lemma_separator_is(s, 2, server + 2);
    lemma_separator_is(s, server + 3, server + share + 3);
    assert(!is_drive_letter(s[0]));
}

/// Whether a path is made of plain names alone.
pub open spec fn names_only(p: PathView) -> bool {
    forall|i: int|
        0 <= i < p.len() ==> (#[trigger] p[i]) is Normal && is_plain_name(p[i]->Normal_0)
}

/// The text of a path of names has the parts of that path.
pub proof fn law_text_back(p: PathView)
    requires
        names_only(p),
    ensures
        text_parts(path_text(p), 0) == p,
    decreases p.len(),
{
    if p.len() == 0 {
        assert(text_parts(Seq::<char>::empty(), 0) =~= p);
    } else {
        let before = p.drop_last();
        let name = p.last()->Normal_0;
        assert(p[p.len() - 1] is Normal);
        assert forall|i: int| 0 <= i < before.len() implies (#[trigger] before[i]) is Normal
            && is_plain_name(before[i]->Normal_0) by {
            assert(before[i] == p[i]);
        }
        law_text_back(before);
        law_part_alone(name);
        if p.len() == 1 {
            assert(path_text(before) =~= Seq::<char>::empty());
            assert(path_text(p) =~= name);
            assert(p =~= seq![PartView::Normal(name)]);
        } else {
            assert(p[p.len() - 2] is Normal);
            assert(path_text(p) == path_text(before) + seq!['/'] + name);
            law_parts_of_two(path_text(before), '/', name);
            assert(p =~= before + seq![PartView::Normal(name)]);
        }
    }
}

/// A path lies under itself, and what lies under a directory lies under all that
/// hold the directory.
pub proof fn law_under(p: PathView, base: PathView, outer: PathView)
    ensures
        is_under(p, p),
        is_under(p, base) && is_under(base, outer) ==> is_under(p, outer),
        is_under(p, base) && is_under(base, p) ==> path_key(p) == path_key(base),
{
    assert(path_key(p).take(p.len() as int) =~= path_key(p));
    if is_under(p, base) && is_under(base, outer) {
        let n = outer.len() as int;
        assert(path_key(p).take(n) =~= path_key(p).take(base.len() as int).take(n));
    }
    if is_under(p, base) && is_under(base, p) {
        assert(path_key(p).take(base.len() as int) =~= path_key(p));
    }
}

/// What is left of a path below a directory leads back to it from there.
pub proof fn law_stripped_leads_back(p: PathView, base: PathView)
    requires
        is_under(p, base),
    ensures
        path_key(base + p.skip(base.len() as int)) == path_key(p),
{
    let back = base + p.skip(base.len() as int);
    assert forall|i: int| 0 <= i < p.len() implies part_key(#[trigger] back[i]) == part_key(
        p[i],
    ) by {
        if i < base.len() {
            assert(path_key(p).take(base.len() as int)[i] == part_key(p[i]));
            assert(path_key(base)[i] == part_key(base[i]));
        }
    }
    assert(path_key(back) =~= path_key(p));
}

/// Names are told apart by all their characters; the letters of drives are not told
/// apart by their case, nor shares by the kind of their separators.
pub proof fn law_part_key(a: PartView, b: PartView, small: char)
    ensures
        !(a is Prefix) ==> (part_key(a) == part_key(b) <==> a == b),
        'a' <= small <= 'z' ==> part_key(PartView::Prefix(seq![small, ':'])) == part_key(
            PartView::Prefix(seq![(small as u32 - 32) as char, ':']),
        ),
{
    if 'a' <= small <= 'z' {
        let n: u32 = (small as u32 - 32) as u32;
        assert(65 <= n <= 90);
        assert((n as char) as u32 == n);
        let x = seq![small, ':'];
        let y = seq![n as char, ':'];
        assert(x.len() == 2 && x[0] == small && x[1] == ':');
        assert(y.len() == 2 && y[0] == n as char && y[1] == ':');
    }
}

} // verus!
