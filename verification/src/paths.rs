//! Paths as lists of parts.

use crate::text::{chars_between, chars_of, option_text, push_text, same_text, string_of, text};
use vstd::prelude::*;

verus! {

/// What one part of a path is.
pub enum PartView {
    /// A drive or a network share.
    Prefix(Seq<char>),
    /// The root directory.
    Root,
    /// `.`, which only stands at the start.
    Current,
    /// `..`
    Parent,
    Normal(Seq<char>),
}

/// One part of a path.
pub enum Part {
    Prefix(String),
    Root,
    Current,
    Parent,
    Normal(String),
}

impl View for Part {
    type V = PartView;

    open spec fn view(&self) -> PartView {
        match self {
            Part::Prefix(s) => PartView::Prefix(s@),
            Part::Root => PartView::Root,
            Part::Current => PartView::Current,
            Part::Parent => PartView::Parent,
            Part::Normal(s) => PartView::Normal(s@),
        }
    }
}

impl Clone for Part {
    fn clone(&self) -> (r: Self)
        ensures
            r@ == self@,
    {
        match self {
            Part::Prefix(s) => Part::Prefix(text(s.as_str())),
            Part::Root => Part::Root,
            Part::Current => Part::Current,
            Part::Parent => Part::Parent,
            Part::Normal(s) => Part::Normal(text(s.as_str())),
        }
    }
}

/// Whether `c` may name a drive.
pub open spec fn is_drive_letter(c: char) -> bool {
    ('a' <= c && c <= 'z') || ('A' <= c && c <= 'Z')
}

/// The capital of a letter that may name a drive; other characters stay.
pub open spec fn drive_capital(c: char) -> char {
    if 'a' <= c && c <= 'z' {
        (c as u32 - 32) as char
    } else {
        c
    }
}

/// Whether a prefix is a drive: a letter and a colon.
pub open spec fn is_drive(s: Seq<char>) -> bool {
    s.len() == 2 && is_drive_letter(s[0]) && s[1] == ':'
}

/// A character of a share, with one kind of separator.
pub open spec fn share_char(c: char) -> char {
    if is_separator(c) {
        '\\'
    } else {
        c
    }
}

/// By which a part is told from others: the letter of a drive counts in either
/// case, and so does either kind of separator in a share.
pub open spec fn part_key(p: PartView) -> PartView {
    match p {
        PartView::Prefix(s) => if is_drive(s) {
            PartView::Prefix(seq![drive_capital(s[0]), ':'])
        } else {
            PartView::Prefix(s.map_values(|c: char| share_char(c)))
        },
        _ => p,
    }
}

/// By which a path is told from others.
pub open spec fn path_key(p: PathView) -> PathView {
    p.map_values(|x: PartView| part_key(x))
}

/// The key of a key is that key.
pub proof fn lemma_key_of_key(p: PathView)
    ensures
        path_key(path_key(p)) == path_key(p),
{
    assert forall|i: int| 0 <= i < p.len() implies part_key(part_key(#[trigger] p[i])) == part_key(
        p[i],
    ) by {
        lemma_part_key(p[i]);
    }
    assert(path_key(path_key(p)) =~= path_key(p));
}

proof fn lemma_part_key(p: PartView)
    ensures
        part_key(part_key(p)) == part_key(p),
{
    if let PartView::Prefix(s) = p {
        if is_drive(s) {
            lemma_drive_capital(s[0]);
            let t = seq![drive_capital(s[0]), ':'];
            assert(t.len() == 2 && t[0] == drive_capital(s[0]) && t[1] == ':');
            assert(is_drive(t));
        } else {
            let t = s.map_values(|c: char| share_char(c));
            lemma_share_is_no_drive(s);
            assert(t.map_values(|c: char| share_char(c)) =~= t);
        }
    }
}

proof fn lemma_share_is_no_drive(s: Seq<char>)
    requires
        !is_drive(s),
    ensures
        !is_drive(s.map_values(|c: char| share_char(c))),
{
    let t = s.map_values(|c: char| share_char(c));
    if s.len() == 2 {
        assert(t[0] == share_char(s[0]) && t[1] == share_char(s[1]));
    }
}

proof fn lemma_drive_capital(c: char)
    requires
        is_drive_letter(c),
    ensures
        'A' <= drive_capital(c) <= 'Z',
        drive_capital(drive_capital(c)) == drive_capital(c),
{
    if 'a' <= c && c <= 'z' {
        let n: u32 = (c as u32 - 32) as u32;
        assert(65 <= n <= 90);
        assert((n as char) as u32 == n);
    }
}

fn capital(c: char) -> (r: char)
    ensures
        r == drive_capital(c),
{
    if 'a' <= c && c <= 'z' {
        ((c as u8) - 32) as char
    } else {
        c
    }
}

/// Whether two prefixes are the same drive or share.
fn same_prefix(a: &str, b: &str) -> (r: bool)
    ensures
        r == (part_key(PartView::Prefix(a@)) == part_key(PartView::Prefix(b@))),
{
    let x = chars_of(a);
    let y = chars_of(b);
    if is_drive_chars(&x) && is_drive_chars(&y) {
        let r = capital(x[0]) == capital(y[0]);
        proof {
            let s = seq![drive_capital(a@[0]), ':'];
            let t = seq![drive_capital(b@[0]), ':'];
            assert(s[0] == drive_capital(a@[0]) && t[0] == drive_capital(b@[0]));
            if s[0] == t[0] {
                assert(s =~= t);
            }
        }
        r
    } else {
        let ghost s = a@.map_values(|c: char| share_char(c));
        let ghost t = b@.map_values(|c: char| share_char(c));
        proof {
            if is_drive(a@) {
                lemma_drive_stays(a@);
            } else {
                lemma_share_is_no_drive(a@);
            }
            if is_drive(b@) {
                lemma_drive_stays(b@);
            } else {
                lemma_share_is_no_drive(b@);
            }
        }
        if is_drive_chars(&x) || is_drive_chars(&y) || x.len() != y.len() {
            assert(!is_drive(a@) && !is_drive(b@) ==> s.len() != t.len());
            return false;
        }
        let mut i: usize = 0;
        while i < x.len()
            invariant
                i <= x@.len(),
                x@.len() == y@.len(),
                x@ == a@,
                y@ == b@,
                s == a@.map_values(|c: char| share_char(c)),
                t == b@.map_values(|c: char| share_char(c)),
                !is_drive(a@),
                !is_drive(b@),
                forall|j: int| 0 <= j < i ==> s[j] == t[j],
            decreases x@.len() - i,
        {
            if x[i] != y[i] && !(separates(x[i]) && separates(y[i])) {
                assert(s[i as int] != t[i as int]);
                return false;
            }
            i = i + 1;
        }
        assert(s =~= t);
        true
    }
}

proof fn lemma_drive_stays(s: Seq<char>)
    requires
        is_drive(s),
    ensures
        is_drive(seq![drive_capital(s[0]), ':']),
{
    lemma_drive_capital(s[0]);
    let t = seq![drive_capital(s[0]), ':'];
    assert(t.len() == 2 && t[0] == drive_capital(s[0]) && t[1] == ':');
}

fn is_drive_chars(s: &Vec<char>) -> (r: bool)
    ensures
        r == is_drive(s@),
{
    s.len() == 2 && s[1] == ':' && (('a' <= s[0] && s[0] <= 'z') || ('A' <= s[0] && s[0] <= 'Z'))
}

impl Part {
    /// Whether two parts are the same. The letters of drives are compared
    /// without their case.
    pub fn same(&self, other: &Part) -> (r: bool)
        ensures
            r == (part_key(self@) == part_key(other@)),
    {
        match (self, other) {
            (Part::Prefix(a), Part::Prefix(b)) => same_prefix(a.as_str(), b.as_str()),
            (Part::Root, Part::Root) => true,
            (Part::Current, Part::Current) => true,
            (Part::Parent, Part::Parent) => true,
            (Part::Normal(a), Part::Normal(b)) => same_text(a.as_str(), b.as_str()),
            _ => false,
        }
    }
}

/// A path.
pub struct FilePath {
    pub parts: Vec<Part>,
}

/// What a path is: its parts.
pub type PathView = Seq<PartView>;

impl View for FilePath {
    type V = PathView;

    open spec fn view(&self) -> PathView {
        self.parts@.map_values(|p: Part| p@)
    }
}

impl FilePath {
    fn push_part(&mut self, part: Part)
        ensures
            final(self)@ == old(self)@.push(part@),
    {
        let ghost before = self.parts@;
        self.parts.push(part);
        assert(self.parts@ == before.push(part));
        assert(self@ =~= old(self)@.push(part@));
    }
}

impl Clone for FilePath {
    fn clone(&self) -> (r: Self)
        ensures
            r@ == self@,
    {
        let mut r = FilePath { parts: Vec::new() };
        let mut i: usize = 0;
        while i < self.parts.len()
            invariant
                i <= self.parts@.len(),
                r@ =~= self@.take(i as int),
            decreases self.parts@.len() - i,
        {
            r.push_part(self.parts[i].clone());
            i = i + 1;
        }
        assert(self@.take(i as int) =~= self@);
        r
    }
}

/// The last part of a path where it is a name.
pub open spec fn file_name_of(p: PathView) -> Option<Seq<char>> {
    if p.len() == 0 {
        None
    } else {
        match p.last() {
            PartView::Normal(s) => Some(s),
            _ => None,
        }
    }
}

/// Where the last dot of `s` among its first `n` characters stands.
pub open spec fn last_dot(s: Seq<char>, n: int) -> Option<int>
    decreases n,
{
    if n <= 0 {
        None
    } else if s[n - 1] == '.' {
        Some(n - 1)
    } else {
        last_dot(s, n - 1)
    }
}

/// A file name without its extension. A leading dot starts no extension.
pub open spec fn stem_of(name: Seq<char>) -> Seq<char> {
    match last_dot(name, name.len() as int) {
        Some(i) => if i == 0 {
            name
        } else {
            name.take(i)
        },
        None => name,
    }
}

/// What stands behind the last dot of a file name, unless the name starts with
/// that dot.
pub open spec fn extension_of(name: Seq<char>) -> Option<Seq<char>> {
    match last_dot(name, name.len() as int) {
        Some(i) => if i == 0 {
            None
        } else {
            Some(name.skip(i + 1))
        },
        None => None,
    }
}

/// The extension of the file name of a path.
pub open spec fn path_extension(p: PathView) -> Option<Seq<char>> {
    match file_name_of(p) {
        Some(name) => extension_of(name),
        None => None,
    }
}

/// The file name of a path without its extension.
pub open spec fn file_stem_of(p: PathView) -> Option<Seq<char>> {
    match file_name_of(p) {
        Some(name) => Some(stem_of(name)),
        None => None,
    }
}

/// A path with another extension of its file name; a path without file name
/// stays as it is.
pub open spec fn with_extension_of(p: PathView, ext: Seq<char>) -> PathView {
    match file_stem_of(p) {
        Some(stem) => p.update(p.len() - 1, PartView::Normal(stem + seq!['.'] + ext)),
        None => p,
    }
}

/// The directory that holds what a path denotes.
pub open spec fn parent_of(p: PathView) -> Option<PathView> {
    if p.len() == 0 || p.last() is Prefix || p.last() is Root {
        None
    } else {
        Some(p.drop_last())
    }
}

/// Whether `p` lies under `base`, or is `base`.
pub open spec fn is_under(p: PathView, base: PathView) -> bool {
    base.len() <= p.len() && path_key(p).take(base.len() as int) == path_key(base)
}

/// A path with the parts of `base` before it lies under `base`.
pub proof fn lemma_joined_under(base: PathView, rest: PathView)
    ensures
        is_under(base + rest, base),
        (base + rest).skip(base.len() as int) == rest,
{
    assert(path_key(base + rest).take(base.len() as int) =~= path_key(base));
    assert((base + rest).skip(base.len() as int) =~= rest);
}

/// Where a path lies depends on its key alone.
pub proof fn lemma_under_by_key(p: PathView, base: PathView)
    ensures
        is_under(path_key(p), base) == is_under(p, base),
{
    lemma_key_of_key(p);
}

/// The text of one part.
pub open spec fn part_text(p: PartView) -> Seq<char> {
    match p {
        PartView::Prefix(s) => s,
        PartView::Root => Seq::empty(),
        PartView::Current => seq!['.'],
        PartView::Parent => seq!['.', '.'],
        PartView::Normal(s) => s,
    }
}

/// A path as text, with slashes between its parts. A path that is the root
/// alone is a slash.
pub open spec fn path_text(p: PathView) -> Seq<char>
    decreases p.len(),
{
    if p.len() == 0 {
        Seq::empty()
    } else {
        let before = path_text(p.drop_last());
        match p.last() {
            PartView::Root => before + seq!['/'],
            last => if p.len() == 1 || p[p.len() - 2] is Root || p[p.len() - 2] is Prefix {
                before + part_text(last)
            } else {
                before + seq!['/'] + part_text(last)
            },
        }
    }
}

/// Whether `c` separates the parts of a path.
pub open spec fn is_separator(c: char) -> bool {
    c == '/' || c == '\\'
}

/// Where the first separator of `s` from `i` on stands, or the length of `s`.
pub open spec fn first_separator(s: Seq<char>, i: int) -> int
    decreases s.len() - i,
{
    if i >= s.len() || is_separator(s[i]) {
        i
    } else {
        first_separator(s, i + 1)
    }
}

/// The parts that stand between two separators: nothing where there is nothing
/// or a single dot.
pub open spec fn segment_parts(s: Seq<char>) -> PathView {
    if s.len() == 0 || s == seq!['.'] {
        Seq::empty()
    } else if s == seq!['.', '.'] {
        seq![PartView::Parent]
    } else {
        seq![PartView::Normal(s)]
    }
}

/// How many characters of a text are a drive (`C:`) or a share
/// (`\\server\share`). Verbatim names (`\\?\name`) are taken for shares.
pub open spec fn prefix_len(s: Seq<char>) -> int {
    if s.len() >= 2 && is_drive_letter(s[0]) && s[1] == ':' {
        2
    } else if s.len() >= 2 && is_separator(s[0]) && is_separator(s[1]) {
        let server_end = first_separator(s, 2);
        let share_end = first_separator(s, server_end + 1);
        if 2 < server_end && server_end + 1 < share_end && server_end < s.len() {
            share_end
        } else {
            0
        }
    } else {
        0
    }
}

/// Whether a text starts at a root: behind a drive, or without one, a separator
/// says so; a share always does.
pub open spec fn is_rooted(s: Seq<char>) -> bool {
    let n = prefix_len(s);
    n > 2 || (n < s.len() && is_separator(s[n]))
}

/// Whether the first part of a text behind position `n` is a single dot.
pub open spec fn starts_with_dot(s: Seq<char>, n: int) -> bool {
    n < s.len() && s[n] == '.' && (n + 1 >= s.len() || is_separator(s[n + 1]))
}

/// What stands before the names of a text that is joined to `base`: `base`, or
/// what takes its place. A drive or a share replaces all of it, a root all but
/// its own drive. A single dot counts where nothing but a drive comes before it.
pub open spec fn joined_head(base: PathView, s: Seq<char>) -> PathView {
    let n = prefix_len(s);
    let start = if n > 0 {
        seq![PartView::Prefix(s.take(n))]
    } else if !is_rooted(s) {
        base
    } else if base.len() > 0 && base[0] is Prefix {
        seq![base[0]]
    } else {
        Seq::empty()
    };
    if is_rooted(s) {
        start.push(PartView::Root)
    } else if starts_with_dot(s, n) && (start.len() == 0 || (start.len() == 1
        && start[0] is Prefix)) {
        start.push(PartView::Current)
    } else {
        start
    }
}

/// The path to what the text `s` denotes in the directory `base`.
pub open spec fn joined(base: PathView, s: Seq<char>) -> PathView {
    joined_head(base, s) + text_parts(s, prefix_len(s))
}

/// The parts of a path from position `from` of its text on, where only names
/// stand.
pub open spec fn text_parts(s: Seq<char>, from: int) -> PathView
    decreases s.len() - from,
    when 0 <= from
{
    let end = first_separator(s, from);
    if from >= s.len() || end < from {
        Seq::empty()
    } else if end >= s.len() {
        segment_parts(s.subrange(from, s.len() as int))
    } else {
        segment_parts(s.subrange(from, end)) + text_parts(s, end + 1)
    }
}

/// Where the first separator stands, or the end.
fn find_separator(chars: &Vec<char>, from: usize) -> (end: usize)
    requires
        from <= chars@.len(),
    ensures
        from <= end <= chars@.len(),
        end == first_separator(chars@, from as int),
{
    let mut end: usize = from;
    while end < chars.len() && chars[end] != '/' && chars[end] != '\\'
        invariant
            from <= end <= chars@.len(),
            first_separator(chars@, from as int) == first_separator(chars@, end as int),
        decreases chars@.len() - end,
    {
        end = end + 1;
    }
    end
}

fn separates(c: char) -> (r: bool)
    ensures
        r == is_separator(c),
{
    c == '/' || c == '\\'
}

fn find_prefix(chars: &Vec<char>) -> (n: usize)
    ensures
        n == prefix_len(chars@),
        n <= chars@.len(),
{
    if chars.len() < 2 {
        return 0;
    }
    if chars[1] == ':' && (('a' <= chars[0] && chars[0] <= 'z') || ('A' <= chars[0] && chars[0]
        <= 'Z')) {
        return 2;
    }
    if separates(chars[0]) && separates(chars[1]) {
        let server_end: usize = find_separator(chars, 2);
        if 2 < server_end && server_end < chars.len() {
            let share_end: usize = find_separator(chars, server_end + 1);
            if server_end + 1 < share_end {
                return share_end;
            }
        }
    }
    0
}

impl FilePath {
    /// The path to what `rel` denotes in this directory. A drive or a share in
    /// `rel` replaces the directory, and a root all of it but its drive.
    pub fn join_text(&self, rel: &str) -> (r: Self)
        ensures
            r@ == joined(self@, rel@),
    {
        let chars = chars_of(rel);
        let start: usize = find_prefix(&chars);
        let rooted = start > 2 || (start < chars.len() && separates(chars[start]));
        let dot = start < chars.len() && chars[start] == '.' && (start + 1 >= chars.len()
            || separates(chars[start + 1]));
        let mut r = FilePath::new();
        if start > 0 {
            let prefix = chars_between(&chars, 0, start);
            assert(prefix@ =~= rel@.take(start as int));
            r.push_part(Part::Prefix(string_of(prefix.as_slice())));
            assert(r@ =~= seq![PartView::Prefix(rel@.take(start as int))]);
        } else if !rooted {
            r = self.clone();
        } else if self.parts.len() > 0 {
            if let Part::Prefix(s) = &self.parts[0] {
                r.push_part(Part::Prefix(text(s.as_str())));
                assert(r@ =~= seq![self@[0]]);
            }
        }
        if rooted {
            r.push_part(Part::Root);
        } else if dot {
            let bare = if r.parts.len() == 1 {
                assert(r@[0] == r.parts@[0]@);
                match &r.parts[0] {
                    Part::Prefix(_) => true,
                    _ => false,
                }
            } else {
                r.parts.len() == 0
            };
            if bare {
                r.push_part(Part::Current);
            }
        }
        assert(r@ =~= joined_head(self@, rel@));
        r.push_names(&chars, start);
        r
    }

    fn push_names(&mut self, chars: &Vec<char>, start: usize)
        requires
            start <= chars@.len(),
        ensures
            final(self)@ == old(self)@ + text_parts(chars@, start as int),
    {
        let mut from: usize = start;
        let ghost all = text_parts(chars@, start as int);
        let ghost head = self@;
        while from < chars.len()
            invariant
                from <= chars@.len(),
                head + all == self@ + text_parts(chars@, from as int),
            decreases chars@.len() - from,
        {
            let end: usize = find_separator(chars, from);
            let segment = chars_between(chars, from, end);
            let ghost before = self@;
            self.push_segment(&segment);
            proof {
                if end < chars@.len() {
                    assert(before + (segment_parts(segment@) + text_parts(chars@, end + 1)) =~= (
                    before + segment_parts(segment@)) + text_parts(chars@, end + 1));
                } else {
                    assert((before + segment_parts(segment@)) + Seq::<PartView>::empty() =~= before
                        + segment_parts(segment@));
                }
            }
            if end < chars.len() {
                from = end + 1;
            } else {
                from = end;
            }
        }
        assert(self@ + Seq::<PartView>::empty() =~= self@);
    }

    fn push_segment(&mut self, segment: &Vec<char>)
        ensures
            final(self)@ == old(self)@ + segment_parts(segment@),
    {
        let n: usize = segment.len();
        let ghost before = self@;
        proof {
            if segment@.len() == 1 && segment@[0] == '.' {
                assert(segment@ =~= seq!['.']);
            }
            if segment@.len() == 2 && segment@[0] == '.' && segment@[1] == '.' {
                assert(segment@ =~= seq!['.', '.']);
            }
        }
        if n == 0 || (n == 1 && segment[0] == '.') {
            assert(before + Seq::<PartView>::empty() =~= before);
        } else if n == 2 && segment[0] == '.' && segment[1] == '.' {
            self.push_part(Part::Parent);
            assert(self@ =~= before + seq![PartView::Parent]);
        } else {
            proof {
                assert(segment@ != seq!['.']) by {
                    if segment@ == seq!['.'] {
                        assert(segment@.len() == 1 && segment@[0] == '.');
                    }
                }
                assert(segment@ != seq!['.', '.']) by {
                    if segment@ == seq!['.', '.'] {
                        assert(segment@.len() == 2 && segment@[0] == '.' && segment@[1] == '.');
                    }
                }
            }
            self.push_part(Part::Normal(string_of(segment.as_slice())));
            assert(self@ =~= before + seq![PartView::Normal(segment@)]);
        }
    }

    pub fn new() -> (r: Self)
        ensures
            r@ == Seq::<PartView>::empty(),
    {
        let r = FilePath { parts: Vec::new() };
        assert(r@ =~= Seq::<PartView>::empty());
        r
    }

    /// The path to `name`, which is a single name, in this directory.
    pub fn join(&self, name: &str) -> (r: Self)
        ensures
            r@ == self@.push(PartView::Normal(name@)),
    {
        let mut r = self.clone();
        r.push_part(Part::Normal(text(name)));
        assert(r@ =~= self@.push(PartView::Normal(name@)));
        r
    }

    /// The path to what `rel` denotes in this directory.
    pub fn join_path(&self, rel: &FilePath) -> (r: Self)
        requires
            rel@.len() > 0 ==> rel@[0] is Normal || rel@[0] is Parent,
        ensures
            r@ == self@ + rel@,
    {
        let mut r = self.clone();
        let mut i: usize = 0;
        while i < rel.parts.len()
            invariant
                i <= rel.parts@.len(),
                r@ =~= self@ + rel@.take(i as int),
            decreases rel.parts@.len() - i,
        {
            r.push_part(rel.parts[i].clone());
            i = i + 1;
        }
        assert(rel@.take(i as int) =~= rel@);
        r
    }

    pub fn file_name(&self) -> (r: Option<String>)
        ensures
            match r {
                Some(s) => file_name_of(self@) == Some(s@),
                None => file_name_of(self@) is None,
            },
    {
        if self.parts.len() == 0 {
            return None;
        }
        match &self.parts[self.parts.len() - 1] {
            Part::Normal(s) => Some(text(s.as_str())),
            _ => None,
        }
    }

    pub fn file_stem(&self) -> (r: Option<String>)
        ensures
            match r {
                Some(s) => file_stem_of(self@) == Some(s@),
                None => file_stem_of(self@) is None,
            },
    {
        match self.file_name() {
            Some(name) => Some(file_stem(name.as_str())),
            None => None,
        }
    }

    /// The directory that holds what the path denotes. A root has none.
    pub fn parent(&self) -> (r: Option<FilePath>)
        ensures
            match r {
                Some(p) => parent_of(self@) == Some(p@),
                None => parent_of(self@) is None,
            },
    {
        if self.parts.len() == 0 {
            return None;
        }
        match &self.parts[self.parts.len() - 1] {
            Part::Prefix(_) => {
                return None;
            },
            Part::Root => {
                return None;
            },
            _ => {},
        }
        let mut r = self.clone();
        let ghost before = r@;
        let _ = r.parts.pop();
        assert(r@ =~= before.drop_last());
        Some(r)
    }

    pub fn extension(&self) -> (r: Option<String>)
        ensures
            option_text(r) == path_extension(self@),
    {
        match self.file_name() {
            Some(name) => extension(name.as_str()),
            None => None,
        }
    }

    pub fn with_extension(&self, ext: &str) -> (r: Self)
        ensures
            r@ == with_extension_of(self@, ext@),
    {
        let mut r = self.clone();
        match self.file_stem() {
            Some(stem) => {
                let ghost base = stem@;
                let mut name = stem;
                name.push('.');
                push_text(&mut name, ext);
                assert(name@ =~= base + seq!['.'] + ext@);
                let ghost before = r@;
                let _ = r.parts.pop();
                assert(r@ =~= before.drop_last());
                r.push_part(Part::Normal(name));
                assert(r@ =~= with_extension_of(self@, ext@));
            },
            None => {},
        }
        r
    }

    /// The path below `base`; `None` where it does not lie under `base`.
    pub fn strip_prefix(&self, base: &FilePath) -> (r: Option<FilePath>)
        ensures
            match r {
                Some(p) => is_under(self@, base@) && p@ == self@.skip(base@.len() as int),
                None => !is_under(self@, base@),
            },
    {
        if base.parts.len() > self.parts.len() {
            return None;
        }
        let mut i: usize = 0;
        while i < base.parts.len()
            invariant
                i <= base.parts@.len(),
                base.parts@.len() <= self.parts@.len(),
                forall|j: int| 0 <= j < i ==> part_key(self@[j]) == part_key(base@[j]),
            decreases base.parts@.len() - i,
        {
            if !self.parts[i].same(&base.parts[i]) {
                assert(path_key(self@).take(base@.len() as int)[i as int] == part_key(
                    self@[i as int],
                ));
                assert(path_key(base@)[i as int] == part_key(base@[i as int]));
                return None;
            }
            i = i + 1;
        }
        assert(path_key(self@).take(base@.len() as int) =~= path_key(base@));
        let mut r = FilePath { parts: Vec::new() };
        while i < self.parts.len()
            invariant
                base.parts@.len() <= i <= self.parts@.len(),
                r@ =~= self@.subrange(base@.len() as int, i as int),
            decreases self.parts@.len() - i,
        {
            r.push_part(self.parts[i].clone());
            i = i + 1;
        }
        assert(r@ =~= self@.skip(base@.len() as int));
        Some(r)
    }

    /// The path as text, with slashes.
    pub fn to_text(&self) -> (r: String)
        ensures
            r@ == path_text(self@),
    {
        let mut out = String::new();
        let mut i: usize = 0;
        assert(self@.take(0) =~= Seq::empty());
        while i < self.parts.len()
            invariant
                i <= self.parts@.len(),
                out@ == path_text(self@.take(i as int)),
            decreases self.parts@.len() - i,
        {
            let ghost before = out@;
            let slash = match &self.parts[i] {
                Part::Root => true,
                _ => {
                    if i == 0 {
                        false
                    } else {
                        match &self.parts[i - 1] {
                            Part::Root => false,
                            Part::Prefix(_) => false,
                            _ => true,
                        }
                    }
                },
            };
            if slash {
                out.push('/');
            }
            match &self.parts[i] {
                Part::Prefix(s) => {
                    push_text(&mut out, s.as_str());
                },
                Part::Root => {},
                Part::Current => {
                    out.push('.');
                },
                Part::Parent => {
                    out.push('.');
                    out.push('.');
                },
                Part::Normal(s) => {
                    push_text(&mut out, s.as_str());
                },
            }
            i = i + 1;
            proof {
                let now = self@.take(i as int);
                assert(now.drop_last() =~= self@.take(i - 1));
                assert(now.last() == self.parts@[i - 1]@);
                assert(out@ =~= path_text(now));
            }
        }
        assert(self@.take(i as int) =~= self@);
        out
    }
}

/// The extension of a file name.
pub fn extension(name: &str) -> (r: Option<String>)
    ensures
        option_text(r) == extension_of(name@),
{
    let chars = chars_of(name);
    let mut n: usize = chars.len();
    while n > 0 && chars[n - 1] != '.'
        invariant
            n <= chars@.len(),
            last_dot(chars@, chars@.len() as int) == last_dot(chars@, n as int),
        decreases n,
    {
        n = n - 1;
    }
    if n <= 1 {
        return None;
    }
    let tail = chars_between(&chars, n, chars.len());
    assert(tail@ =~= name@.skip(n as int));
    Some(string_of(tail.as_slice()))
}

/// A file name without its extension.
pub fn file_stem(name: &str) -> (r: String)
    ensures
        r@ == stem_of(name@),
{
    let chars = chars_of(name);
    let mut n: usize = chars.len();
    while n > 0 && chars[n - 1] != '.'
        invariant
            n <= chars@.len(),
            last_dot(chars@, chars@.len() as int) == last_dot(chars@, n as int),
        decreases n,
    {
        n = n - 1;
    }
    if n <= 1 {
        return text(name);
    }
    let head = chars_between(&chars, 0, n - 1);
    assert(head@ =~= name@.take(n - 1));
    string_of(head.as_slice())
}

} // verus!
