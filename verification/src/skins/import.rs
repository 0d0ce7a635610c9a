//! Taking mods into the library, under names that are safe in paths and
//! addresses.

use super::library::{skin_id, skin_stem};
use super::state::{renamed, SkinState};
use crate::data_dragon::{is_alphanumeric, is_alphanumeric_char};
use crate::paths::{
    file_name_of, file_stem_of, joined, last_dot, path_extension, stem_of, text_parts, FilePath,
    PartView, PathView,
};
use crate::text::{
    chars_between, chars_of, concat, decimal, decimal_text, ends_with, has_suffix, lower,
    lower_char, push_text, same_text, string_of, text, to_lower, to_lower_char,
};
use vstd::prelude::*;

verus! {

/// `s` in small letters, with each run of other characters than ASCII letters
/// and digits made one dash.
pub open spec fn dashed(s: Seq<char>) -> Seq<char>
    decreases s.len(),
{
    if s.len() == 0 {
        Seq::empty()
    } else {
        let before = s.drop_last();
        if is_alphanumeric(s.last()) {
            dashed(before).push(lower_char(s.last()))
        } else if before.len() > 0 && !is_alphanumeric(before.last()) {
            dashed(before)
        } else {
            dashed(before).push('-')
        }
    }
}

/// `s` without dashes at its start.
pub open spec fn trim_dashes_start(s: Seq<char>) -> Seq<char>
    decreases s.len(),
{
    if s.len() > 0 && s[0] == '-' {
        trim_dashes_start(s.skip(1))
    } else {
        s
    }
}

/// `s` without dashes at its end.
pub open spec fn trim_dashes_end(s: Seq<char>) -> Seq<char>
    decreases s.len(),
{
    if s.len() > 0 && s.last() == '-' {
        trim_dashes_end(s.drop_last())
    } else {
        s
    }
}

/// The stem under which a mod with the given stem is kept.
pub open spec fn kept_stem(stem: Seq<char>) -> Seq<char> {
    let s = trim_dashes_end(trim_dashes_start(dashed(stem)));
    if s.len() == 0 {
        "skin"@
    } else {
        s
    }
}

/// The stem of a file name, which may be a whole path.
pub open spec fn raw_stem(filename: Seq<char>) -> Seq<char> {
    match file_stem_of(joined(Seq::empty(), filename)) {
        Some(s) => s,
        None => "skin"@,
    }
}

/// The file name under which a mod is kept.
pub open spec fn kept_name(filename: Seq<char>) -> Seq<char> {
    kept_stem(raw_stem(filename)) + ".fantome"@
}

fn dash(stem: &str) -> (r: Vec<char>)
    ensures
        r@ == dashed(stem@),
{
    let chars = chars_of(stem);
    let mut out: Vec<char> = Vec::new();
    let mut last_was_sep = false;
    let mut i: usize = 0;
    assert(stem@.take(0) =~= Seq::empty());
    while i < chars.len()
        invariant
            i <= chars@.len(),
            chars@ == stem@,
            out@ == dashed(stem@.take(i as int)),
            last_was_sep == (i > 0 && !is_alphanumeric(stem@[i - 1])),
        decreases chars@.len() - i,
    {
        let c: char = chars[i];
        proof {
            let now = stem@.take(i + 1);
            assert(now.drop_last() =~= stem@.take(i as int));
            if i > 0 {
                assert(now.drop_last().last() == stem@[i - 1]);
            }
        }
        if is_alphanumeric_char(c) {
            out.push(to_lower_char(c));
            last_was_sep = false;
        } else {
            if !last_was_sep {
                out.push('-');
            }
            last_was_sep = true;
        }
        i = i + 1;
    }
    assert(stem@.take(i as int) =~= stem@);
    out
}

fn keep_stem(stem: &str) -> (r: String)
    ensures
        r@ == kept_stem(stem@),
{
    let chars = dash(stem);
    let mut from: usize = 0;
    assert(chars@.skip(0) =~= chars@);
    while from < chars.len() && chars[from] == '-'
        invariant
            from <= chars@.len(),
            trim_dashes_start(chars@) == trim_dashes_start(chars@.skip(from as int)),
        decreases chars@.len() - from,
    {
        assert(chars@.skip(from as int).skip(1) =~= chars@.skip(from + 1));
        from = from + 1;
    }
    let ghost start = trim_dashes_start(chars@);
    assert(start == chars@.skip(from as int));
    let mut to: usize = chars.len();
    assert(chars@.subrange(from as int, to as int) =~= start);
    while to > from && chars[to - 1] == '-'
        invariant
            from <= to <= chars@.len(),
            trim_dashes_end(start) == trim_dashes_end(chars@.subrange(from as int, to as int)),
        decreases to,
    {
        assert(chars@.subrange(from as int, to as int).drop_last() =~= chars@.subrange(
            from as int,
            to - 1,
        ));
        to = to - 1;
    }
    if from >= to {
        return text("skin");
    }
    string_of(chars_between(&chars, from, to).as_slice())
}

/// The file name under which a mod is kept: small letters, digits and dashes.
pub fn normalize_import_filename(filename: &str) -> (r: String)
    ensures
        r@ == kept_name(filename@),
{
    let path = FilePath::new().join_text(filename);
    let stem = match path.file_stem() {
        Some(s) => keep_stem(s.as_str()),
        None => keep_stem("skin"),
    };
    concat(stem.as_str(), ".fantome")
}

/// Whether a stem is one under which a mod is kept: small letters, digits and
/// dashes, with no dash at either end or next to another.
pub open spec fn is_kept_stem(s: Seq<char>) -> bool {
    &&& s.len() > 0
    &&& forall|i: int| 0 <= i < s.len() ==> #[trigger] is_kept_char(s[i])
    &&& s[0] != '-'
    &&& s.last() != '-'
    &&& forall|i: int| 0 < i < s.len() && #[trigger] s[i] == '-' ==> s[i - 1] != '-'
}

pub open spec fn is_kept_char(c: char) -> bool {
    'a' <= c <= 'z' || '0' <= c <= '9' || c == '-'
}

/// Whether text is made of small letters, digits and single dashes.
pub open spec fn is_dashed(s: Seq<char>) -> bool {
    &&& forall|i: int| 0 <= i < s.len() ==> #[trigger] is_kept_char(s[i])
    &&& forall|i: int| 0 < i < s.len() && #[trigger] s[i] == '-' ==> s[i - 1] != '-'
}

proof fn lemma_dashed(s: Seq<char>)
    ensures
        is_dashed(dashed(s)),
        s.len() > 0 ==> (dashed(s).len() > 0 && (dashed(s).last() == '-') == !is_alphanumeric(
            s.last(),
        )),
    decreases s.len(),
{
    if s.len() > 0 {
        let before = s.drop_last();
        lemma_dashed(before);
        let was = dashed(before);
        let now = dashed(s);
        assert(is_alphanumeric(s.last()) ==> is_kept_char(lower_char(s.last())) && lower_char(
            s.last(),
        ) != '-');
        assert(is_kept_char('-'));
        assert forall|i: int| 0 <= i < now.len() implies #[trigger] is_kept_char(now[i]) by {
            if i < was.len() {
                assert(now[i] == was[i]);
                assert(is_kept_char(was[i]));
            }
        }
        assert forall|i: int| 0 < i < now.len() && #[trigger] now[i] == '-' implies now[i - 1]
            != '-' by {
            if i < was.len() {
                assert(now[i] == was[i] && now[i - 1] == was[i - 1]);
            } else {
                assert(was.last() == now[i - 1]);
            }
        }
    }
}

proof fn lemma_trim_start(s: Seq<char>)
    requires
        is_dashed(s),
    ensures
        is_dashed(trim_dashes_start(s)),
        trim_dashes_start(s).len() > 0 ==> trim_dashes_start(s)[0] != '-',
    decreases s.len(),
{
    if s.len() > 0 && s[0] == '-' {
        let rest = s.skip(1);
        assert forall|i: int| 0 <= i < rest.len() implies #[trigger] is_kept_char(rest[i]) by {
            assert(rest[i] == s[i + 1]);
            assert(is_kept_char(s[i + 1]));
        }
        assert forall|i: int| 0 < i < rest.len() && #[trigger] rest[i] == '-' implies rest[i - 1]
            != '-' by {
            assert(rest[i] == s[i + 1]);
        }
        lemma_trim_start(rest);
    }
}

proof fn lemma_trim_end(s: Seq<char>)
    requires
        is_dashed(s),
        s.len() > 0 ==> s[0] != '-',
    ensures
        is_dashed(trim_dashes_end(s)),
        trim_dashes_end(s).len() > 0 ==> trim_dashes_end(s)[0] != '-' && trim_dashes_end(s).last()
            != '-',
    decreases s.len(),
{
    if s.len() > 0 && s.last() == '-' {
        let rest = s.drop_last();
        assert forall|i: int| 0 <= i < rest.len() implies #[trigger] is_kept_char(rest[i]) by {
            assert(is_kept_char(s[i]));
        }
        assert forall|i: int| 0 < i < rest.len() && #[trigger] rest[i] == '-' implies rest[i - 1]
            != '-' by {
            assert(rest[i] == s[i]);
        }
        lemma_trim_end(rest);
    }
}

/// The stem under which a mod is kept is safe: small letters, digits and single
/// dashes within.
pub proof fn law_kept_stem(stem: Seq<char>)
    ensures
        is_kept_stem(kept_stem(stem)),
{
    lemma_dashed(stem);
    lemma_trim_start(dashed(stem));
    lemma_trim_end(trim_dashes_start(dashed(stem)));
    if trim_dashes_end(trim_dashes_start(dashed(stem))).len() == 0 {
        reveal_strlit("skin");
        let s = "skin"@;
        assert(s[0] == 's' && s[1] == 'k' && s[2] == 'i' && s[3] == 'n');
        assert forall|i: int| 0 <= i < s.len() implies #[trigger] is_kept_char(s[i]) by {}
    }
}

proof fn lemma_dashed_same(s: Seq<char>)
    requires
        is_dashed(s),
    ensures
        dashed(s) == s,
    decreases s.len(),
{
    if s.len() > 0 {
        let before = s.drop_last();
        assert forall|i: int| 0 <= i < before.len() implies #[trigger] is_kept_char(before[i]) by {
            assert(is_kept_char(s[i]));
        }
        assert forall|i: int| 0 < i < before.len() && #[trigger] before[i] == '-' implies before[i
            - 1] != '-' by {
            assert(before[i] == s[i]);
        }
        lemma_dashed_same(before);
        let last = s[s.len() - 1];
        assert(is_kept_char(last));
        if before.len() > 0 {
            assert(is_kept_char(before[before.len() - 1]));
            assert(before.last() == s[s.len() - 2]);
        }
        assert(dashed(s) =~= s);
    } else {
        assert(dashed(s) =~= s);
    }
}

/// A stem under which a mod is kept stays as it is.
pub proof fn law_kept_stem_stays(s: Seq<char>)
    requires
        is_kept_stem(s),
    ensures
        kept_stem(s) == s,
{
    lemma_dashed_same(s);
}

proof fn lemma_no_separator(s: Seq<char>, i: int)
    requires
        0 <= i <= s.len(),
        forall|k: int| 0 <= k < s.len() ==> !crate::paths::is_separator(#[trigger] s[k]),
    ensures
        crate::paths::first_separator(s, i) == s.len(),
    decreases s.len() - i,
{
    if i < s.len() {
        lemma_no_separator(s, i + 1);
    }
}

proof fn lemma_last_dot(s: Seq<char>, n: int, at: int)
    requires
        0 <= at < n <= s.len(),
        s[at] == '.',
        forall|k: int| at < k < n ==> #[trigger] s[k] != '.',
    ensures
        last_dot(s, n) == Some(at),
    decreases n,
{
    if n - 1 > at {
        lemma_last_dot(s, n - 1, at);
    }
}

/// The name under which a mod is kept is kept as it is, and its stem is the one
/// that was chosen.
pub proof fn law_kept_name_stays(filename: Seq<char>)
    ensures
        raw_stem(kept_name(filename)) == kept_stem(raw_stem(filename)),
        kept_name(kept_name(filename)) == kept_name(filename),
{
    let stem = kept_stem(raw_stem(filename));
    law_kept_stem(raw_stem(filename));
    law_kept_stem_stays(stem);
    lemma_stem_of_kept(stem);
}

proof fn lemma_stem_of_kept(stem: Seq<char>)
    requires
        is_kept_stem(stem),
    ensures
        raw_stem(stem + ".fantome"@) == stem,
        stem_of(stem + ".fantome"@) == stem,
{
    reveal_strlit(".fantome");
    let name = stem + ".fantome"@;
    let n = stem.len() as int;
    assert forall|k: int| 0 <= k < name.len() implies !crate::paths::is_separator(
        #[trigger] name[k],
    ) by {
        if k < n {
            assert(name[k] == stem[k]);
            assert(is_kept_char(stem[k]));
        } else {
            assert(name[k] == ".fantome"@[k - n]);
        }
    }
    lemma_no_separator(name, 0);
    assert(name.subrange(0, name.len() as int) =~= name);
    assert(name.len() > 2);
    assert(text_parts(name, 0) =~= seq![PartView::Normal(name)]);
    assert(name[0] == stem[0] && is_kept_char(stem[0]));
    assert(name[1] != ':') by {
        if n > 1 {
            assert(name[1] == stem[1] && is_kept_char(stem[1]));
        } else {
            assert(name[1] == ".fantome"@[0]);
        }
    }
    assert(!crate::paths::is_separator(name[0]));
    assert(crate::paths::prefix_len(name) == 0);
    assert(joined(Seq::empty(), name) =~= seq![PartView::Normal(name)]);
    assert(name[n] == '.');
    assert forall|k: int| n < k < name.len() implies #[trigger] name[k] != '.' by {
        assert(name[k] == ".fantome"@[k - n]);
    }
    lemma_last_dot(name, name.len() as int, n);
    assert(name.take(n) =~= stem);
}

/// Whether a file may be imported by its name, whatever the case of its letters.
pub fn has_fantome_suffix(filename: &str) -> (r: bool)
    ensures
        r == has_suffix(lower(filename@), ".fantome"@),
{
    ends_with(to_lower(filename).as_str(), ".fantome")
}

/// Why a file is not imported.
#[derive(Debug, Clone, Copy, PartialEq, Eq, Structural)]
pub enum ImportError {
    NotAFile,
    /// The name does not end in `.fantome`.
    NotFantome,
}

/// The name under which a file is imported, or why it is not.
pub open spec fn imported_name(path: PathView, is_file: bool) -> Result<Seq<char>, ImportError> {
    if !is_file {
        Err(ImportError::NotAFile)
    } else if path_extension(path) != Some("fantome"@) {
        Err(ImportError::NotFantome)
    } else {
        Ok(kept_name(file_name_of(path)->0))
    }
}

/// The name under which a file that a user chose is imported.
pub fn import_name(path: &FilePath, is_file: bool) -> (r: Result<String, ImportError>)
    ensures
        match r {
            Ok(name) => imported_name(path@, is_file) == Ok::<Seq<char>, ImportError>(name@),
            Err(e) => imported_name(path@, is_file) == Err::<Seq<char>, ImportError>(e),
        },
{
    if !is_file {
        return Err(ImportError::NotAFile);
    }
    let file_name = match path.file_name() {
        Some(n) => n,
        None => {
            return Err(ImportError::NotFantome);
        },
    };
    let fits = match path.extension() {
        Some(ext) => same_text(ext.as_str(), "fantome"),
        None => false,
    };
    if fits {
        Ok(normalize_import_filename(file_name.as_str()))
    } else {
        Err(ImportError::NotFantome)
    }
}

/// The name under which a file whose content was handed over is imported. Here
/// the case of letters in its name does not count.
pub fn import_bytes_name(filename: &str) -> (r: Result<String, ImportError>)
    ensures
        match r {
            Ok(name) => has_suffix(lower(filename@), ".fantome"@) && name@ == kept_name(filename@),
            Err(e) => !has_suffix(lower(filename@), ".fantome"@) && e == ImportError::NotFantome,
        },
{
    if has_fantome_suffix(filename) {
        Ok(normalize_import_filename(filename))
    } else {
        Err(ImportError::NotFantome)
    }
}

/// The name of a file in the library, for the given attempt: the name itself,
/// then the stem with a number.
pub open spec fn attempt_name(filename: Seq<char>, attempt: int) -> Seq<char> {
    if attempt <= 0 {
        filename
    } else {
        raw_stem(filename) + " ("@ + decimal_text(attempt) + ").fantome"@
    }
}

fn attempt(filename: &str, n: u32) -> (r: String)
    ensures
        r@ == attempt_name(filename@, n as int),
{
    if n == 0 {
        return text(filename);
    }
    let path = FilePath::new().join_text(filename);
    let mut out = match path.file_stem() {
        Some(s) => s,
        None => text("skin"),
    };
    push_text(&mut out, " (");
    push_text(&mut out, decimal(n as u64).as_str());
    push_text(&mut out, ").fantome");
    out
}

/// The last attempt at a free name.
pub const MAX_ATTEMPT: u32 = 0x7FFF_FFFF;

/// Where an attempt at a free name lies.
pub open spec fn attempt_path(skins_dir: PathView, filename: Seq<char>, n: int) -> PathView {
    joined(skins_dir, attempt_name(filename, n))
}

/// A free place in the library for a file: the first of the attempts at which
/// `present` finds nothing. `None` where all are taken.
pub fn pick_dest<F: Fn(&FilePath) -> bool>(skins_dir: &FilePath, filename: &str, present: F) -> (r:
    Option<FilePath>)
    requires
        forall|p: &FilePath| call_requires(present, (p,)),
    ensures
        match r {
            Some(dest) => exists|n: int|
                0 <= n <= MAX_ATTEMPT && dest@ == #[trigger] attempt_path(
                    skins_dir@,
                    filename@,
                    n,
                ) && call_ensures(present, (&dest,), false) && forall|k: int|
                    0 <= k < n ==> is_taken(
                        present,
                        #[trigger] attempt_path(skins_dir@, filename@, k),
                    ),
            None => forall|k: int|
                0 <= k <= MAX_ATTEMPT ==> is_taken(
                    present,
                    #[trigger] attempt_path(skins_dir@, filename@, k),
                ),
        },
{
    let mut n: u32 = 0;
    while n <= MAX_ATTEMPT
        invariant
            n <= MAX_ATTEMPT + 1,
            forall|p: &FilePath| call_requires(present, (p,)),
            forall|k: int|
                0 <= k < n ==> is_taken(
                    present,
                    #[trigger] attempt_path(skins_dir@, filename@, k),
                ),
        decreases MAX_ATTEMPT + 1 - n,
    {
        let dest = skins_dir.join_text(attempt(filename, n).as_str());
        assert(dest@ == attempt_path(skins_dir@, filename@, n as int));
        let taken = present(&dest);
        assert(call_ensures(present, (&dest,), taken));
        if !taken {
            return Some(dest);
        }
        assert(is_taken(present, attempt_path(skins_dir@, filename@, n as int)));
        n = n + 1;
    }
    None
}

/// Whether `present` found something at a path.
pub open spec fn is_taken<F: Fn(&FilePath) -> bool>(present: F, path: PathView) -> bool {
    exists|p: FilePath| p@ == path && #[trigger] call_ensures(present, (&p,), true)
}

/// A file of the library that is to be renamed.
pub struct Rename {
    pub old_id: String,
    /// The name that it is to have, if that is free.
    pub name: String,
}

/// The name that a file of the library is to have, where it has another.
pub open spec fn wanted_name(path: PathView) -> Option<Seq<char>> {
    match skin_id(path) {
        None => None,
        Some(id) => {
            let name = kept_name(file_name_of(path)->0);
            if id == raw_stem(name) {
                None
            } else {
                Some(name)
            }
        },
    }
}

/// Bringing the files of the library under the names that are given to mods
/// now, and their state with them.
pub struct Migration {
    pub state: SkinState,
    /// Whether the state is to be saved.
    pub changed: bool,
}

impl Migration {
    pub fn start(state: SkinState) -> (r: Self)
        ensures
            r.state == state,
            !r.changed,
    {
        Migration { state, changed: false }
    }

    /// Whether a file is to be renamed.
    pub fn plan(&self, path: &FilePath) -> (r: Option<Rename>)
        ensures
            match r {
                Some(p) => wanted_name(path@) == Some(p.name@) && skin_id(path@) == Some(
                    p.old_id@,
                ),
                None => wanted_name(path@) is None,
            },
    {
        let old_id = match skin_stem(path) {
            Some(s) => s,
            None => {
                return None;
            },
        };
        let file_name = match path.file_name() {
            Some(n) => n,
            None => {
                return None;
            },
        };
        let name = normalize_import_filename(file_name.as_str());
        let renamed = FilePath::new().join_text(name.as_str());
        let stem = match renamed.file_stem() {
            Some(s) => s,
            None => text("skin"),
        };
        if same_text(old_id.as_str(), stem.as_str()) {
            None
        } else {
            Some(Rename { old_id, name })
        }
    }

    /// Takes note that a file was renamed: its state goes with it.
    pub fn done(&mut self, old_id: &str, new_id: &str)
        ensures
            final(self).state@ == renamed(old(self).state@, old_id@, new_id@),
            final(self).changed,
    {
        self.state.rename_id(old_id, new_id);
        self.changed = true;
    }
}

/// Files that have the names that are given to mods now are left alone.
pub proof fn law_migration_settles(path: PathView, filename: Seq<char>)
    requires
        path.len() > 0,
        path.last() == PartView::Normal(kept_name(filename)),
    ensures
        wanted_name(path) is None,
{
    let stem = kept_stem(raw_stem(filename));
    law_kept_stem(raw_stem(filename));
    lemma_stem_of_kept(stem);
    law_kept_name_stays(filename);
    assert(file_name_of(path) == Some(kept_name(filename)));
    assert(file_stem_of(path) == Some(stem));
}

/// What is done with the image of a skin that was renamed.
#[derive(Debug, Clone, Copy, PartialEq, Eq, Structural)]
pub enum ImageMove {
    Leave,
    /// Rename it, after removing what is in its new place where `replace` says
    /// so.
    Move { replace: bool },
}

/// What is done with the image of a skin that was renamed.
pub fn soft_rename_preview(old_id: &str, new_id: &str, old_exists: bool, new_exists: bool) -> (r:
    ImageMove)
    ensures
        r == (if !old_exists || old_id@ == new_id@ {
            ImageMove::Leave
        } else {
            ImageMove::Move { replace: new_exists }
        }),
{
    if !old_exists || same_text(old_id, new_id) {
        ImageMove::Leave
    } else {
        ImageMove::Move { replace: new_exists }
    }
}

/// Every attempt at a free name is another name.
pub proof fn law_attempts_differ(filename: Seq<char>, a: int, b: int)
    requires
        0 < a < b,
    ensures
        attempt_name(filename, a) != attempt_name(filename, b),
        attempt_name(filename, 0) == filename,
        attempt_name(filename, a) == raw_stem(filename) + " ("@ + decimal_text(a) + ").fantome"@,
{
    let start = raw_stem(filename) + " ("@;
    let end = ").fantome"@;
    let x = attempt_name(filename, a);
    let y = attempt_name(filename, b);
    if x == y {
        let n = start.len() as int;
        let k = x.len() - end.len();
        assert(x.subrange(n, k) =~= decimal_text(a));
        assert(y.subrange(n, k) =~= decimal_text(b));
        crate::text::law_decimal_round_trip(a);
        crate::text::law_decimal_round_trip(b);
    }
}

/// A file is imported just where it is one and has the extension of a mod, in small
/// letters; its name is then made one that can be kept.
pub proof fn law_imported(dir: PathView, stem: Seq<char>, path: PathView)
    requires
        stem.len() > 0,
        forall|i: int| 0 <= i < stem.len() ==> stem[i] != '.',
    ensures
        imported_name(dir.push(PartView::Normal(stem + ".fantome"@)), true) == Ok::<
            Seq<char>,
            ImportError,
        >(kept_name(stem + ".fantome"@)),
        imported_name(path, false) is Err,
        imported_name(path, true) is Ok <==> path_extension(path) == Some("fantome"@),
{
    let name = stem + ".fantome"@;
    let p = dir.push(PartView::Normal(name));
    reveal_strlit(".fantome");
    reveal_strlit("fantome");
    assert(name[stem.len() as int] == '.');
    assert forall|i: int| stem.len() < i < name.len() implies name[i] != '.' by {
        assert(name[i] == ".fantome"@[i - stem.len()]);
    }
    lemma_last_dot(name, name.len() as int, stem.len() as int);
    assert(name.skip(stem.len() as int + 1) =~= "fantome"@);
    assert(p.last() == PartView::Normal(name));
}

} // verus!
