//! Mods packed as `.fantome` files, which are zip archives.
//!
//! Under `WAD/` they hold archives, either as files or as directories of loose
//! files, and under `RAW/` loose files of no particular archive.

use super::archive::{
    bare_content, bare_entries, empty_content, numbers_within, read_content, read_error, Archive,
    Content,
};
use super::entry::{bare, raw_entry, Entry, EntryData};
use super::index::{
    bare_mounts, lemma_bare_put, lemma_marked_kept, lemma_put_numbers, unmarked_mounts, Index,
};
use super::marks::{kept, with_new, Marks};
use super::mounted::{
    lemma_kept_new, lemma_none_marked, path_mount_name, unmarked_copy, MountView, Mounted,
    OverlayError,
};
use crate::names::{put, NameMap, Named};
use crate::overlay::hash::{path_hash, xxh64_from_path};
use crate::paths::{joined, FilePath, PartView, PathView};
use crate::text::{
    chars_between, chars_of, copy_bytes, ends_with, find_char, first_of, has_prefix, has_suffix,
    lemma_first_of, same_text, string_of, strip_prefix, text,
};
use crate::zips::{first_closed, opened, read_zip, zip_listing};
use vstd::prelude::*;
use vstd::utf8::encode_utf8;

verus! {

/// What an entry of a zip archive is.
pub struct ZipView {
    pub name: Seq<char>,
    pub is_dir: bool,
    pub body: Option<Seq<u8>>,
}

/// An entry of a zip archive, with its content where it could be read.
pub struct ZipEntry {
    pub name: String,
    pub is_dir: bool,
    pub body: Option<Vec<u8>>,
}

impl View for ZipEntry {
    type V = ZipView;

    open spec fn view(&self) -> ZipView {
        ZipView {
            name: self.name@,
            is_dir: self.is_dir,
            body: match self.body {
                Some(b) => Some(b@),
                None => None,
            },
        }
    }
}

/// The entries that exec entries stand for.
pub open spec fn zip_views(entries: Seq<ZipEntry>) -> Seq<ZipView> {
    entries.map_values(|e: ZipEntry| e@)
}

/// What an entry is to a mod.
pub enum RoleView {
    /// A directory, or a file elsewhere.
    Ignored,
    /// A whole archive file, with its file name.
    Packed(Seq<char>),
    /// A loose file of the archive of this name.
    Loose(Seq<char>),
    /// A loose file of no particular archive.
    Raw,
}

pub enum Role {
    Ignored,
    Packed(String),
    Loose(String),
    Raw,
}

impl View for Role {
    type V = RoleView;

    open spec fn view(&self) -> RoleView {
        match self {
            Role::Ignored => RoleView::Ignored,
            Role::Packed(s) => RoleView::Packed(s@),
            Role::Loose(s) => RoleView::Loose(s@),
            Role::Raw => RoleView::Raw,
        }
    }
}

/// The role of an entry, by its name: `WAD/x.wad.client` is an archive file,
/// `WAD/x.wad.client/y` a loose file `y` of that archive, `RAW/y` a loose file.
pub open spec fn role_of(name: Seq<char>, is_dir: bool) -> RoleView {
    if is_dir {
        RoleView::Ignored
    } else if has_prefix(name, "WAD/"@) {
        let rest = name.skip("WAD/"@.len() as int);
        let slash = first_of(rest, '/', 0);
        if rest.len() == 0 {
            RoleView::Ignored
        } else if slash >= rest.len() {
            if has_suffix(rest, ".wad.client"@) {
                RoleView::Packed(rest)
            } else {
                RoleView::Ignored
            }
        } else if slash + 1 == rest.len() || !has_suffix(rest.take(slash), ".wad.client"@) {
            RoleView::Ignored
        } else {
            RoleView::Loose(rest.take(slash))
        }
    } else if has_prefix(name, "RAW/"@) && name.len() > "RAW/"@.len() {
        RoleView::Raw
    } else {
        RoleView::Ignored
    }
}

/// The place of an archive named `filename` in a mod.
pub open spec fn mod_relpath(filename: Seq<char>) -> PathView {
    joined(seq![PartView::Normal("WAD"@)], filename)
}

/// The mounts with an archive named `filename` added.
pub open spec fn with_mod_archive(
    mounts: Named<MountView>,
    filename: Seq<char>,
    archive: Content,
) -> Named<MountView> {
    let relpath = mod_relpath(filename);
    put(mounts, path_mount_name(relpath), MountView { relpath, archive })
}

/// The mounts of the archive files among the first `n` entries.
pub open spec fn packed_mounts(entries: Seq<ZipView>, n: int) -> Result<
    Named<MountView>,
    OverlayError,
>
    decreases n,
{
    if n <= 0 {
        Ok(Seq::empty())
    } else {
        match packed_mounts(entries, n - 1) {
            Err(e) => Err(e),
            Ok(before) => {
                let entry = entries[n - 1];
                match role_of(entry.name, entry.is_dir) {
                    RoleView::Packed(filename) => match entry.body {
                        None => Err(OverlayError::Unreadable { position: (n - 1) as usize }),
                        Some(body) => match read_error(body) {
                            Some(e) => Err(OverlayError::Wad(e)),
                            None => Ok(with_mod_archive(before, filename, read_content(body))),
                        },
                    },
                    _ => Ok(before),
                }
            },
        }
    }
}

/// The archive made of the loose files with the given role among the first `n`
/// entries. What precedes the path of each in its name is `skip` characters
/// long.
pub open spec fn loose_entries(entries: Seq<ZipView>, role: RoleView, skip: int, n: int) -> Result<
    Map<u64, Entry>,
    OverlayError,
>
    decreases n,
{
    if n <= 0 {
        Ok(Map::empty())
    } else {
        match loose_entries(entries, role, skip, n - 1) {
            Err(e) => Err(e),
            Ok(before) => {
                let entry = entries[n - 1];
                if role_of(entry.name, entry.is_dir) != role {
                    Ok(before)
                } else {
                    match entry.body {
                        None => Err(OverlayError::Unreadable { position: (n - 1) as usize }),
                        Some(body) => Ok(
                            before.insert(
                                path_hash(encode_utf8(entry.name.skip(skip))),
                                raw_entry(body, 0),
                            ),
                        ),
                    }
                }
            },
        }
    }
}

/// The names of the archives that come as loose files among the first `n`
/// entries, in order.
pub open spec fn loose_roots(entries: Seq<ZipView>, n: int) -> Named<()>
    decreases n,
{
    if n <= 0 {
        Seq::empty()
    } else {
        let before = loose_roots(entries, n - 1);
        match role_of(entries[n - 1].name, entries[n - 1].is_dir) {
            RoleView::Loose(root) => put(before, root, ()),
            _ => before,
        }
    }
}

/// How many characters precede the path of a loose file of the archive `root`.
pub open spec fn loose_skip(root: Seq<char>) -> int {
    ("WAD/"@.len() + root.len() + 1) as int
}

/// An archive of loose files.
pub open spec fn loose_content(entries: Map<u64, Entry>) -> Content {
    Content { entries, signature: empty_content().signature }
}

/// `mounts` with the archives of the first `n` names, made of loose files.
pub open spec fn with_loose(
    mounts: Named<MountView>,
    entries: Seq<ZipView>,
    roots: Named<()>,
    n: int,
) -> Result<Named<MountView>, OverlayError>
    decreases n,
{
    if n <= 0 {
        Ok(mounts)
    } else {
        match with_loose(mounts, entries, roots, n - 1) {
            Err(e) => Err(e),
            Ok(before) => {
                let root = roots[n - 1].0;
                match loose_entries(
                    entries,
                    RoleView::Loose(root),
                    loose_skip(root),
                    entries.len() as int,
                ) {
                    Err(e) => Err(e),
                    Ok(archive) => if archive.dom().is_empty() {
                        Ok(before)
                    } else {
                        Ok(with_mod_archive(before, root, loose_content(archive)))
                    },
                }
            },
        }
    }
}

/// `mounts` with the loose files of no particular archive as one of its own.
pub open spec fn with_raw(mounts: Named<MountView>, entries: Seq<ZipView>) -> Result<
    Named<MountView>,
    OverlayError,
> {
    match loose_entries(entries, RoleView::Raw, "RAW/"@.len() as int, entries.len() as int) {
        Err(e) => Err(e),
        Ok(archive) => if archive.dom().is_empty() {
            Ok(mounts)
        } else {
            Ok(with_mod_archive(mounts, "_RAW.wad.client"@, loose_content(archive)))
        },
    }
}

/// The mounts of a mod: its archive files, then its archives of loose files in
/// the order of their names, then its other loose files. Of two with one mount
/// name the later counts.
pub open spec fn fantome_mounts(entries: Seq<ZipView>) -> Result<Named<MountView>, OverlayError> {
    let n = entries.len() as int;
    match packed_mounts(entries, n) {
        Err(e) => Err(e),
        Ok(packed) => {
            let roots = loose_roots(entries, n);
            match with_loose(packed, entries, roots, roots.len() as int) {
                Err(e) => Err(e),
                Ok(mounts) => with_raw(mounts, entries),
            }
        },
    }
}

proof fn lemma_packed_error(entries: Seq<ZipView>, n: int, total: int)
    requires
        0 <= n <= total,
        packed_mounts(entries, n) is Err,
    ensures
        packed_mounts(entries, total) == packed_mounts(entries, n),
    decreases total - n,
{
    if n < total {
        lemma_packed_error(entries, n, total - 1);
    }
}

proof fn lemma_loose_error(entries: Seq<ZipView>, role: RoleView, skip: int, n: int, total: int)
    requires
        0 <= n <= total,
        loose_entries(entries, role, skip, n) is Err,
    ensures
        loose_entries(entries, role, skip, total) == loose_entries(entries, role, skip, n),
    decreases total - n,
{
    if n < total {
        lemma_loose_error(entries, role, skip, n, total - 1);
    }
}

proof fn lemma_with_loose_error(
    mounts: Named<MountView>,
    entries: Seq<ZipView>,
    roots: Named<()>,
    n: int,
    total: int,
)
    requires
        0 <= n <= total,
        with_loose(mounts, entries, roots, n) is Err,
    ensures
        with_loose(mounts, entries, roots, total) == with_loose(mounts, entries, roots, n),
    decreases total - n,
{
    if n < total {
        lemma_with_loose_error(mounts, entries, roots, n, total - 1);
    }
}

/// The role of an entry of a mod.
pub fn classify(name: &str, is_dir: bool) -> (r: Role)
    ensures
        r@ == role_of(name@, is_dir),
{
    if is_dir {
        return Role::Ignored;
    }
    if let Some(rest) = strip_prefix(name, "WAD/") {
        let chars = chars_of(rest.as_str());
        let slash: usize = find_char(&chars, '/');
        if chars.len() == 0 {
            return Role::Ignored;
        }
        if slash >= chars.len() {
            if ends_with(rest.as_str(), ".wad.client") {
                return Role::Packed(rest);
            }
            return Role::Ignored;
        }
        let root_chars = chars_between(&chars, 0, slash);
        assert(root_chars@ =~= rest@.take(slash as int));
        let root = string_of(root_chars.as_slice());
        if slash + 1 == chars.len() || !ends_with(root.as_str(), ".wad.client") {
            return Role::Ignored;
        }
        return Role::Loose(root);
    }
    if let Some(rest) = strip_prefix(name, "RAW/") {
        if !rest.as_str().is_empty() {
            return Role::Raw;
        }
    }
    Role::Ignored
}

/// Whether an entry has the role of a loose file: of the archive `root`, or of
/// no particular one.
fn is_loose_for(entry: &ZipEntry, root: Option<&str>) -> (r: bool)
    ensures
        r == (role_of(entry.name@, entry.is_dir) == match root {
            Some(s) => RoleView::Loose(s@),
            None => RoleView::Raw,
        }),
{
    match (classify(entry.name.as_str(), entry.is_dir), root) {
        (Role::Loose(a), Some(b)) => same_text(a.as_str(), b),
        (Role::Raw, None) => true,
        _ => false,
    }
}

/// The role of the loose files of the archive `root`, or of no particular one,
/// and how many characters precede their paths.
spec fn loose_role(root: Option<&str>) -> (RoleView, int) {
    match root {
        Some(s) => (RoleView::Loose(s@), loose_skip(s@)),
        None => (RoleView::Raw, "RAW/"@.len() as int),
    }
}

fn pack_loose(entries: &Vec<ZipEntry>, root: Option<&str>, marks: &mut Marks) -> (r: Result<
    Archive,
    OverlayError,
>)
    ensures
        kept(old(marks)@, final(marks)@),
        ({
            let (role, skip) = loose_role(root);
            let expected = loose_entries(zip_views(entries@), role, skip, entries@.len() as int);
            match r {
                Ok(a) => expected is Ok && unmarked_copy(
                    a@,
                    loose_content(expected->Ok_0),
                    old(marks)@,
                    final(marks)@,
                ),
                Err(e) => expected == Err::<Map<u64, Entry>, OverlayError>(e),
            }
        }),
{
    let ghost views = zip_views(entries@);
    let ghost (role, skip) = loose_role(root);
    let root_len: usize = match root {
        Some(s) => chars_of(s).len(),
        None => 0,
    };
    let ghost start = marks@;
    let ghost mut given: nat = 0;
    let mut archive = Archive::default();
    let mut i: usize = 0;
    assert(bare_entries(archive@.entries) =~= Map::<u64, Entry>::empty());
    assert(marks@ =~= with_new(start, 0));
    while i < entries.len()
        invariant
            i <= entries@.len(),
            views == zip_views(entries@),
            (role, skip) == loose_role(root),
            root matches Some(s) ==> root_len == s@.len(),
            archive@.signature == empty_content().signature,
            loose_entries(views, role, skip, i as int) == Ok::<Map<u64, Entry>, OverlayError>(
                bare_entries(archive@.entries),
            ),
            start == old(marks)@,
            marks@ == with_new(start, given),
            numbers_within(archive@.entries, start.len(), marks@.len()),
        decreases entries@.len() - i,
    {
        let entry = &entries[i];
        assert(views[i as int] == entry@);
        if is_loose_for(entry, root) {
            match &entry.body {
                None => {
                    proof {
                        lemma_kept_new(start, given);
                        lemma_loose_error(views, role, skip, i + 1, entries@.len() as int);
                    }
                    return Err(OverlayError::Unreadable { position: i });
                },
                Some(body) => {
                    let chars = chars_of(entry.name.as_str());
                    proof {
                        lemma_role_len(entry.name@, entry.is_dir);
                        reveal_strlit("WAD/");
                        reveal_strlit("RAW/");
                    }
                    let n: usize = chars.len();
                    let from: usize = match root {
                        Some(_) => 4 + root_len + 1,
                        None => 4,
                    };
                    let inner = chars_between(&chars, from, n);
                    assert(inner@ =~= entry.name@.skip(skip));
                    let path = string_of(inner.as_slice());
                    let hash: u64 = xxh64_from_path(path.as_str());
                    let ghost before = archive@.entries;
                    let e = EntryData::from_raw(copy_bytes(body), 0, marks);
                    archive.insert(hash, e);
                    assert(bare_entries(archive@.entries) =~= bare_entries(before).insert(
                        hash,
                        bare(e@),
                    ));
                    proof {
                        given = given + 1;
                    }
                    assert(marks@ =~= with_new(start, given));
                },
            }
        }
        i = i + 1;
    }
    proof {
        lemma_kept_new(start, given);
        lemma_none_marked(start, marks@, archive@.entries);
    }
    Ok(archive)
}

/// A loose file has a path.
proof fn lemma_role_len(name: Seq<char>, is_dir: bool)
    ensures
        match role_of(name, is_dir) {
            RoleView::Loose(root) => loose_skip(root) < name.len(),
            RoleView::Raw => "RAW/"@.len() < name.len(),
            _ => true,
        },
{
    if has_prefix(name, "WAD/"@) {
        lemma_first_of(name.skip("WAD/"@.len() as int), '/', 0);
    }
}

/// Adding an archive does not look at numbers.
proof fn lemma_add_copy(
    s: Named<MountView>,
    expected: Named<MountView>,
    filename: Seq<char>,
    c: Content,
    content: Content,
    start: Seq<bool>,
    before: Seq<bool>,
    after: Seq<bool>,
)
    requires
        unmarked_mounts(s, expected, start, before),
        start.len() <= before.len(),
        kept(before, after),
        unmarked_copy(c, content, before, after),
    ensures
        unmarked_mounts(
            with_mod_archive(s, filename, c),
            with_mod_archive(expected, filename, content),
            start,
            after,
        ),
{
    let relpath = mod_relpath(filename);
    let v = MountView { relpath, archive: c };
    lemma_marked_kept(s, start.len(), before, after);
    lemma_bare_put(s, path_mount_name(relpath), v);
    lemma_put_numbers(s, path_mount_name(relpath), v, start.len(), after);
}

fn add_mod_archive(mounts: &mut NameMap<Mounted>, filename: &str, archive: Archive)
    ensures
        final(mounts)@ == with_mod_archive(old(mounts)@, filename@, archive@),
{
    let root = FilePath::new().join("WAD");
    let relpath = root.join_text(filename);
    assert(relpath@ =~= mod_relpath(filename@));
    let mounted = Mounted { relpath, archive };
    let name = mounted.name();
    mounts.insert(name, mounted);
}

/// The first position of a listing at which the entry cannot be opened.
pub open spec fn closed_at(
    listing: Seq<Option<(Seq<char>, bool, Option<Seq<u8>>)>>,
) -> Option<int> {
    if exists|i: int| first_closed(listing, i) {
        Some(choose|i: int| first_closed(listing, i))
    } else {
        None
    }
}

/// The mounts of a mod, from the bytes of its file. Every entry must open, also
/// those that are not part of the mod.
pub open spec fn fantome_file_mounts(bytes: Seq<u8>) -> Result<Named<MountView>, OverlayError> {
    match zip_listing(bytes) {
        None => Err(OverlayError::NotAZip),
        Some(listing) => match closed_at(listing) {
            Some(i) => Err(OverlayError::Unreadable { position: i as usize }),
            None => fantome_mounts(opened(listing)),
        },
    }
}

impl Index {
    /// Builds the index of a mod from the entries of its file.
    pub fn from_entries(name: String, entries: &Vec<ZipEntry>, marks: &mut Marks) -> (r: Result<
        Self,
        OverlayError,
    >)
        ensures
            kept(old(marks)@, final(marks)@),
            match r {
                Ok(index) => {
                    &&& fantome_mounts(zip_views(entries@)) is Ok
                    &&& unmarked_mounts(
                        index@.mounts,
                        fantome_mounts(zip_views(entries@))->Ok_0,
                        old(marks)@,
                        final(marks)@,
                    )
                    &&& index@.name == name@
                },
                Err(e) => fantome_mounts(zip_views(entries@)) == Err::<
                    Named<MountView>,
                    OverlayError,
                >(e),
            },
    {
        let ghost views = zip_views(entries@);
        let ghost total = entries@.len() as int;
        let mut mounts: NameMap<Mounted> = NameMap::new();
        let mut roots: NameMap<()> = NameMap::new();
        let ghost start = marks@;
        let ghost mut expected: Named<MountView> = Seq::empty();
        let mut i: usize = 0;
        assert(bare_mounts(mounts@) =~= expected);
        while i < entries.len()
            invariant
                i <= entries@.len(),
                views == zip_views(entries@),
                total == entries@.len(),
                start == old(marks)@,
                kept(start, marks@),
                unmarked_mounts(mounts@, expected, start, marks@),
                packed_mounts(views, i as int) == Ok::<Named<MountView>, OverlayError>(expected),
                loose_roots(views, i as int) == roots@,
            decreases entries@.len() - i,
        {
            let entry = &entries[i];
            assert(views[i as int] == entry@);
            match classify(entry.name.as_str(), entry.is_dir) {
                Role::Packed(filename) => {
                    match &entry.body {
                        None => {
                            proof {
                                lemma_packed_error(views, i + 1, total);
                            }
                            return Err(OverlayError::Unreadable { position: i });
                        },
                        Some(body) => {
                            let ghost before = mounts@;
                            let ghost m = marks@;
                            let read = Archive::read_from_bytes(body.as_slice(), marks);
                            proof {
                                let n = choose|n: nat| marks@ == #[trigger] with_new(m, n);
                                lemma_kept_new(m, n);
                            }
                            match read {
                                Ok(archive) => {
                                    let ghost c = archive@;
                                    add_mod_archive(&mut mounts, filename.as_str(), archive);
                                    proof {
                                        let content = read_content(body@);
                                        lemma_none_marked(m, marks@, c.entries);
                                        lemma_add_copy(
                                            before,
                                            expected,
                                            filename@,
                                            c,
                                            content,
                                            start,
                                            m,
                                            marks@,
                                        );
                                        expected = with_mod_archive(expected, filename@, content);
                                    }
                                },
                                Err(e) => {
                                    proof {
                                        lemma_packed_error(views, i + 1, total);
                                    }
                                    return Err(OverlayError::Wad(e));
                                },
                            }
                        },
                    }
                },
                Role::Loose(root) => {
                    roots.insert(root, ());
                },
                _ => {},
            }
            i = i + 1;
        }
        let ghost packed = expected;
        let mut k: usize = 0;
        while k < roots.len()
            invariant
                k <= roots@.len(),
                views == zip_views(entries@),
                total == entries@.len(),
                loose_roots(views, total) == roots@,
                packed_mounts(views, total) == Ok::<Named<MountView>, OverlayError>(packed),
                with_loose(packed, views, roots@, k as int) == Ok::<
                    Named<MountView>,
                    OverlayError,
                >(expected),
                start == old(marks)@,
                kept(start, marks@),
                unmarked_mounts(mounts@, expected, start, marks@),
            decreases roots@.len() - k,
        {
            let root = text(roots.key(k).as_str());
            let ghost before = mounts@;
            let ghost m = marks@;
            match pack_loose(entries, Some(root.as_str()), marks) {
                Ok(archive) => {
                    assert(archive.entries@.dom() =~= bare_entries(archive@.entries).dom());
                    if !archive.entries.is_empty() {
                        assert(!bare_entries(archive@.entries).dom().is_empty()) by {
                            if archive.entries@.dom().is_empty() {
                                assert(archive.entries@ =~= Map::empty());
                            }
                        }
                        let ghost c = archive@;
                        add_mod_archive(&mut mounts, root.as_str(), archive);
                        proof {
                            let content = bare_content(c);
                            lemma_add_copy(
                                before,
                                expected,
                                root@,
                                c,
                                content,
                                start,
                                m,
                                marks@,
                            );
                            expected = with_mod_archive(expected, root@, content);
                        }
                    } else {
                        assert(archive.entries@.dom() =~= Set::empty());
                        proof {
                            lemma_marked_kept(before, start.len(), m, marks@);
                        }
                    }
                },
                Err(e) => {
                    proof {
                        lemma_with_loose_error(packed, views, roots@, k + 1, roots@.len() as int);
                    }
                    return Err(e);
                },
            }
            k = k + 1;
        }
        let ghost before = mounts@;
        let ghost m = marks@;
        match pack_loose(entries, None, marks) {
            Ok(archive) => {
                assert(archive.entries@.dom() =~= bare_entries(archive@.entries).dom());
                if !archive.entries.is_empty() {
                    assert(!bare_entries(archive@.entries).dom().is_empty()) by {
                        if archive.entries@.dom().is_empty() {
                            assert(archive.entries@ =~= Map::empty());
                        }
                    }
                    let ghost c = archive@;
                    add_mod_archive(&mut mounts, "_RAW.wad.client", archive);
                    proof {
                        let name = "_RAW.wad.client"@;
                        let content = bare_content(c);
                        lemma_add_copy(before, expected, name, c, content, start, m, marks@);
                        expected = with_mod_archive(expected, name, content);
                    }
                } else {
                    assert(archive.entries@.dom() =~= Set::empty());
                    proof {
                        lemma_marked_kept(before, start.len(), m, marks@);
                    }
                }
            },
            Err(e) => {
                return Err(e);
            },
        }
        Ok(Index { name, mounts })
    }

    /// Builds the index of a mod from the bytes of its `.fantome` file.
    pub fn from_fantome(name: String, bytes: Vec<u8>, marks: &mut Marks) -> (r: Result<
        Self,
        OverlayError,
    >)
        ensures
            kept(old(marks)@, final(marks)@),
            match r {
                Ok(index) => {
                    &&& fantome_file_mounts(bytes@) is Ok
                    &&& unmarked_mounts(
                        index@.mounts,
                        fantome_file_mounts(bytes@)->Ok_0,
                        old(marks)@,
                        final(marks)@,
                    )
                    &&& index@.name == name@
                },
                Err(e) => fantome_file_mounts(bytes@) == Err::<Named<MountView>, OverlayError>(e),
            },
    {
        let ghost listing = zip_listing(bytes@);
        match read_zip(bytes) {
            None => Err(OverlayError::NotAZip),
            Some(file) => match file.closed {
                Some(i) => {
                    proof {
                        let k = choose|k: int| first_closed(listing->0, k);
                        assert(first_closed(listing->0, i as int));
                        if k < i {
                            assert(listing->0[k] is Some);
                        }
                        if i < k {
                            assert(listing->0[i as int] is Some);
                        }
                    }
                    Err(OverlayError::Unreadable { position: i })
                },
                None => {
                    assert(closed_at(listing->0) is None) by {
                        assert forall|k: int| !first_closed(listing->0, k) by {
                            if 0 <= k < listing->0.len() {
                                assert(listing->0[k] is Some);
                            }
                        }
                    }
                    Index::from_entries(name, &file.entries, marks)
                },
            },
        }
    }
}

} // verus!
