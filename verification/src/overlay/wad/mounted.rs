//! Archives at their place in a game install or a mod.

use super::archive::{
    all_marked, ascending, bare_content, common_names, empty_content, first_payload_error,
    lemma_listing, lemma_not_taken, lemma_take_next, lists_ascending, named_entries, none_marked,
    numbers_within, overlap_keys, read_content, read_error, Archive, Content,
};
use super::entry::{checksum_of, decompressed, Entry, EntryData};
use super::marks::{kept, lemma_with_marks, lemma_with_new, marked, with_marks, with_new, Marks};
use super::toc::{toc_error, toc_records, LATEST_MAJOR, LATEST_MINOR, Toc, WadError};
use crate::paths::{file_name_of, is_under, FilePath, PathView};
use crate::text::{ends_with, has_suffix, lower, strip_suffix, to_lower, without_suffix};
use vstd::prelude::*;

verus! {

/// Why an overlay could not be built.
#[derive(Debug, Clone, Copy, PartialEq, Eq, Structural)]
pub enum OverlayError {
    /// A file does not lie under the directory that it should.
    NotUnderRoot,
    /// The name of a mod file does not end in `.wad.client`.
    NotWadClient,
    /// A game file of another version than the game accepts.
    UnknownVersion { major: u8, minor: u8 },
    Wad(WadError),
    /// So many files differ between two mounts.
    Conflicts { count: usize },
    /// No base for the mod's mount at this position.
    NoBase { mount: usize },
    /// The bytes of a mod are no zip file.
    NotAZip,
    /// The entry at this position of a list to be read could not be read.
    Unreadable { position: usize },
    /// No game archives were found.
    NoGameFiles,
    /// Nothing is left of a mod without its blocked entries.
    EmptyMod,
    /// No mount of a mod belongs to a game archive.
    NothingWritten,
}

/// What a mount is: an archive at a relative path.
pub struct MountView {
    pub relpath: PathView,
    pub archive: Content,
}

/// An archive at a path relative to a game install or a mod.
pub struct Mounted {
    pub relpath: FilePath,
    pub archive: Archive,
}

impl View for Mounted {
    type V = MountView;

    open spec fn view(&self) -> MountView {
        MountView { relpath: self.relpath@, archive: self.archive@ }
    }
}

impl Clone for Mounted {
    fn clone(&self) -> (r: Self)
        ensures
            r@ == self@,
    {
        Mounted { relpath: self.relpath.clone(), archive: self.archive.clone() }
    }
}

impl Default for Mounted {
    fn default() -> (r: Self)
        ensures
            r@ == (MountView { relpath: Seq::empty(), archive: empty_content() }),
    {
        Mounted { relpath: FilePath::new(), archive: Archive::default() }
    }
}

/// The mount name of a file: its name in small letters, without `.wad.client`
/// or else without `.wad` at its end.
pub open spec fn mount_name(filename: Seq<char>) -> Seq<char> {
    let name = lower(filename);
    if has_suffix(name, ".wad.client"@) {
        without_suffix(name, ".wad.client"@)
    } else {
        without_suffix(name, ".wad"@)
    }
}

/// The mount name of a path; that of the empty name where it has none.
pub open spec fn path_mount_name(p: PathView) -> Seq<char> {
    match file_name_of(p) {
        Some(s) => mount_name(s),
        None => mount_name(Seq::empty()),
    }
}

/// Whether an entry can stand for another of the same name: they have the same
/// payload, or the same content, or any will do.
pub open spec fn reconciles(ours: Entry, theirs: Entry, ignore: bool) -> bool {
    ||| ignore
    ||| checksum_of(ours) == checksum_of(theirs)
    ||| {
        &&& decompressed(ours) is Ok
        &&& decompressed(theirs) is Ok
        &&& checksum_of(decompressed(ours)->Ok_0) == checksum_of(decompressed(theirs)->Ok_0)
    }
}

/// `ours` with every entry that reconciles with its counterpart replaced by
/// it.
pub open spec fn reconciled(ours: Map<u64, Entry>, theirs: Map<u64, Entry>, ignore: bool) -> Map<
    u64,
    Entry,
> {
    Map::new(
        |n: u64| ours.contains_key(n),
        |n: u64|
            if theirs.contains_key(n) && reconciles(ours[n], theirs[n], ignore) {
                theirs[n]
            } else {
                ours[n]
            },
    )
}

/// How many of the named entries do not reconcile.
pub open spec fn conflict_count(
    ours: Map<u64, Entry>,
    theirs: Map<u64, Entry>,
    ignore: bool,
    names: Seq<u64>,
) -> nat
    decreases names.len(),
{
    if names.len() == 0 {
        0
    } else {
        conflict_count(ours, theirs, ignore, names.drop_last()) + if reconciles(
            ours[names.last()],
            theirs[names.last()],
            ignore,
        ) {
            0nat
        } else {
            1nat
        }
    }
}

/// How many entries of two archives conflict.
pub open spec fn conflicts(a: Content, b: Content, ignore: bool) -> nat {
    conflict_count(a.entries, b.entries, ignore, ascending(common_names(a.entries, b.entries)))
}

/// Why a game file cannot be mounted; `None` where it can.
pub open spec fn game_file_error(path: PathView, game_path: PathView, src: Seq<u8>) -> Option<
    OverlayError,
> {
    if !is_under(path, game_path) {
        Some(OverlayError::NotUnderRoot)
    } else {
        match toc_error(src) {
            Some(e) => Some(OverlayError::Wad(e)),
            None => if src[2] != LATEST_MAJOR || src[3] != LATEST_MINOR {
                Some(OverlayError::UnknownVersion { major: src[2], minor: src[3] })
            } else {
                match first_payload_error(src, toc_records(src), 0) {
                    Some(e) => Some(OverlayError::Wad(e)),
                    None => None,
                }
            },
        }
    }
}

/// What a game file holds. A file without entries is an empty archive.
pub open spec fn game_content(src: Seq<u8>) -> Content {
    if toc_records(src).len() == 0 {
        empty_content()
    } else {
        read_content(src)
    }
}

/// Whether `c` holds what `expected` does, under numbers that were given out
/// between `before` and `after` and are all marked.
pub open spec fn marked_copy(
    c: Content,
    expected: Content,
    before: Seq<bool>,
    after: Seq<bool>,
) -> bool {
    &&& bare_content(c) == expected
    &&& numbers_within(c.entries, before.len(), after.len())
    &&& all_marked(c.entries, after)
}

/// Whether `c` holds what `expected` does, under numbers that were given out
/// between `before` and `after`, none of them marked.
pub open spec fn unmarked_copy(
    c: Content,
    expected: Content,
    before: Seq<bool>,
    after: Seq<bool>,
) -> bool {
    &&& bare_content(c) == expected
    &&& numbers_within(c.entries, before.len(), after.len())
    &&& none_marked(c.entries, after)
}

/// A mount apart from the numbers of its entries.
pub open spec fn bare_mount(m: MountView) -> MountView {
    MountView { relpath: m.relpath, archive: bare_content(m.archive) }
}

/// Giving out numbers keeps the marks of those that were given out.
pub proof fn lemma_kept_new(m: Seq<bool>, n: nat)
    ensures
        kept(m, with_new(m, n)),
        forall|id: nat| m.len() <= id ==> !#[trigger] marked(with_new(m, n), id),
{
    broadcast use lemma_with_new;

}

/// Where no number that is new is marked, no entry with new numbers is marked.
pub proof fn lemma_none_marked(before: Seq<bool>, after: Seq<bool>, m: Map<u64, Entry>)
    requires
        forall|id: nat| before.len() <= id ==> !#[trigger] marked(after, id),
        numbers_within(m, before.len(), after.len()),
    ensures
        none_marked(m, after),
{
}

/// Marking entries with new numbers keeps the marks of the others.
proof fn lemma_kept_marks(start: Seq<bool>, middle: Seq<bool>, c: Content)
    requires
        kept(start, middle),
        numbers_within(c.entries, start.len(), middle.len()),
        exists|names: Seq<u64>| lists_ascending(names, c.entries.dom()),
    ensures
        ({
            let ids = named_entries(c.entries, ascending(c.entries.dom())).map_values(
                |e: Entry| e.id,
            );
            let after = with_marks(middle, ids);
            kept(start, after) && middle.len() <= after.len()
        }),
{
    let names = ascending(c.entries.dom());
    let ids = named_entries(c.entries, names).map_values(|e: Entry| e.id);
    let after = with_marks(middle, ids);
    lemma_with_marks(middle, ids, 0);
    assert forall|id: nat| id < start.len() implies #[trigger] marked(after, id) == marked(
        start,
        id,
    ) by {
        lemma_with_marks(middle, ids, id);
        if ids.contains(id) {
            let i = choose|i: int| 0 <= i < ids.len() && ids[i] == id;
            assert(c.entries.dom().contains(names[i]));
        }
        assert(marked(middle, id) == marked(start, id));
    }
}

impl Mounted {
    /// The mount name of a file name, by which mod archives are matched with
    /// those of the game.
    pub fn make_name(filename: &str) -> (r: String)
        ensures
            r@ == mount_name(filename@),
    {
        let s = to_lower(filename);
        if let Some(stripped) = strip_suffix(s.as_str(), ".wad.client") {
            return stripped;
        }
        if let Some(stripped) = strip_suffix(s.as_str(), ".wad") {
            return stripped;
        }
        s
    }

    pub fn name(&self) -> (r: String)
        ensures
            r@ == path_mount_name(self@.relpath),
    {
        match self.relpath.file_name() {
            Some(filename) => Self::make_name(filename.as_str()),
            None => {
                let none = String::new();
                assert(none@ =~= Seq::<char>::empty());
                Self::make_name(none.as_str())
            },
        }
    }

    /// Mounts the game file at `path` whose bytes are `bytes`. Its entries are
    /// stored the best way, and are marked so.
    pub fn from_game_file(
        path: &FilePath,
        game_path: &FilePath,
        bytes: &[u8],
        marks: &mut Marks,
    ) -> (r: Result<Self, OverlayError>)
        ensures
            match r {
                Ok(m) => {
                    &&& game_file_error(path@, game_path@, bytes@) is None
                    &&& m@.relpath == path@.skip(game_path@.len() as int)
                    &&& marked_copy(
                        m@.archive,
                        game_content(bytes@),
                        old(marks)@,
                        final(marks)@,
                    )
                },
                Err(e) => game_file_error(path@, game_path@, bytes@) == Some(e),
            },
            kept(old(marks)@, final(marks)@),
    {
        let relpath = match path.strip_prefix(game_path) {
            Some(p) => p,
            None => {
                return Err(OverlayError::NotUnderRoot);
            },
        };
        let toc = match Toc::read(bytes) {
            Ok(t) => t,
            Err(e) => {
                return Err(OverlayError::Wad(e));
            },
        };
        if toc.major != LATEST_MAJOR || toc.minor != LATEST_MINOR {
            return Err(OverlayError::UnknownVersion { major: toc.major, minor: toc.minor });
        }
        let ghost start = marks@;
        let archive = if toc.entries.len() == 0 {
            let a = Archive::default();
            assert(bare_content(a@).entries =~= empty_content().entries);
            a
        } else {
            let read = Archive::read_from_toc(bytes, &toc, marks);
            let ghost n = choose|n: nat| marks@ == #[trigger] with_new(start, n);
            let ghost middle = marks@;
            proof {
                lemma_kept_new(start, n);
            }
            match read {
                Ok(a) => {
                    a.mark_optimal(marks);
                    proof {
                        lemma_kept_marks(start, middle, a@);
                    }
                    a
                },
                Err(e) => {
                    return Err(OverlayError::Wad(e));
                },
            }
        };
        Ok(Mounted { relpath, archive })
    }

    /// Mounts the mod file at `path` whose bytes are `bytes`.
    pub fn from_mod_file(
        path: &FilePath,
        mod_path: &FilePath,
        bytes: &[u8],
        marks: &mut Marks,
    ) -> (r: Result<Self, OverlayError>)
        ensures
            match r {
                Ok(m) => {
                    &&& is_under(path@, mod_path@)
                    &&& is_wad_client(path@)
                    &&& read_error(bytes@) is None
                    &&& m@.relpath == path@.skip(mod_path@.len() as int)
                    &&& unmarked_copy(
                        m@.archive,
                        read_content(bytes@),
                        old(marks)@,
                        final(marks)@,
                    )
                },
                Err(e) => e == if !is_under(path@, mod_path@) {
                    OverlayError::NotUnderRoot
                } else if !is_wad_client(path@) {
                    OverlayError::NotWadClient
                } else {
                    OverlayError::Wad(read_error(bytes@)->0)
                } && (is_under(path@, mod_path@) && is_wad_client(path@) ==> read_error(
                    bytes@,
                ) is Some),
            },
            kept(old(marks)@, final(marks)@),
    {
        let relpath = match path.strip_prefix(mod_path) {
            Some(p) => p,
            None => {
                return Err(OverlayError::NotUnderRoot);
            },
        };
        let named = match path.file_name() {
            Some(filename) => ends_with(filename.as_str(), ".wad.client"),
            None => false,
        };
        if !named {
            return Err(OverlayError::NotWadClient);
        }
        let ghost start = marks@;
        let read = Archive::read_from_bytes(bytes, marks);
        proof {
            let n = choose|n: nat| marks@ == #[trigger] with_new(start, n);
            lemma_kept_new(start, n);
            if let Ok(ref a) = read {
                lemma_none_marked(start, marks@, a@.entries);
            }
        }
        match read {
            Ok(archive) => Ok(Mounted { relpath, archive }),
            Err(e) => Err(OverlayError::Wad(e)),
        }
    }

    /// Reconciles the entries that both mounts have. Where two are the same,
    /// as stored or decompressed, or where any will do, this mount takes over
    /// the other's; the rest are conflicts and are counted. What was taken over
    /// stays so even where there are conflicts.
    pub fn resolve_conflicts(&mut self, other: &Mounted, ignore: bool) -> (r: Result<
        (),
        OverlayError,
    >)
        ensures
            final(self)@.relpath == old(self)@.relpath,
            final(self)@.archive.signature == old(self)@.archive.signature,
            final(self)@.archive.entries == reconciled(
                old(self)@.archive.entries,
                other@.archive.entries,
                ignore,
            ),
            r is Ok <==> conflicts(old(self)@.archive, other@.archive, ignore) == 0,
            r matches Err(e) ==> e == (OverlayError::Conflicts {
                count: conflicts(old(self)@.archive, other@.archive, ignore) as usize,
            }),
    {
        let names = overlap_keys(&self.archive.entries, &other.archive.entries);
        let ghost before = self@.archive.entries;
        let ghost theirs = other@.archive.entries;
        let ghost common = common_names(before, theirs);
        assert(common =~= self.archive.entries@.dom().intersect(other.archive.entries@.dom()));
        let mut count: usize = 0;
        let mut i: usize = 0;
        assert(names@.take(0) =~= Seq::empty());
        while i < names.len()
            invariant
                i <= names@.len(),
                count <= i,
                theirs == other@.archive.entries,
                common == common_names(before, theirs),
                lists_ascending(names@, common),
                self@.relpath == old(self)@.relpath,
                self@.archive.signature == old(self)@.archive.signature,
                self@.archive.entries.dom() == before.dom(),
                count == conflict_count(before, theirs, ignore, names@.take(i as int)),
                forall|n: u64| #[trigger]
                    before.contains_key(n) ==> self@.archive.entries[n] == if names@.take(
                        i as int,
                    ).contains(n) && reconciles(before[n], theirs[n], ignore) {
                        theirs[n]
                    } else {
                        before[n]
                    },
            decreases names@.len() - i,
        {
            let name: u64 = names[i];
            assert(common.contains(names@[i as int]));
            assert(before.contains_key(name));
            proof {
                lemma_take_next(names@, i as int);
                lemma_not_taken(names@, i as int, common);
                assert(names@.take(i + 1).drop_last() =~= names@.take(i as int));
            }
            let found: Option<(EntryData, EntryData)> = match (
                self.archive.entries.get(&name),
                other.archive.entries.get(&name),
            ) {
                (Some(a), Some(b)) => Some((a.clone(), b.clone())),
                _ => None,
            };
            if let Some((ours, their)) = found {
                if entry_reconciles(&ours, &their, ignore) {
                    self.archive.insert(name, their);
                } else {
                    count = count + 1;
                }
            }
            i = i + 1;
            assert(self@.archive.entries.dom() =~= before.dom());
        }
        proof {
            lemma_listing(names@, common);
            assert(self@.archive.entries =~= reconciled(before, theirs, ignore));
        }
        if count > 0 {
            return Err(OverlayError::Conflicts { count });
        }
        Ok(())
    }

    /// Removes the entries that `other` does not know, and tells how many they
    /// were.
    pub fn remove_unknown(&mut self, other: &Mounted) -> (r: usize)
        ensures
            final(self)@.relpath == old(self)@.relpath,
            final(self)@.archive.signature == old(self)@.archive.signature,
            final(self)@.archive.entries == old(self)@.archive.entries.restrict(
                other@.archive.entries.dom(),
            ),
            r == old(self)@.archive.entries.dom().len()
                - final(self)@.archive.entries.dom().len(),
    {
        let before: usize = self.archive.entries.len();
        let ghost all = self.archive.entries@;
        let keep = |n: u64, _e: &EntryData| -> (k: bool)
            ensures
                k == other.archive.entries@.contains_key(n),
            { other.archive.entries.contains_key(&n) };
        self.archive.retain(keep);
        proof {
            assert(old(self)@.archive.entries.dom() =~= all.dom());
            assert(self@.archive.entries.dom() =~= self.archive.entries@.dom());
            assert(self@.archive.entries =~= old(self)@.archive.entries.restrict(
                other@.archive.entries.dom(),
            ));
            vstd::set_lib::lemma_len_subset(self.archive.entries@.dom(), all.dom());
        }
        before - self.archive.entries.len()
    }

    /// Removes the entries that are the same in `other`, as stored or
    /// decompressed, and tells how many they were.
    pub fn remove_unmodified(&mut self, other: &Mounted) -> (r: usize)
        ensures
            final(self)@.relpath == old(self)@.relpath,
            final(self)@.archive.signature == old(self)@.archive.signature,
            final(self)@.archive.entries == old(self)@.archive.entries.restrict(
                Set::new(
                    |n: u64|
                        !(other@.archive.entries.contains_key(n) && reconciles(
                            old(self)@.archive.entries[n],
                            other@.archive.entries[n],
                            false,
                        )),
                ),
            ),
            r == old(self)@.archive.entries.dom().len()
                - final(self)@.archive.entries.dom().len(),
    {
        let before: usize = self.archive.entries.len();
        let ghost all = self.archive.entries@;
        let same = |_n: u64, ours: &EntryData, theirs: &EntryData| -> (k: bool)
            ensures
                k == reconciles(ours@, theirs@, false),
            { entry_reconciles(ours, theirs, false) };
        self.archive.erase_overlap(&other.archive, same);
        proof {
            assert(old(self)@.archive.entries.dom() =~= all.dom());
            assert(self@.archive.entries.dom() =~= self.archive.entries@.dom());
            let gone = Set::new(
                |n: u64|
                    !(other@.archive.entries.contains_key(n) && reconciles(
                        old(self)@.archive.entries[n],
                        other@.archive.entries[n],
                        false,
                    )),
            );
            assert forall|n: u64| #[trigger] all.contains_key(n) implies (
            self.archive.entries@.contains_key(n) <==> gone.contains(n)) by {
                assert(old(self)@.archive.entries[n] == all[n]@);
                if other.archive.entries@.contains_key(n) {
                    assert(other@.archive.entries[n] == other.archive.entries@[n]@);
                }
            }
            assert(self@.archive.entries =~= old(self)@.archive.entries.restrict(gone));
            vstd::set_lib::lemma_len_subset(self.archive.entries@.dom(), all.dom());
        }
        before - self.archive.entries.len()
    }
}

/// Whether the file name of a path ends in `.wad.client`.
pub open spec fn is_wad_client(p: PathView) -> bool {
    match file_name_of(p) {
        Some(name) => has_suffix(name, ".wad.client"@),
        None => false,
    }
}

pub fn entry_reconciles(ours: &EntryData, theirs: &EntryData, ignore: bool) -> (r: bool)
    ensures
        r == reconciles(ours@, theirs@, ignore),
{
    if ignore || ours.checksum() == theirs.checksum() {
        return true;
    }
    match (ours.payload().decompress(), theirs.payload().decompress()) {
        (Ok(a), Ok(b)) => a.checksum() == b.checksum(),
        _ => false,
    }
}

} // verus!
