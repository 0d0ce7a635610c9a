//! Zip archives, read through the crate `zip`.

use crate::overlay::wad::fantome::{zip_views, ZipEntry, ZipView};
use std::io::{Cursor, Read};
use vstd::prelude::*;
use zip::ZipArchive;

verus! {

#[verifier::external_type_specification]
#[verifier::external_body]
#[verifier::reject_recursive_types(R)]
pub struct ExZipArchive<R>(ZipArchive<R>);

#[verifier::external_type_specification]
#[verifier::external_body]
#[verifier::reject_recursive_types(T)]
pub struct ExCursor<T>(Cursor<T>);

/// The entries of an open archive, in their order: the name, whether it is a
/// directory, and the content where it can be unpacked; `None` for an entry that
/// cannot be opened.
pub uninterp spec fn zip_contents(archive: ZipArchive<Cursor<Vec<u8>>>) -> Seq<
    Option<(Seq<char>, bool, Option<Seq<u8>>)>,
>;

/// The entries of a zip file, as `zip_contents` gives them; `None` where the
/// bytes are no zip file.
pub uninterp spec fn zip_listing(bytes: Seq<u8>) -> Option<
    Seq<Option<(Seq<char>, bool, Option<Seq<u8>>)>>,
>;

/// `zip::ZipArchive::new`, on bytes in memory: what the archive holds is a
/// function of the bytes.
#[verifier::external_body]
fn zip_open(bytes: Vec<u8>) -> (r: Option<ZipArchive<Cursor<Vec<u8>>>>)
    ensures
        match r {
            Some(archive) => zip_listing(bytes@) == Some(zip_contents(archive)),
            None => zip_listing(bytes@) is None,
        },
{
    ZipArchive::new(Cursor::new(bytes)).ok()
}

/// `zip::ZipArchive::len`: the number of entries.
#[verifier::external_body]
fn zip_len(archive: &ZipArchive<Cursor<Vec<u8>>>) -> (r: usize)
    ensures
        r == zip_contents(*archive).len(),
{
    archive.len()
}

/// `zip::ZipArchive::by_index`, and `name`, `is_dir` and `read_to_end` of the
/// file that it gives: the entry at a position. The archive stays as it is.
#[verifier::external_body]
fn zip_entry(archive: &mut ZipArchive<Cursor<Vec<u8>>>, i: usize) -> (r: Option<ZipEntry>)
    requires
        i < zip_contents(*old(archive)).len(),
    ensures
        zip_contents(*final(archive)) == zip_contents(*old(archive)),
        match r {
            Some(e) => zip_contents(*old(archive))[i as int] == Some(
                (e@.name, e@.is_dir, e@.body),
            ),
            None => zip_contents(*old(archive))[i as int] is None,
        },
{
    let mut file = archive.by_index(i).ok()?;
    let mut body = Vec::new();
    let read = file.read_to_end(&mut body);
    Some(ZipEntry {
        name: file.name().to_string(),
        is_dir: file.is_dir(),
        body: read.ok().map(|_| body),
    })
}

/// The entries at the first `n` positions of a listing that can be opened.
pub open spec fn opened_upto(
    listing: Seq<Option<(Seq<char>, bool, Option<Seq<u8>>)>>,
    n: int,
) -> Seq<ZipView>
    decreases n,
{
    if n <= 0 {
        Seq::empty()
    } else {
        match listing[n - 1] {
            Some((name, is_dir, body)) => opened_upto(listing, n - 1).push(
                ZipView { name, is_dir, body },
            ),
            None => opened_upto(listing, n - 1),
        }
    }
}

/// The entries of a listing that can be opened.
pub open spec fn opened(listing: Seq<Option<(Seq<char>, bool, Option<Seq<u8>>)>>) -> Seq<ZipView> {
    opened_upto(listing, listing.len() as int)
}

/// Whether `i` is the first position of a listing at which the entry cannot be
/// opened.
pub open spec fn first_closed(
    listing: Seq<Option<(Seq<char>, bool, Option<Seq<u8>>)>>,
    i: int,
) -> bool {
    &&& 0 <= i < listing.len()
    &&& listing[i] is None
    &&& forall|j: int| 0 <= j < i ==> #[trigger] listing[j] is Some
}

/// What a zip file holds.
pub struct ZipFile {
    /// The entries that can be opened.
    pub entries: Vec<ZipEntry>,
    /// The first position of which the entry cannot be opened.
    pub closed: Option<usize>,
}

/// Reads a zip file.
pub fn read_zip(bytes: Vec<u8>) -> (r: Option<ZipFile>)
    ensures
        match r {
            Some(file) => {
                &&& zip_listing(bytes@) is Some
                &&& zip_views(file.entries@) == opened(zip_listing(bytes@)->0)
                &&& match file.closed {
                    Some(i) => first_closed(zip_listing(bytes@)->0, i as int),
                    None => forall|i: int|
                        0 <= i < zip_listing(bytes@)->0.len() ==> #[trigger] zip_listing(
                            bytes@,
                        )->0[i] is Some,
                }
            },
            None => zip_listing(bytes@) is None,
        },
{
    let ghost all = zip_listing(bytes@);
    let mut archive = match zip_open(bytes) {
        Some(archive) => archive,
        None => {
            return None;
        },
    };
    let ghost listing = all->0;
    let n: usize = zip_len(&archive);
    let mut entries: Vec<ZipEntry> = Vec::new();
    let mut closed: Option<usize> = None;
    let mut i: usize = 0;
    assert(zip_views(entries@) =~= Seq::<ZipView>::empty());
    while i < n
        invariant
            i <= n,
            n == listing.len(),
            zip_contents(archive) == listing,
            zip_views(entries@) == opened_upto(listing, i as int),
            match closed {
                Some(k) => k < i && first_closed(listing, k as int),
                None => forall|j: int| 0 <= j < i ==> #[trigger] listing[j] is Some,
            },
        decreases n - i,
    {
        match zip_entry(&mut archive, i) {
            Some(entry) => {
                let ghost before = entries@;
                entries.push(entry);
                assert(zip_views(entries@) =~= zip_views(before).push(entry@));
            },
            None => {
                if closed.is_none() {
                    closed = Some(i);
                }
            },
        }
        i = i + 1;
    }
    Some(ZipFile { entries, closed })
}

/// The entries of a zip file of which all can be opened are all its entries, in
/// order.
pub proof fn law_opened(listing: Seq<Option<(Seq<char>, bool, Option<Seq<u8>>)>>, n: int)
    requires
        0 <= n <= listing.len(),
        forall|i: int| 0 <= i < listing.len() ==> #[trigger] listing[i] is Some,
    ensures
        opened_upto(listing, n).len() == n,
        forall|i: int|
            0 <= i < n ==> (#[trigger] opened_upto(listing, n)[i]) == (ZipView {
                name: (listing[i]->0).0,
                is_dir: (listing[i]->0).1,
                body: (listing[i]->0).2,
            }),
        n == listing.len() ==> opened(listing) == opened_upto(listing, n),
    decreases n,
{
    if n > 0 {
        law_opened(listing, n - 1);
        let before = opened_upto(listing, n - 1);
        let now = opened_upto(listing, n);
        assert(listing[n - 1] is Some);
        assert forall|i: int| 0 <= i < n implies (#[trigger] now[i]) == (ZipView {
            name: (listing[i]->0).0,
            is_dir: (listing[i]->0).1,
            body: (listing[i]->0).2,
        }) by {
            if i < n - 1 {
                assert(now[i] == before[i]);
            }
        }
    }
}

} // verus!
