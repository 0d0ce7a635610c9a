//! In what forms entries are stored.

use super::entry::{
    audio, compressed, decompressed, head_of, is_frame_start, lemma_frame_start_unique,
    multi_content, optimized, r3d2_magic, r3d2_other_tags, starts_with, stays, Entry,
};
use super::toc::WadError;
use crate::codecs::{
    gzip_content, zstd_compressed, zstd_content, zstd_input_limit, zstd_stream_head,
};
use vstd::prelude::*;

verus! {

/// What starts with `BKHD` is audio, and so is what starts with `r3d2`, unless
/// `Mesh`, `aims`, `anmd`, `canm`, `sklt`, `blnd` or `wght` follows. Nothing else is.
pub proof fn law_audio(s: Seq<u8>)
    ensures
        s.len() < 4 ==> !audio(s),
        s.len() >= 4 ==> (audio(s) <==> {
            ||| s.take(4) == seq![0x42u8, 0x4B, 0x48, 0x44]
            ||| s.take(4) == seq![0x72u8, 0x33, 0x64, 0x32] && !(s.len() >= 8 && {
                let tag = s.subrange(4, 8);
                ||| tag == seq![0x4Du8, 0x65, 0x73, 0x68]
                ||| tag == seq![0x61u8, 0x69, 0x6D, 0x73]
                ||| tag == seq![0x61u8, 0x6E, 0x6D, 0x64]
                ||| tag == seq![0x63u8, 0x61, 0x6E, 0x6D]
                ||| tag == seq![0x73u8, 0x6B, 0x6C, 0x74]
                ||| tag == seq![0x62u8, 0x6C, 0x6E, 0x64]
                ||| tag == seq![0x77u8, 0x67, 0x68, 0x74]
            })
        }),
{
    let tags = r3d2_other_tags();
    if s.len() >= 8 && s.take(4) == r3d2_magic() {
        let tag = s.subrange(4, 8);
        assert(s.take(8) =~= s.take(4) + tag);
        assert forall|i: int| 0 <= i < tags.len() implies starts_with(
            s,
            r3d2_magic() + #[trigger] tags[i],
        ) == (tag == tags[i]) by {
            let whole = r3d2_magic() + tags[i];
            assert(tags[i].len() == 4);
            if s.take(8) == whole {
                assert(tag =~= tags[i]) by {
                    assert forall|k: int| 0 <= k < 4 implies tag[k] == tags[i][k] by {
                        assert(s.take(8)[4 + k] == whole[4 + k]);
                    }
                }
            }
        }
        assert(tags.len() == 7);
        assert(tags[0] == seq![0x4Du8, 0x65, 0x73, 0x68]);
        assert(tags[1] == seq![0x61u8, 0x69, 0x6D, 0x73]);
        assert(tags[2] == seq![0x61u8, 0x6E, 0x6D, 0x64]);
        assert(tags[3] == seq![0x63u8, 0x61, 0x6E, 0x6D]);
        assert(tags[4] == seq![0x73u8, 0x6B, 0x6C, 0x74]);
        assert(tags[5] == seq![0x62u8, 0x6C, 0x6E, 0x64]);
        assert(tags[6] == seq![0x77u8, 0x67, 0x68, 0x74]);
    } else {
        assert forall|i: int| 0 <= i < tags.len() implies !starts_with(
            s,
            r3d2_magic() + #[trigger] tags[i],
        ) by {
            let whole = r3d2_magic() + tags[i];
            assert(tags[i].len() == 4);
            if s.len() >= 8 && s.take(8) == whole {
                assert(s.take(4) =~= s.take(8).take(4));
                assert(whole.take(4) =~= r3d2_magic());
            }
        }
    }
}

/// The best form of an entry: uncompressed audio and links stay as they are, other
/// uncompressed payloads are put into one frame, frames that hold audio are
/// unpacked, and what is in several frames is put into one or unpacked in the same
/// way.
pub proof fn law_best_forms(e: Entry, o: Entry)
    requires
        optimized(e) == Ok::<Entry, WadError>(o),
    ensures
        e.entry_type is Link ==> o == e,
        e.entry_type is Raw && audio(e.bytes) ==> o == e,
        e.entry_type is Raw && !audio(e.bytes) ==> o.entry_type is Zstd && o.size_decompressed
            == e.size_decompressed && zstd_compressed(e.bytes, 3) == Some(o.bytes),
        e.entry_type is Zstd && audio(head_of(e.bytes, false, 16)->Ok_0) ==> o.entry_type is Raw
            && zstd_content(e.bytes) == Some(o.bytes),
        e.entry_type is Zstd && !audio(head_of(e.bytes, false, 16)->Ok_0) ==> o == e,
        e.entry_type is ZstdMulti && audio(head_of(e.bytes, true, 16)->Ok_0) ==> o.entry_type is Raw
            && multi_content(e.bytes, e.size_decompressed as int) == Ok::<Seq<u8>, WadError>(
            o.bytes,
        ),
        e.entry_type is ZstdMulti && !audio(head_of(e.bytes, true, 16)->Ok_0) ==> o.entry_type
            is Zstd && multi_content(e.bytes, e.size_decompressed as int) is Ok && zstd_compressed(
            multi_content(e.bytes, e.size_decompressed as int)->Ok_0,
            3,
        ) == Some(o.bytes),
        !(e.entry_type is Gzip),
{
}

/// Links have a best form, and so have uncompressed audio and what zstd can compress;
/// gzip has none. What is in a frame has one where its head shows no audio.
pub proof fn law_has_best_form(e: Entry)
    ensures
        e.entry_type is Link ==> optimized(e) is Ok,
        e.entry_type is Gzip ==> optimized(e) is Err,
        e.entry_type is Raw && audio(e.bytes) ==> optimized(e) is Ok,
        e.entry_type is Raw && e.bytes.len() <= zstd_input_limit() && zstd_compressed(e.bytes, 3)
            is Some ==> optimized(e) is Ok,
        e.entry_type is Zstd && head_of(e.bytes, false, 16) is Ok && !audio(
            head_of(e.bytes, false, 16)->Ok_0,
        ) ==> optimized(e) is Ok,
        e.entry_type is Zstd && head_of(e.bytes, false, 16) is Ok && zstd_content(e.bytes) is Some
            && zstd_content(e.bytes)->0.len() <= e.size_decompressed <= isize::MAX ==> optimized(e)
            is Ok,
{
}

/// The entries that are their own best form are those whose best form is the entry
/// itself.
pub proof fn law_stays(e: Entry)
    ensures
        stays(e) <==> optimized(e) == Ok::<Entry, WadError>(e),
{
}

/// A payload of several frames, decompressed, is what stands before the first frame
/// and then what the frames hold, and has just the length that was asked for. One
/// that is frames from its first byte on is what they hold.
pub proof fn law_multi_content(prefix: Seq<u8>, frames: Seq<u8>, total: int)
    requires
        frames.len() > 0,
        is_frame_start(prefix + frames, prefix.len() as int),
        prefix.len() <= total,
    ensures
        zstd_content(frames) is Some && zstd_content(frames)->0.len() == total - prefix.len()
            ==> multi_content(prefix + frames, total) == Ok::<Seq<u8>, WadError>(
            prefix + zstd_content(frames)->0,
        ),
        multi_content(prefix + frames, total) is Ok ==> zstd_content(frames) is Some
            && multi_content(prefix + frames, total)->Ok_0.len() == total,
{
    let s = prefix + frames;
    lemma_frame_start_unique(s);
    assert(s.take(prefix.len() as int) =~= prefix);
    assert(s.skip(prefix.len() as int) =~= frames);
}

/// The head of a payload of several frames starts with what stands before the first
/// frame: all of the head where that is long enough, and what the frames start with
/// behind it where it is not.
pub proof fn law_multi_head(prefix: Seq<u8>, frames: Seq<u8>, max: int)
    requires
        frames.len() > 0,
        is_frame_start(prefix + frames, prefix.len() as int),
        0 < max,
    ensures
        prefix.len() >= max ==> head_of(prefix + frames, true, max) == Ok::<Seq<u8>, WadError>(
            prefix.take(max),
        ),
        prefix.len() < max ==> head_of(prefix + frames, true, max) == match zstd_stream_head(
            frames,
            (max - prefix.len()) as nat,
        ) {
            Some(h) => Ok::<Seq<u8>, WadError>(prefix + h),
            None => Err(WadError::ZstdStream),
        },
        head_of(frames, false, max) == match zstd_stream_head(frames, max as nat) {
            Some(h) => Ok::<Seq<u8>, WadError>(h),
            None => Err(WadError::ZstdStream),
        },
{
    let s = prefix + frames;
    lemma_frame_start_unique(s);
    assert(s.take(prefix.len() as int) =~= prefix);
    assert(s.skip(prefix.len() as int) =~= frames);
    if prefix.len() >= max {
        assert(s.take(max) =~= prefix.take(max));
    }
    assert(frames.skip(0) =~= frames);
    if let Some(h) = zstd_stream_head(frames, max as nat) {
        assert(frames.take(0) + h =~= h);
    }
}

/// Compressing an entry: links and single frames stay; all else becomes the single
/// frame of its content, from gzip too.
pub proof fn law_compressed(e: Entry, z: Entry)
    requires
        compressed(e) == Ok::<Entry, WadError>(z),
    ensures
        e.entry_type is Link || e.entry_type is Zstd ==> z == e,
        !(e.entry_type is Link) ==> z.entry_type is Zstd,
        e.entry_type is Raw ==> zstd_compressed(e.bytes, 3) == Some(z.bytes) && z.size_decompressed
            == e.size_decompressed,
        e.entry_type is Gzip ==> gzip_content(e.bytes) is Some && zstd_compressed(
            gzip_content(e.bytes)->0,
            3,
        ) == Some(z.bytes) && z.size_decompressed == gzip_content(e.bytes)->0.len() as u64,
        e.entry_type is ZstdMulti ==> decompressed(e) is Ok && zstd_compressed(
            decompressed(e)->Ok_0.bytes,
            3,
        ) == Some(z.bytes) && z.size_decompressed == decompressed(e)->Ok_0.bytes.len() as u64,
{
}

/// Decompressing an entry: what is not compressed stays; frames become what they
/// hold, no longer than the entry says; gzip is refused.
pub proof fn law_decompressed(e: Entry, d: Entry)
    requires
        decompressed(e) == Ok::<Entry, WadError>(d),
    ensures
        !(e.entry_type is Gzip),
        e.entry_type is Raw || e.entry_type is Link ==> d == e,
        e.entry_type is Zstd ==> d.entry_type is Raw && zstd_content(e.bytes) == Some(d.bytes)
            && d.bytes.len() <= e.size_decompressed,
        e.entry_type is ZstdMulti ==> d.entry_type is Raw && multi_content(
            e.bytes,
            e.size_decompressed as int,
        ) == Ok::<Seq<u8>, WadError>(d.bytes),
        e.entry_type is Zstd || e.entry_type is ZstdMulti ==> d.size_decompressed
            == d.bytes.len() as u64,
{
}

} // verus!
