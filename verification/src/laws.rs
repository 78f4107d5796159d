//! What holds between building and reading: an archive that was built opens
//! again and gives back each file, and one that has lost bytes does not open.

use crate::builder::{
    accepted, archive_bytes, archive_len, contents_bytes, data_len, descriptors_of, fits,
    header_len, law_archive_len, law_header_len, law_offsets, layout, lemma_content_at,
    lemma_contents_len, lemma_lens_step, path_len, Descriptor, FileView,
};
use crate::format::{
    header_bytes, law_header_round_trip, lemma_records_round_trip, lemma_records_upto_prefix,
    magic, preamble_len, records_upto, stated_count, Record, MAX_PATH_LEN,
};
use crate::reader::{
    all_in_bounds, entries_of, in_bounds, last_under, law_index_keeps_last, law_listing_order,
    opened, paths_of, view_of, EntryView,
};
use vstd::bytes::*;
use vstd::prelude::*;
use vstd::utf8::*;

verus! {

/// Whether no two of `fs` have the same path.
pub open spec fn distinct_paths(fs: Seq<FileView>) -> bool {
    forall|i: int, j: int|
        0 <= i < fs.len() && 0 <= j < fs.len() && i != j ==> (#[trigger] fs[i]).path != (
        #[trigger] fs[j]).path
}

/// Whether one of `fs` has the path `p`.
pub open spec fn has_path(fs: Seq<FileView>, p: Seq<char>) -> bool {
    exists|i: int| 0 <= i < fs.len() && (#[trigger] fs[i]).path == p
}

/// The paths of `fs`, in order.
pub open spec fn file_paths(fs: Seq<FileView>) -> Seq<Seq<char>> {
    Seq::new(fs.len(), |i: int| fs[i].path)
}

/// An archive that was built from files of distinct paths opens again; the
/// reader holds the paths of those files and no others, lists them in the
/// order in which they were given, and gives for each the content that it
/// was built from.
pub proof fn law_round_trip(fs: Seq<FileView>)
    requires
        accepted(descriptors_of(fs)),
        fits(fs),
        distinct_paths(fs),
    ensures
        opened(archive_bytes(fs)) is Some,
        opened(archive_bytes(fs))->0.bytes == archive_bytes(fs),
        forall|p: Seq<char>| #[trigger]
            opened(archive_bytes(fs))->0.index.contains_key(p) <==> has_path(fs, p),
        opened(archive_bytes(fs))->0.listing == file_paths(fs),
        forall|i: int|
            0 <= i < fs.len() ==> opened(archive_bytes(fs))->0.content((#[trigger] fs[i]).path)
                == Some(fs[i].content),
{
    broadcast use {encode_utf8_valid_utf8, encode_utf8_decode_utf8};

    let ds = descriptors_of(fs);
    let rs = layout(ds);
    let contents = contents_bytes(fs);
    let archive = archive_bytes(fs);
    let es = entries_of(rs);
    assert forall|i: int| 0 <= i < rs.len() implies (#[trigger] rs[i]).path.len()
        <= MAX_PATH_LEN by {
        assert(path_len(ds[i]) <= MAX_PATH_LEN);
    }
    law_header_round_trip(rs, contents);
    law_header_len(ds);
    law_archive_len(fs);
    assert forall|i: int| 0 <= i < es.len() implies {
        &&& (#[trigger] es[i]).path == fs[i].path
        &&& es[i].size == fs[i].content.len()
        &&& es[i].data_offset == header_len(ds) + contents_bytes(fs.take(i)).len()
        &&& in_bounds(es[i], archive.len())
    } by {
        law_offsets(ds, i);
        lemma_contents_len(fs, i);
    }
    assert(all_in_bounds(es, archive.len()));
    let v = view_of(es, archive);
    assert(opened(archive) == Some(v));
    assert forall|i: int, j: int|
        0 <= i < es.len() && 0 <= j < es.len() && i != j implies (#[trigger] es[i]).path != (
    #[trigger] es[j]).path by {
        assert(fs[i].path != fs[j].path);
    }
    law_listing_order(es);
    assert(paths_of(es) =~= file_paths(fs));
    assert forall|p: Seq<char>| #[trigger] v.index.contains_key(p) <==> has_path(fs, p) by {
        law_index_keeps_last(es, p);
        if v.index.contains_key(p) {
            let i = choose|i: int| 0 <= i < es.len() && (#[trigger] es[i]).path == p;
            assert(fs[i].path == p);
        }
        if has_path(fs, p) {
            let i = choose|i: int| 0 <= i < fs.len() && (#[trigger] fs[i]).path == p;
            assert(es[i].path == p);
        }
    }
    assert forall|i: int| 0 <= i < fs.len() implies v.content((#[trigger] fs[i]).path) == Some(
        fs[i].content,
    ) by {
        let p = fs[i].path;
        law_index_keeps_last(es, p);
        assert(es[i].path == p);
        assert forall|j: int| i < j < es.len() implies (#[trigger] es[j]).path != p by {
            assert(fs[j].path != fs[i].path);
        }
        assert(last_under(es, i, p));
        assert(v.index[p] == es[i]);
        lemma_content_at(fs, i);
        let start = contents_bytes(fs.take(i)).len() as int;
        let end = start + fs[i].content.len();
        assert(archive.subrange(header_len(ds) + start, header_len(ds) + end) =~= contents.subrange(
            start,
            end,
        ));
    }
}

/// An archive that has lost bytes at its end does not open, wherever it was
/// cut: inside the header, or inside the contents.
pub proof fn law_truncated_archive(fs: Seq<FileView>, n: int)
    requires
        accepted(descriptors_of(fs)),
        fits(fs),
        0 <= n < archive_bytes(fs).len(),
    ensures
        opened(archive_bytes(fs).take(n)) is None,
{
    let ds = descriptors_of(fs);
    let rs = layout(ds);
    let contents = contents_bytes(fs);
    let archive = archive_bytes(fs);
    let short = archive.take(n);
    assert forall|i: int| 0 <= i < rs.len() implies (#[trigger] rs[i]).path.len()
        <= MAX_PATH_LEN by {
        assert(path_len(ds[i]) <= MAX_PATH_LEN);
    }
    law_header_round_trip(rs, contents);
    law_header_len(ds);
    law_archive_len(fs);
    if n >= preamble_len() {
        assert(short.subrange(0, 4) =~= archive.subrange(0, 4));
        assert(short.subrange(4, 8) =~= archive.subrange(4, 8));
        if n < header_len(ds) {
            if records_upto(short, stated_count(short)) is Some {
                lemma_records_upto_prefix(archive, n, stated_count(short));
                lemma_records_round_trip(rs, contents, rs.len() as int);
                assert(rs.take(rs.len() as int) =~= rs);
            }
        } else {
            let kept = contents.take(n - header_len(ds));
            assert(short =~= header_bytes(rs) + kept);
            law_header_round_trip(rs, kept);
            let last = fs.len() - 1;
            if fs.len() == 0 {
                assert(data_len(ds) == 0);
            } else {
                law_offsets(ds, last);
                lemma_lens_step(ds, last);
                assert(ds.take(last + 1) =~= ds);
                let es = entries_of(rs);
                assert(es[last].data_offset + es[last].size == archive_len(ds));
                assert(!in_bounds(es[last], short.len()));
            }
        }
    }
}

/// The archive of no files is the preamble alone, eight bytes with a count
/// of zero, and opens to a reader that holds no path.
pub proof fn law_empty_archive()
    ensures
        archive_bytes(Seq::<FileView>::empty()) == magic() + spec_u32_to_le_bytes(0),
        archive_bytes(Seq::<FileView>::empty()).len() == 8,
        opened(archive_bytes(Seq::<FileView>::empty())) is Some,
        opened(archive_bytes(Seq::<FileView>::empty()))->0.index == Map::<
            Seq<char>,
            EntryView,
        >::empty(),
        opened(archive_bytes(Seq::<FileView>::empty()))->0.listing == Seq::<Seq<char>>::empty(),
{
    let fs = Seq::<FileView>::empty();
    let ds = descriptors_of(fs);
    assert(ds =~= Seq::<Descriptor>::empty());
    assert(layout(ds) =~= Seq::<Record>::empty());
    lemma_auto_spec_u32_to_from_le_bytes();
    assert(archive_bytes(fs) =~= magic() + spec_u32_to_le_bytes(0));
    law_header_round_trip(layout(ds), contents_bytes(fs));
    assert(entries_of(layout(ds)) =~= Seq::<EntryView>::empty());
}

} // verus!
