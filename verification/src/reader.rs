//! Reading an archive: parsing the header, indexing its records by path, and
//! serving each file's bytes.

use crate::error::FsError;
use crate::format::{
    has_preamble, header_records, lemma_records_upto_none, magic, read_u16, read_u32, read_u64,
    record_at, records_upto, stated_count, Record,
};
use vstd::hash_map::StringHashMap;
use vstd::prelude::*;
use vstd::slice::{slice_subrange, slice_to_vec};
use vstd::utf8::*;

verus! {

/// A record as it is read from a header, its path still in bytes.
#[derive(Debug)]
pub struct RawEntry {
    pub path: Vec<u8>,
    pub size: u64,
    pub data_offset: u64,
}

impl View for RawEntry {
    type V = Record;

    open spec fn view(&self) -> Record {
        Record { path: self.path@, size: self.size, data_offset: self.data_offset }
    }
}

/// The records that `entries` stand for, in order.
pub open spec fn records_of(entries: Seq<RawEntry>) -> Seq<Record> {
    Seq::new(entries.len(), |i: int| entries[i]@)
}

/// Reads the header that `bytes` opens with: the records in the order in
/// which they stand. Fails where `bytes` does not open with the magic and a
/// count, or ends before the last record that the count announces.
pub fn parse_header(bytes: &[u8]) -> (r: Result<Vec<RawEntry>, FsError>)
    ensures
        match r {
            Ok(entries) => header_records(bytes@) == Some(records_of(entries@)),
            Err(e) => e == FsError::InvalidArchive && header_records(bytes@) is None,
        },
{
    let len = bytes.len();
    if len < 8 {
        return Err(FsError::InvalidArchive);
    }
    if bytes[0] != 0x49u8 || bytes[1] != 0x4eu8 || bytes[2] != 0x46u8 || bytes[3] != 0x53u8 {
        assert(bytes@.subrange(0, 4)[0] == bytes@[0]);
        assert(bytes@.subrange(0, 4)[1] == bytes@[1]);
        assert(bytes@.subrange(0, 4)[2] == bytes@[2]);
        assert(bytes@.subrange(0, 4)[3] == bytes@[3]);
        return Err(FsError::InvalidArchive);
    }
    assert(bytes@.subrange(0, 4) =~= magic());
    let count = read_u32(bytes, 4) as usize;
    let room = (len - 8) / 18;
    let mut entries: Vec<RawEntry> = Vec::with_capacity(if count < room { count } else { room });
    let mut pos: usize = 8;
    let mut i: usize = 0;
    while i < count
        invariant
            i <= count,
            count == stated_count(bytes@),
            has_preamble(bytes@),
            len == bytes@.len(),
            pos <= len,
            records_upto(bytes@, i as nat) == Some((records_of(entries@), pos as int)),
        decreases count - i,
    {
        if len - pos < 2 {
            proof {
                assert(record_at(bytes@, pos as int) is None);
                assert(records_upto(bytes@, (i + 1) as nat) is None);
                lemma_records_upto_none(bytes@, (i + 1) as nat, count as nat);
            }
            return Err(FsError::InvalidArchive);
        }
        let path_len = read_u16(bytes, pos) as usize;
        if len - pos - 2 < path_len + 16 {
            proof {
                assert(record_at(bytes@, pos as int) is None);
                assert(records_upto(bytes@, (i + 1) as nat) is None);
                lemma_records_upto_none(bytes@, (i + 1) as nat, count as nat);
            }
            return Err(FsError::InvalidArchive);
        }
        let path_end = pos + 2 + path_len;
        let path = slice_to_vec(slice_subrange(bytes, pos + 2, path_end));
        let size = read_u64(bytes, path_end);
        let data_offset = read_u64(bytes, path_end + 8);
        let entry = RawEntry { path, size, data_offset };
        proof {
            assert(record_at(bytes@, pos as int) == Some(entry@));
            assert(records_of(entries@.push(entry)) =~= records_of(entries@).push(entry@));
        }
        entries.push(entry);
        pos = path_end + 16;
        i += 1;
    }
    Ok(entries)
}

/// What a reader knows of one file: its path as text, its size and the
/// offset of its content.
pub struct EntryView {
    pub path: Seq<char>,
    pub size: u64,
    pub data_offset: u64,
}

/// One file of an opened archive.
pub struct FsEntry {
    pub path: String,
    pub size: u64,
    pub data_offset: u64,
}

impl View for FsEntry {
    type V = EntryView;

    open spec fn view(&self) -> EntryView {
        EntryView { path: self.path@, size: self.size, data_offset: self.data_offset }
    }
}

impl FsEntry {
    /// The file under `path` whose `size` bytes of content start at
    /// `data_offset`.
    pub fn new(path: String, size: u64, data_offset: u64) -> (entry: Self)
        ensures
            entry@ == (EntryView { path: path@, size, data_offset }),
    {
        FsEntry { path, size, data_offset }
    }
}

/// The text that stands for path bytes that are not UTF-8: what
/// `String::from_utf8_lossy` makes of them.
pub uninterp spec fn lossy_text(bytes: Seq<u8>) -> Seq<char>;

/// The text of a path that a record holds as `bytes`: the text that they
/// encode where they are UTF-8, and a lossy reading of them where not.
pub open spec fn path_text(bytes: Seq<u8>) -> Seq<char> {
    if valid_utf8(bytes) {
        decode_utf8(bytes)
    } else {
        lossy_text(bytes)
    }
}

/// Calls `String::from_utf8_lossy`. Bytes that are UTF-8 come back as the
/// text that they encode; of other bytes the contract only names the result.
#[verifier::external_body]
fn decode_lossy(bytes: &[u8]) -> (text: String)
    ensures
        valid_utf8(bytes@) ==> text@ == decode_utf8(bytes@),
        !valid_utf8(bytes@) ==> text@ == lossy_text(bytes@),
{
    String::from_utf8_lossy(bytes).into_owned()
}

/// The entry that a reader keeps for the record `r`.
pub open spec fn entry_of(r: Record) -> EntryView {
    EntryView { path: path_text(r.path), size: r.size, data_offset: r.data_offset }
}

/// The entries of the records `rs`, in order.
pub open spec fn entries_of(rs: Seq<Record>) -> Seq<EntryView> {
    Seq::new(rs.len(), |i: int| entry_of(rs[i]))
}

/// Whether the content of `e` lies inside an archive of `len` bytes.
pub open spec fn in_bounds(e: EntryView, len: nat) -> bool {
    e.data_offset + e.size <= len
}

/// Whether the content of each of `es` lies inside an archive of `len` bytes.
pub open spec fn all_in_bounds(es: Seq<EntryView>, len: nat) -> bool {
    forall|i: int| 0 <= i < es.len() ==> in_bounds(#[trigger] es[i], len)
}

/// The index over `es`: each path with its entry, a later entry replacing an
/// earlier one of the same path.
pub open spec fn index_of(es: Seq<EntryView>) -> Map<Seq<char>, EntryView>
    decreases es.len(),
{
    if es.len() == 0 {
        Map::empty()
    } else {
        index_of(es.drop_last()).insert(es.last().path, es.last())
    }
}

/// The paths of `es`, each once, in the order in which they first occur.
pub open spec fn listing_of(es: Seq<EntryView>) -> Seq<Seq<char>>
    decreases es.len(),
{
    if es.len() == 0 {
        Seq::empty()
    } else {
        let before = listing_of(es.drop_last());
        if before.contains(es.last().path) {
            before
        } else {
            before.push(es.last().path)
        }
    }
}

/// An opened archive: the index, the paths in listing order and the bytes.
pub struct FsView {
    pub index: Map<Seq<char>, EntryView>,
    pub listing: Seq<Seq<char>>,
    pub bytes: Seq<u8>,
}

impl FsView {
    /// The content of the file under `path`, if there is one.
    pub open spec fn content(self, path: Seq<char>) -> Option<Seq<u8>> {
        if self.index.contains_key(path) {
            let e = self.index[path];
            Some(self.bytes.subrange(e.data_offset as int, e.data_offset + e.size))
        } else {
            None
        }
    }

    /// What holds of every reader: each entry stands under its own path and
    /// its content lies inside the archive, and the listing holds the paths
    /// of the index, each once.
    pub open spec fn wf(self) -> bool {
        &&& forall|p: Seq<char>| #[trigger]
            self.index.contains_key(p) ==> self.index[p].path == p && in_bounds(
                self.index[p],
                self.bytes.len(),
            )
        &&& self.listing.no_duplicates()
        &&& forall|p: Seq<char>| #[trigger]
            self.listing.contains(p) <==> self.index.contains_key(p)
    }
}

/// The reader over the entries `es` and the archive `bytes`.
pub open spec fn view_of(es: Seq<EntryView>, bytes: Seq<u8>) -> FsView {
    FsView { index: index_of(es), listing: listing_of(es), bytes }
}

/// What opening `bytes` gives: a reader over the records of its header, if
/// the header can be read and the content of every record lies inside
/// `bytes`.
pub open spec fn opened(bytes: Seq<u8>) -> Option<FsView> {
    match header_records(bytes) {
        None => None,
        Some(rs) => if all_in_bounds(entries_of(rs), bytes.len()) {
            Some(view_of(entries_of(rs), bytes))
        } else {
            None
        },
    }
}

/// Whether entry `i` is the last of `es` under the path `p`.
pub open spec fn last_under(es: Seq<EntryView>, i: int, p: Seq<char>) -> bool {
    &&& 0 <= i < es.len()
    &&& es[i].path == p
    &&& forall|j: int| i < j < es.len() ==> (#[trigger] es[j]).path != p
}

/// A path that a listing lacks can be added behind it: the listing still
/// holds each path once, and holds the new path besides the old ones.
pub proof fn lemma_push_fresh(listing: Seq<Seq<char>>, path: Seq<char>)
    requires
        listing.no_duplicates(),
        !listing.contains(path),
    ensures
        listing.push(path).no_duplicates(),
        forall|p: Seq<char>| #[trigger]
            listing.push(path).contains(p) <==> listing.contains(p) || p == path,
{
    let longer = listing.push(path);
    assert forall|p: Seq<char>| #[trigger]
        longer.contains(p) <==> listing.contains(p) || p == path by {
        if longer.contains(p) {
            let i = choose|i: int| 0 <= i < longer.len() && longer[i] == p;
            if i < listing.len() {
                assert(listing[i] == p);
            }
        }
        if listing.contains(p) {
            let i = choose|i: int| 0 <= i < listing.len() && listing[i] == p;
            assert(longer[i] == p);
        }
        if p == path {
            assert(longer[listing.len() as int] == p);
        }
    }
    assert forall|i: int, j: int|
        0 <= i < longer.len() && 0 <= j < longer.len() && i != j implies longer[i]
        != longer[j] by {
        if i == listing.len() {
            assert(listing[j] == longer[j]);
        } else if j == listing.len() {
            assert(listing[i] == longer[i]);
        }
    }
}

/// The index holds a path where an entry has it, and holds under it the
/// last entry that has it.
pub proof fn law_index_keeps_last(es: Seq<EntryView>, p: Seq<char>)
    ensures
        index_of(es).contains_key(p) <==> exists|i: int|
            0 <= i < es.len() && (#[trigger] es[i]).path == p,
        index_of(es).contains_key(p) <==> exists|i: int| #[trigger] last_under(es, i, p),
        forall|i: int| #[trigger] last_under(es, i, p) ==> index_of(es)[p] == es[i],
    decreases es.len(),
{
    if es.len() > 0 {
        let before = es.drop_last();
        let last = es.len() - 1;
        law_index_keeps_last(before, p);
        if es.last().path == p {
            assert(last_under(es, last, p));
            assert forall|i: int| #[trigger] last_under(es, i, p) implies index_of(es)[p]
                == es[i] by {
                if i < last {
                    assert(es[last].path != p);
                }
            }
        } else {
            assert forall|i: int| last_under(es, i, p) == last_under(before, i, p) by {
                if last_under(es, i, p) {
                    assert forall|j: int| i < j < before.len() implies (#[trigger] before[j]).path
                        != p by {
                        assert(es[j].path != p);
                    }
                }
                if last_under(before, i, p) {
                    assert(es[i] == before[i]);
                    assert forall|j: int| i < j < es.len() implies (#[trigger] es[j]).path
                        != p by {
                        if j < last {
                            assert(before[j].path != p);
                        }
                    }
                }
            }
            if index_of(es).contains_key(p) {
                let i = choose|i: int| #[trigger] last_under(before, i, p);
                assert(last_under(es, i, p));
                assert(es[i].path == p);
            }
            if exists|i: int| 0 <= i < es.len() && (#[trigger] es[i]).path == p {
                let i = choose|i: int| 0 <= i < es.len() && (#[trigger] es[i]).path == p;
                assert(before[i].path == p);
            }
            if exists|i: int| #[trigger] last_under(es, i, p) {
                let i = choose|i: int| #[trigger] last_under(es, i, p);
                assert(last_under(before, i, p));
            }
        }
    }
}

/// The listing holds each path once, and holds the paths of the index.
pub proof fn law_listing(es: Seq<EntryView>)
    ensures
        listing_of(es).no_duplicates(),
        forall|p: Seq<char>| #[trigger]
            listing_of(es).contains(p) <==> index_of(es).contains_key(p),
    decreases es.len(),
{
    if es.len() > 0 {
        let before = es.drop_last();
        let path = es.last().path;
        law_listing(before);
        if !listing_of(before).contains(path) {
            lemma_push_fresh(listing_of(before), path);
        }
        assert forall|p: Seq<char>| #[trigger]
            listing_of(es).contains(p) <==> index_of(es).contains_key(p) by {
            assert(listing_of(before).contains(p) <==> index_of(before).contains_key(p));
        }
    } else {
        assert forall|p: Seq<char>| !(#[trigger] listing_of(es).contains(p)) by {}
    }
}

/// The paths of `es`, in order.
pub open spec fn paths_of(es: Seq<EntryView>) -> Seq<Seq<char>> {
    Seq::new(es.len(), |i: int| es[i].path)
}

/// Where no two entries have one path, the listing holds the paths in the
/// order of the entries.
pub proof fn law_listing_order(es: Seq<EntryView>)
    requires
        forall|i: int, j: int|
            0 <= i < es.len() && 0 <= j < es.len() && i != j ==> (#[trigger] es[i]).path != (
            #[trigger] es[j]).path,
    ensures
        listing_of(es) == paths_of(es),
    decreases es.len(),
{
    if es.len() > 0 {
        let before = es.drop_last();
        let last = es.len() - 1;
        assert forall|i: int, j: int|
            0 <= i < before.len() && 0 <= j < before.len() && i != j implies (
        #[trigger] before[i]).path != (#[trigger] before[j]).path by {
            assert(es[i].path != es[j].path);
        }
        law_listing_order(before);
        if listing_of(before).contains(es[last].path) {
            let i = choose|i: int|
                0 <= i < paths_of(before).len() && paths_of(before)[i] == es[last].path;
            assert(es[i].path != es[last].path);
        }
        assert(listing_of(es) =~= paths_of(es));
    } else {
        assert(listing_of(es) =~= paths_of(es));
    }
}

/// A reader over entries whose contents lie inside the archive is well
/// formed.
pub proof fn law_view_wf(es: Seq<EntryView>, bytes: Seq<u8>)
    requires
        all_in_bounds(es, bytes.len()),
    ensures
        view_of(es, bytes).wf(),
{
    let v = view_of(es, bytes);
    law_listing(es);
    assert forall|p: Seq<char>| #[trigger] v.index.contains_key(p) implies v.index[p].path == p
        && in_bounds(v.index[p], v.bytes.len()) by {
        law_index_keeps_last(es, p);
        let i = choose|i: int| #[trigger] last_under(es, i, p);
        assert(v.index[p] == es[i]);
    }
}

/// Whatever opens is well formed, and is a reader over the bytes that were
/// opened.
pub proof fn law_opened_wf(bytes: Seq<u8>)
    ensures
        opened(bytes) matches Some(v) ==> v.wf() && v.bytes == bytes,
{
    if let Some(rs) = header_records(bytes) {
        if all_in_bounds(entries_of(rs), bytes.len()) {
            law_view_wf(entries_of(rs), bytes);
        }
    }
}

/// Bytes whose opening differs from the magic in one byte do not open.
pub proof fn law_damaged_magic(bytes: Seq<u8>, i: int, b: u8)
    requires
        has_preamble(bytes),
        0 <= i < 4,
        b != bytes[i],
    ensures
        !has_preamble(bytes.update(i, b)),
        opened(bytes.update(i, b)) is None,
{
    let damaged = bytes.update(i, b);
    assert(bytes.subrange(0, 4)[i] == bytes[i]);
    assert(damaged.subrange(0, 4)[i] == b);
}

/// Bytes that do not open with the magic do not open.
pub proof fn law_magic_required(bytes: Seq<u8>)
    requires
        bytes.len() < 4 || bytes.subrange(0, 4) != magic(),
    ensures
        opened(bytes) is None,
{
}

/// The views of `entries`, in order.
pub open spec fn views_of(entries: Seq<FsEntry>) -> Seq<EntryView> {
    Seq::new(entries.len(), |i: int| entries[i]@)
}

/// The texts of `paths`, in order.
pub open spec fn texts_of(paths: Seq<String>) -> Seq<Seq<char>> {
    Seq::new(paths.len(), |i: int| paths[i]@)
}

/// A read-only file system over the bytes of one archive.
pub struct IncludeFsInner {
    file_index: StringHashMap<FsEntry>,
    paths: Vec<String>,
    archive_bytes: Vec<u8>,
}

impl View for IncludeFsInner {
    type V = FsView;

    closed spec fn view(&self) -> FsView {
        FsView {
            index: self.file_index@.map_values(|e: FsEntry| e@),
            listing: texts_of(self.paths@),
            bytes: self.archive_bytes@,
        }
    }
}

impl IncludeFsInner {
    #[verifier::type_invariant]
    spec fn inv(self) -> bool {
        self@.wf()
    }

    /// A reader over `entries` and the archive `archive_bytes` that they
    /// describe. Where two entries have one path, the later one is kept.
    /// Fails where the content of an entry does not lie inside the archive.
    pub fn from_entries(entries: Vec<FsEntry>, archive_bytes: Vec<u8>) -> (r: Result<
        Self,
        FsError,
    >)
        ensures
            match r {
                Ok(fs) => {
                    &&& all_in_bounds(views_of(entries@), archive_bytes@.len())
                    &&& fs@ == view_of(views_of(entries@), archive_bytes@)
                },
                Err(e) => {
                    &&& e == FsError::InvalidArchive
                    &&& !all_in_bounds(views_of(entries@), archive_bytes@.len())
                },
            },
    {
        let ghost es = views_of(entries@);
        let len = archive_bytes.len();
        let mut file_index: StringHashMap<FsEntry> = StringHashMap::with_capacity(entries.len());
        let mut paths: Vec<String> = Vec::new();
        for entry in iter: entries
            invariant
                es == views_of(entries@),
                len == archive_bytes@.len(),
                forall|j: int| 0 <= j < iter.index() ==> in_bounds(#[trigger] es[j], len as nat),
                file_index@.map_values(|e: FsEntry| e@) == index_of(es.take(iter.index())),
                texts_of(paths@) == listing_of(es.take(iter.index())),
                (FsView {
                    index: file_index@.map_values(|e: FsEntry| e@),
                    listing: texts_of(paths@),
                    bytes: archive_bytes@,
                }).wf(),
        {
            let ghost i = iter.index();
            assert(entry@ == es[i]);
            let fits = match entry.data_offset.checked_add(entry.size) {
                Some(end) => end <= len as u64,
                None => false,
            };
            if !fits {
                assert(!in_bounds(es[i], len as nat));
                return Err(FsError::InvalidArchive);
            }
            let ghost old_index = file_index@;
            let ghost old_paths = paths@;
            if !file_index.contains_key(entry.path.as_str()) {
                paths.push(entry.path.clone());
            }
            file_index.insert(entry.path.clone(), entry);
            proof {
                let e = es[i];
                let old_view = FsView {
                    index: old_index.map_values(|e: FsEntry| e@),
                    listing: texts_of(old_paths),
                    bytes: archive_bytes@,
                };
                let new_view = FsView {
                    index: file_index@.map_values(|e: FsEntry| e@),
                    listing: texts_of(paths@),
                    bytes: archive_bytes@,
                };
                assert(es.take(i + 1).drop_last() =~= es.take(i));
                assert(es.take(i + 1).last() == e);
                assert(new_view.index =~= old_view.index.insert(e.path, e));
                assert(old_view.index.contains_key(e.path) == old_index.contains_key(e.path));
                if old_view.index.contains_key(e.path) {
                    assert(old_view.listing.contains(e.path));
                    assert(new_view.listing =~= old_view.listing);
                } else {
                    assert(!old_view.listing.contains(e.path));
                    assert(new_view.listing =~= old_view.listing.push(e.path));
                    lemma_push_fresh(old_view.listing, e.path);
                }
                assert forall|p: Seq<char>| #[trigger]
                    new_view.index.contains_key(p) implies new_view.index[p].path == p
                    && in_bounds(new_view.index[p], new_view.bytes.len()) by {
                    if p != e.path {
                        assert(old_view.index.contains_key(p));
                    }
                }
                assert forall|p: Seq<char>| #[trigger]
                    new_view.listing.contains(p) <==> new_view.index.contains_key(p) by {
                    if p != e.path {
                        assert(old_view.listing.contains(p) <==> old_view.index.contains_key(p));
                    }
                }
                assert(new_view.wf());
            }
        }
        assert(es.take(es.len() as int) =~= es);
        Ok(IncludeFsInner { file_index, paths, archive_bytes })
    }

    /// Opens the archive `archive_bytes`: reads its header, takes each path
    /// as text and indexes the records by path. Fails where the bytes do not
    /// open with the magic, end before the header does, or hold a record
    /// whose content does not lie inside them.
    pub fn new(archive_bytes: &[u8]) -> (r: Result<Self, FsError>)
        ensures
            match r {
                Ok(fs) => opened(archive_bytes@) == Some(fs@),
                Err(e) => e == FsError::InvalidArchive && opened(archive_bytes@) is None,
            },
    {
        let raw = match parse_header(archive_bytes) {
            Ok(raw) => raw,
            Err(e) => {
                return Err(e);
            },
        };
        let ghost rs = records_of(raw@);
        let mut entries: Vec<FsEntry> = Vec::with_capacity(raw.len());
        let mut i: usize = 0;
        while i < raw.len()
            invariant
                i <= raw.len(),
                rs == records_of(raw@),
                entries@.len() == i,
                views_of(entries@) == entries_of(rs.take(i as int)),
            decreases raw.len() - i,
        {
            let path = decode_lossy(raw[i].path.as_slice());
            let entry = FsEntry::new(path, raw[i].size, raw[i].data_offset);
            proof {
                assert(entry@ == entry_of(rs[i as int]));
                let longer = entries@.push(entry);
                assert forall|j: int| 0 <= j < longer.len() implies views_of(longer)[j]
                    == entries_of(rs.take(i + 1))[j] by {
                    if j < i {
                        assert(views_of(entries@)[j] == entries_of(rs.take(i as int))[j]);
                    }
                }
                assert(views_of(longer) =~= entries_of(rs.take(i + 1)));
            }
            entries.push(entry);
            i += 1;
        }
        assert(rs.take(raw.len() as int) =~= rs);
        Self::from_entries(entries, slice_to_vec(archive_bytes))
    }

    /// Whether the archive holds a file under `path`.
    pub fn file_exists(&self, path: &str) -> (found: bool)
        ensures
            found == self@.index.contains_key(path@),
    {
        self.file_index.contains_key(path)
    }

    /// The content of the file under `path`, as a view into the archive's
    /// own bytes.
    pub fn get(&self, path: &str) -> (r: Result<&[u8], FsError>)
        ensures
            match r {
                Ok(content) => self@.content(path@) == Some(content@),
                Err(e) => e == FsError::NotFound && self@.content(path@) is None,
            },
    {
        proof {
            use_type_invariant(self);
        }
        match self.file_index.get(path) {
            None => Err(FsError::NotFound),
            Some(entry) => {
                let len = self.archive_bytes.len();
                assert(self@.index.contains_key(path@));
                assert(self@.index[path@] == entry@);
                assert(in_bounds(entry@, len as nat));
                let start = entry.data_offset as usize;
                let end = start + entry.size as usize;
                Ok(slice_subrange(self.archive_bytes.as_slice(), start, end))
            },
        }
    }

    /// What the archive holds under `path`, if anything: the entry that
    /// [`IncludeFsInner::get`] goes by.
    pub fn entry(&self, path: &str) -> (r: Option<&FsEntry>)
        ensures
            match r {
                Some(entry) => self@.index.contains_key(path@) && entry@ == self@.index[path@],
                None => !self@.index.contains_key(path@),
            },
    {
        self.file_index.get(path)
    }

    /// The bytes of the whole archive, header and contents.
    pub fn archive_bytes(&self) -> (bytes: &[u8])
        ensures
            bytes@ == self@.bytes,
    {
        self.archive_bytes.as_slice()
    }

    /// The paths of the archive's files, each once, in the order in which
    /// the header first names them.
    pub fn list_paths(&self) -> (paths: Vec<&str>)
        ensures
            paths@.len() == self@.listing.len(),
            forall|i: int| 0 <= i < paths@.len() ==> (#[trigger] paths@[i])@ == self@.listing[i],
            self@.wf(),
    {
        proof {
            use_type_invariant(self);
        }
        let mut out: Vec<&str> = Vec::with_capacity(self.paths.len());
        let mut i: usize = 0;
        while i < self.paths.len()
            invariant
                i <= self.paths@.len(),
                out@.len() == i,
                forall|j: int| 0 <= j < i ==> (#[trigger] out@[j])@ == self.paths@[j]@,
            decreases self.paths@.len() - i,
        {
            out.push(self.paths[i].as_str());
            i += 1;
        }
        out
    }
}

} // verus!
