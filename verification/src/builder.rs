//! Building an archive: the layout that the builder gives the files, and the
//! functions that write a header and a whole archive.

use crate::error::ArchiveError;
use crate::format::{
    append, header_bytes, lemma_record_bytes_len, lemma_records_bytes_step, magic, preamble_len,
    record_bytes, record_len, records_bytes, Record, MAX_FILE_COUNT, MAX_PATH_LEN,
};
use vstd::bytes::*;
use vstd::prelude::*;
use vstd::slice::slice_to_vec;
use vstd::string::StringExecFns;
use vstd::utf8::*;

verus! {

/// What the builder is told of one file: its path, and how many bytes of
/// content it has.
pub struct Descriptor {
    pub path: Seq<char>,
    pub size: u64,
}

/// A file to be archived, by path and size.
#[derive(Debug)]
pub struct FileEntry {
    pub path: String,
    pub size: u64,
}

impl View for FileEntry {
    type V = Descriptor;

    open spec fn view(&self) -> Descriptor {
        Descriptor { path: self.path@, size: self.size }
    }
}

impl FileEntry {
    /// A file under `path` with `size` bytes of content.
    pub fn new(path: &str, size: u64) -> (entry: Self)
        ensures
            entry@ == (Descriptor { path: path@, size }),
    {
        FileEntry { path: path.to_owned(), size }
    }
}

/// The descriptors of `files`, in order.
pub open spec fn descriptors(files: Seq<FileEntry>) -> Seq<Descriptor> {
    Seq::new(files.len(), |i: int| files[i]@)
}

/// The number of bytes that the path of `d` takes in a record.
pub open spec fn path_len(d: Descriptor) -> nat {
    encode_utf8(d.path).len()
}

/// The length of the header for `ds`: the preamble, and for each file the
/// two length bytes, the path and the two 8-byte fields.
pub open spec fn header_len(ds: Seq<Descriptor>) -> nat
    decreases ds.len(),
{
    if ds.len() == 0 {
        preamble_len()
    } else {
        header_len(ds.drop_last()) + record_len(path_len(ds.last()))
    }
}

/// The sum of the sizes of `ds`.
pub open spec fn data_len(ds: Seq<Descriptor>) -> nat
    decreases ds.len(),
{
    if ds.len() == 0 {
        0
    } else {
        data_len(ds.drop_last()) + ds.last().size as nat
    }
}

/// The length of the whole archive for `ds`: header and contents.
pub open spec fn archive_len(ds: Seq<Descriptor>) -> nat {
    header_len(ds) + data_len(ds)
}

/// The offset at which the content of file `i` starts: behind the header
/// and the contents of the files before it.
pub open spec fn data_offset(ds: Seq<Descriptor>, i: int) -> nat {
    header_len(ds) + data_len(ds.take(i))
}

/// The records that the builder writes for `ds`: one per file, in order,
/// each with the offset of its content.
pub open spec fn layout(ds: Seq<Descriptor>) -> Seq<Record> {
    Seq::new(
        ds.len(),
        |i: int|
            Record {
                path: encode_utf8(ds[i].path),
                size: ds[i].size,
                data_offset: data_offset(ds, i) as u64,
            },
    )
}

/// Whether the count of `ds` and each of its paths fit their fields.
pub open spec fn accepted(ds: Seq<Descriptor>) -> bool {
    &&& ds.len() <= MAX_FILE_COUNT
    &&& forall|i: int| 0 <= i < ds.len() ==> #[trigger] path_len(ds[i]) <= MAX_PATH_LEN
}

/// Whether file `i` is the first of `ds` whose path is too long.
pub open spec fn first_long_path(ds: Seq<Descriptor>, i: int) -> bool {
    &&& 0 <= i < ds.len()
    &&& path_len(ds[i]) > MAX_PATH_LEN
    &&& forall|j: int| 0 <= j < i ==> #[trigger] path_len(ds[j]) <= MAX_PATH_LEN
}

/// Whether `e` is the error that `ds` are refused with: the count where
/// there are too many files; else the first path that is too long.
pub open spec fn refused_with(ds: Seq<Descriptor>, e: ArchiveError) -> bool {
    match e {
        ArchiveError::TooManyFiles { count, max } => {
            &&& ds.len() > MAX_FILE_COUNT
            &&& count == ds.len()
            &&& max == MAX_FILE_COUNT
        },
        ArchiveError::PathTooLong { path, len, max } => {
            &&& ds.len() <= MAX_FILE_COUNT
            &&& exists|i: int|
                {
                    &&& #[trigger] first_long_path(ds, i)
                    &&& path@ == ds[i].path
                    &&& len == path_len(ds[i])
                }
            &&& max == MAX_PATH_LEN
        },
    }
}

/// One more file adds its record to the header's length and its size to the
/// contents' length.
pub proof fn lemma_lens_step(ds: Seq<Descriptor>, i: int)
    requires
        0 <= i < ds.len(),
    ensures
        header_len(ds.take(i + 1)) == header_len(ds.take(i)) + record_len(path_len(ds[i])),
        data_len(ds.take(i + 1)) == data_len(ds.take(i)) + ds[i].size,
{
    assert(ds.take(i + 1).drop_last() =~= ds.take(i));
}

/// The contents of the first `i` files are no longer than those of all.
pub proof fn lemma_data_len_prefix(ds: Seq<Descriptor>, i: int)
    requires
        0 <= i <= ds.len(),
    ensures
        data_len(ds.take(i)) <= data_len(ds),
    decreases ds.len() - i,
{
    if i < ds.len() {
        lemma_lens_step(ds, i);
        lemma_data_len_prefix(ds, i + 1);
    } else {
        assert(ds.take(i) =~= ds);
    }
}

/// The archive of the first `i` files is no longer than that of all.
pub proof fn lemma_archive_len_prefix(ds: Seq<Descriptor>, i: int)
    requires
        0 <= i <= ds.len(),
    ensures
        archive_len(ds.take(i)) <= archive_len(ds),
    decreases ds.len() - i,
{
    if i < ds.len() {
        lemma_lens_step(ds, i);
        lemma_archive_len_prefix(ds, i + 1);
    } else {
        assert(ds.take(i) =~= ds);
    }
}

/// The records up to the first `k` take as many bytes as the header for the
/// first `k` files has behind its preamble.
pub proof fn lemma_layout_len(ds: Seq<Descriptor>, k: int)
    requires
        0 <= k <= ds.len(),
    ensures
        preamble_len() + records_bytes(layout(ds).take(k)).len() == header_len(ds.take(k)),
    decreases k,
{
    if k == 0 {
        assert(layout(ds).take(0) =~= Seq::<Record>::empty());
        assert(ds.take(0) =~= Seq::<Descriptor>::empty());
    } else {
        lemma_layout_len(ds, k - 1);
        lemma_records_bytes_step(layout(ds), k - 1);
        lemma_record_bytes_len(layout(ds)[k - 1]);
        lemma_lens_step(ds, k - 1);
    }
}

/// The header that the builder writes for `ds` is as long as the format
/// states: the preamble, and for each file the two length bytes, its path
/// and the two 8-byte fields.
pub proof fn law_header_len(ds: Seq<Descriptor>)
    ensures
        header_bytes(layout(ds)).len() == header_len(ds),
{
    lemma_auto_spec_u32_to_from_le_bytes();
    lemma_layout_len(ds, ds.len() as int);
    assert(layout(ds).take(ds.len() as int) =~= layout(ds));
    assert(ds.take(ds.len() as int) =~= ds);
}

/// The offsets that the builder writes: the content of the first file
/// starts where the header ends, each further one where the one before it
/// ends, and so no offset is less than the one before it.
pub proof fn law_offsets(ds: Seq<Descriptor>, i: int)
    requires
        archive_len(ds) <= u64::MAX,
        0 <= i < ds.len(),
    ensures
        layout(ds)[i].data_offset == data_offset(ds, i),
        i == 0 ==> layout(ds)[i].data_offset == header_len(ds),
        i + 1 < ds.len() ==> layout(ds)[i + 1].data_offset == layout(ds)[i].data_offset
            + layout(ds)[i].size,
        i + 1 < ds.len() ==> layout(ds)[i].data_offset <= layout(ds)[i + 1].data_offset,
        layout(ds)[i].data_offset + layout(ds)[i].size <= archive_len(ds),
{
    lemma_data_len_prefix(ds, i);
    lemma_data_len_prefix(ds, i + 1);
    lemma_lens_step(ds, i);
    if i == 0 {
        assert(ds.take(0) =~= Seq::<Descriptor>::empty());
    }
    if i + 1 < ds.len() {
        lemma_data_len_prefix(ds, i + 2);
    }
}

/// The length of the header for `files`, once their count and each of their
/// paths is found to fit its field.
///
/// Where there are more files than the count field can state, the count is
/// reported; else, where a path is too long for its length field, the first
/// such path is.
pub fn header_size(files: &[FileEntry]) -> (r: Result<u64, ArchiveError>)
    ensures
        match r {
            Ok(size) => accepted(descriptors(files@)) && size == header_len(descriptors(files@)),
            Err(e) => refused_with(descriptors(files@), e),
        },
{
    let ghost ds = descriptors(files@);
    let n = files.len();
    if n > MAX_FILE_COUNT {
        return Err(ArchiveError::TooManyFiles { count: n, max: MAX_FILE_COUNT });
    }
    let mut size: u64 = 8;
    let mut i: usize = 0;
    assert(ds.take(0) =~= Seq::<Descriptor>::empty());
    while i < n
        invariant
            i <= n,
            n == files@.len(),
            n <= MAX_FILE_COUNT,
            ds == descriptors(files@),
            forall|j: int| 0 <= j < i ==> #[trigger] path_len(ds[j]) <= MAX_PATH_LEN,
            size == header_len(ds.take(i as int)),
            size <= 8 + i * 65553,
        decreases n - i,
    {
        let path = files[i].path.as_str().as_bytes();
        let len = path.len();
        if len > MAX_PATH_LEN {
            assert(first_long_path(ds, i as int));
            return Err(
                ArchiveError::PathTooLong { path: files[i].path.clone(), len, max: MAX_PATH_LEN },
            );
        }
        proof {
            lemma_lens_step(ds, i as int);
        }
        size = size + 18 + len as u64;
        i += 1;
    }
    assert(ds.take(n as int) =~= ds);
    Ok(size)
}

/// The header for `files`: the magic, the count, and one record per file in
/// the order given, with the offsets at which the contents will stand when
/// they follow the header in that order. Fails as [`header_size`] does, on
/// the same inputs.
///
/// The offsets have to fit their field: the archive, header and contents,
/// may be no longer than `u64::MAX` bytes, which [`archive_size`] tells.
pub fn compute_header(files: &[FileEntry]) -> (r: Result<Vec<u8>, ArchiveError>)
    requires
        accepted(descriptors(files@)) ==> archive_len(descriptors(files@)) <= u64::MAX,
    ensures
        match r {
            Ok(header) => {
                &&& accepted(descriptors(files@))
                &&& header@ == header_bytes(layout(descriptors(files@)))
                &&& header@.len() == header_len(descriptors(files@))
            },
            Err(e) => refused_with(descriptors(files@), e),
        },
{
    let ghost ds = descriptors(files@);
    let n = files.len();
    let size = match header_size(files) {
        Ok(size) => size,
        Err(e) => {
            return Err(e);
        },
    };

    let capacity: usize = if size <= usize::MAX as u64 {
        size as usize
    } else {
        0
    };
    let mut header: Vec<u8> = Vec::with_capacity(capacity);
    header.push(0x49u8);
    header.push(0x4eu8);
    header.push(0x46u8);
    header.push(0x53u8);
    let count = u32_to_le_bytes(n as u32);
    append(&mut header, count.as_slice());
    let ghost opening = header@;
    assert(opening =~= magic() + spec_u32_to_le_bytes(n as u32));
    assert(records_bytes(layout(ds).take(0)) =~= Seq::<u8>::empty());
    assert(ds.take(0) =~= Seq::<Descriptor>::empty());

    let mut offset: u64 = size;
    let mut i: usize = 0;
    while i < n
        invariant
            i <= n,
            n == files@.len(),
            ds == descriptors(files@),
            accepted(ds),
            archive_len(ds) <= u64::MAX,
            header@ == opening + records_bytes(layout(ds).take(i as int)),
            offset == data_offset(ds, i as int),
        decreases n - i,
    {
        let path = files[i].path.as_str().as_bytes();
        let size = files[i].size;
        let ghost before = header@;
        let len_field = u16_to_le_bytes(path.len() as u16);
        append(&mut header, len_field.as_slice());
        append(&mut header, path);
        let size_field = u64_to_le_bytes(size);
        append(&mut header, size_field.as_slice());
        let offset_field = u64_to_le_bytes(offset);
        append(&mut header, offset_field.as_slice());
        proof {
            let rs = layout(ds);
            assert(path_len(ds[i as int]) <= MAX_PATH_LEN);
            assert(rs.take(i + 1).drop_last() =~= rs.take(i as int));
            assert(rs.take(i + 1).last() == rs[i as int]);
            assert(header@ =~= before + record_bytes(rs[i as int]));
            assert(header@ =~= opening + records_bytes(rs.take(i + 1)));
            lemma_lens_step(ds, i as int);
            lemma_data_len_prefix(ds, i + 1);
        }
        offset = offset + size;
        i += 1;
    }
    proof {
        assert(layout(ds).take(n as int) =~= layout(ds));
        law_header_len(ds);
    }
    Ok(header)
}

/// The length of the archive for `files`, header and contents, where that
/// length can be an offset: `None` where it is beyond `u64`.
pub fn archive_size(files: &[FileEntry]) -> (r: Option<u64>)
    ensures
        match r {
            Some(total) => total == archive_len(descriptors(files@)),
            None => archive_len(descriptors(files@)) > u64::MAX,
        },
{
    let ghost ds = descriptors(files@);
    let n = files.len();
    let mut total: u64 = 8;
    let mut i: usize = 0;
    assert(ds.take(0) =~= Seq::<Descriptor>::empty());
    while i < n
        invariant
            i <= n,
            n == files@.len(),
            ds == descriptors(files@),
            total == archive_len(ds.take(i as int)),
        decreases n - i,
    {
        let path = files[i].path.as_str().as_bytes();
        proof {
            lemma_lens_step(ds, i as int);
            lemma_archive_len_prefix(ds, i + 1);
        }
        let with_record = match total.checked_add(18) {
            Some(sum) => sum.checked_add(path.len() as u64),
            None => None,
        };
        let with_content = match with_record {
            Some(sum) => sum.checked_add(files[i].size),
            None => None,
        };
        match with_content {
            Some(sum) => {
                total = sum;
            },
            None => {
                return None;
            },
        }
        i += 1;
    }
    assert(ds.take(n as int) =~= ds);
    Some(total)
}

/// A file with its content, as the builder takes it.
pub struct FileView {
    pub path: Seq<char>,
    pub content: Seq<u8>,
}

/// A file to be archived, by path and content.
#[derive(Debug)]
pub struct SourceFile {
    pub path: String,
    pub content: Vec<u8>,
}

impl View for SourceFile {
    type V = FileView;

    open spec fn view(&self) -> FileView {
        FileView { path: self.path@, content: self.content@ }
    }
}

impl SourceFile {
    /// A file under `path` that holds `content`.
    pub fn new(path: &str, content: &[u8]) -> (file: Self)
        ensures
            file@ == (FileView { path: path@, content: content@ }),
    {
        SourceFile { path: path.to_owned(), content: slice_to_vec(content) }
    }
}

/// The views of `files`, in order.
pub open spec fn file_views(files: Seq<SourceFile>) -> Seq<FileView> {
    Seq::new(files.len(), |i: int| files[i]@)
}

/// What the header says of `f`: its path, and the length of its content.
pub open spec fn descriptor_of(f: FileView) -> Descriptor {
    Descriptor { path: f.path, size: f.content.len() as u64 }
}

/// The descriptors of `fs`, in order.
pub open spec fn descriptors_of(fs: Seq<FileView>) -> Seq<Descriptor> {
    Seq::new(fs.len(), |i: int| descriptor_of(fs[i]))
}

/// The contents of `fs`, one after the other.
pub open spec fn contents_bytes(fs: Seq<FileView>) -> Seq<u8>
    decreases fs.len(),
{
    if fs.len() == 0 {
        Seq::empty()
    } else {
        contents_bytes(fs.drop_last()) + fs.last().content
    }
}

/// The archive of `fs`: the header for their descriptors, then their
/// contents in the same order.
pub open spec fn archive_bytes(fs: Seq<FileView>) -> Seq<u8> {
    header_bytes(layout(descriptors_of(fs))) + contents_bytes(fs)
}

/// Whether the content of each of `fs` has a length that a size field can
/// state, and the whole archive a length that an offset can state.
pub open spec fn fits(fs: Seq<FileView>) -> bool {
    &&& forall|i: int| 0 <= i < fs.len() ==> (#[trigger] fs[i]).content.len() <= u64::MAX
    &&& archive_len(descriptors_of(fs)) <= u64::MAX
}

/// The contents of the first `k + 1` files are those of the first `k`, then
/// that of file `k`.
pub proof fn lemma_contents_step(fs: Seq<FileView>, k: int)
    requires
        0 <= k < fs.len(),
    ensures
        contents_bytes(fs.take(k + 1)) == contents_bytes(fs.take(k)) + fs[k].content,
{
    assert(fs.take(k + 1).drop_last() =~= fs.take(k));
}

/// The contents of the first `k` files are as long as their sizes say.
pub proof fn lemma_contents_len(fs: Seq<FileView>, k: int)
    requires
        0 <= k <= fs.len(),
        forall|i: int| 0 <= i < fs.len() ==> (#[trigger] fs[i]).content.len() <= u64::MAX,
    ensures
        contents_bytes(fs.take(k)).len() == data_len(descriptors_of(fs).take(k)),
    decreases k,
{
    if k == 0 {
        assert(fs.take(0) =~= Seq::<FileView>::empty());
        assert(descriptors_of(fs).take(0) =~= Seq::<Descriptor>::empty());
    } else {
        lemma_contents_len(fs, k - 1);
        lemma_contents_step(fs, k - 1);
        lemma_lens_step(descriptors_of(fs), k - 1);
    }
}

/// The contents of the first `k` files open the contents of all.
pub proof fn lemma_contents_prefix(fs: Seq<FileView>, k: int)
    requires
        0 <= k <= fs.len(),
    ensures
        contents_bytes(fs.take(k)).len() <= contents_bytes(fs).len(),
        contents_bytes(fs).subrange(0, contents_bytes(fs.take(k)).len() as int) == contents_bytes(
            fs.take(k),
        ),
    decreases fs.len() - k,
{
    if k < fs.len() {
        lemma_contents_prefix(fs, k + 1);
        lemma_contents_step(fs, k);
        let shorter = contents_bytes(fs.take(k));
        let longer = contents_bytes(fs.take(k + 1));
        assert(contents_bytes(fs).subrange(0, shorter.len() as int) =~= longer.subrange(
            0,
            shorter.len() as int,
        ));
        assert(longer.subrange(0, shorter.len() as int) =~= shorter);
    } else {
        assert(fs.take(k) =~= fs);
        assert(contents_bytes(fs).subrange(0, contents_bytes(fs).len() as int) =~= contents_bytes(
            fs,
        ));
    }
}

/// The content of file `i` stands in the contents behind those of the files
/// before it.
pub proof fn lemma_content_at(fs: Seq<FileView>, i: int)
    requires
        0 <= i < fs.len(),
    ensures
        contents_bytes(fs.take(i)).len() + fs[i].content.len() <= contents_bytes(fs).len(),
        contents_bytes(fs).subrange(
            contents_bytes(fs.take(i)).len() as int,
            (contents_bytes(fs.take(i)).len() + fs[i].content.len()) as int,
        ) == fs[i].content,
{
    lemma_contents_prefix(fs, i + 1);
    lemma_contents_step(fs, i);
    let before = contents_bytes(fs.take(i));
    let upto = contents_bytes(fs.take(i + 1));
    assert(contents_bytes(fs).subrange(before.len() as int, upto.len() as int)
        =~= contents_bytes(fs).subrange(0, upto.len() as int).subrange(
        before.len() as int,
        upto.len() as int,
    ));
    assert(upto.subrange(before.len() as int, upto.len() as int) =~= fs[i].content);
}

/// An archive is as long as its header and the contents of its files
/// together: the preamble, for each file the two length bytes, its path and
/// the two 8-byte fields, and the sizes of all files.
pub proof fn law_archive_len(fs: Seq<FileView>)
    requires
        forall|i: int| 0 <= i < fs.len() ==> (#[trigger] fs[i]).content.len() <= u64::MAX,
    ensures
        archive_bytes(fs).len() == archive_len(descriptors_of(fs)),
        archive_bytes(fs).len() == header_len(descriptors_of(fs)) + data_len(descriptors_of(fs)),
{
    law_header_len(descriptors_of(fs));
    lemma_contents_len(fs, fs.len() as int);
    assert(fs.take(fs.len() as int) =~= fs);
    assert(descriptors_of(fs).take(fs.len() as int) =~= descriptors_of(fs));
}

/// The archive of `files`: the header, then each file's content in the order
/// given. Fails as [`compute_header`] does, on the same inputs.
pub fn build_archive(files: &[SourceFile]) -> (r: Result<Vec<u8>, ArchiveError>)
    requires
        accepted(descriptors_of(file_views(files@))) ==> archive_len(
            descriptors_of(file_views(files@)),
        ) <= u64::MAX,
    ensures
        match r {
            Ok(archive) => {
                &&& accepted(descriptors_of(file_views(files@)))
                &&& fits(file_views(files@))
                &&& archive@ == archive_bytes(file_views(files@))
                &&& archive@.len() == archive_len(descriptors_of(file_views(files@)))
            },
            Err(e) => refused_with(descriptors_of(file_views(files@)), e),
        },
{
    let ghost fs = file_views(files@);
    let ghost ds = descriptors_of(fs);
    let n = files.len();
    let mut entries: Vec<FileEntry> = Vec::with_capacity(n);
    let mut i: usize = 0;
    while i < n
        invariant
            i <= n,
            n == files@.len(),
            fs == file_views(files@),
            ds == descriptors_of(fs),
            entries@.len() == i,
            forall|j: int| 0 <= j < i ==> (#[trigger] entries@[j])@ == ds[j],
            forall|j: int| 0 <= j < i ==> (#[trigger] fs[j]).content.len() <= u64::MAX,
        decreases n - i,
    {
        let entry = FileEntry::new(files[i].path.as_str(), files[i].content.len() as u64);
        entries.push(entry);
        i += 1;
    }
    assert(descriptors(entries@) =~= ds);
    let mut archive = match compute_header(entries.as_slice()) {
        Ok(header) => header,
        Err(e) => {
            return Err(e);
        },
    };
    let ghost header = archive@;
    let mut i: usize = 0;
    assert(fs.take(0) =~= Seq::<FileView>::empty());
    while i < n
        invariant
            i <= n,
            n == files@.len(),
            fs == file_views(files@),
            archive@ == header + contents_bytes(fs.take(i as int)),
        decreases n - i,
    {
        append(&mut archive, files[i].content.as_slice());
        proof {
            assert(fs.take(i + 1).drop_last() =~= fs.take(i as int));
            assert(fs.take(i + 1).last() == fs[i as int]);
            assert(archive@ =~= header + contents_bytes(fs.take(i + 1)));
        }
        i += 1;
    }
    proof {
        assert(fs.take(n as int) =~= fs);
        law_archive_len(fs);
    }
    Ok(archive)
}

/// The name of the file that holds the archive called `name`: the name, then
/// `.embed_fs`.
pub fn bundle_file_name(name: &str) -> (file_name: String)
    ensures
        file_name@ == name@ + ".embed_fs"@,
{
    name.to_owned().concat(".embed_fs")
}

} // verus!
