//! The bytes of a finished download, cut into its files.
use vstd::prelude::*;
use crate::torrent::{File, files_length, lemma_files_length_prefix};

verus! {

/// The downloaded bytes and the files that they make up, in order.
pub struct Downloaded {
    bytes: Vec<u8>,
    files: Vec<File>,
}

impl Downloaded {
    /// The downloaded bytes.
    pub closed spec fn spec_bytes(&self) -> Seq<u8> {
        self.bytes@
    }

    /// The files, in order.
    pub closed spec fn spec_files(&self) -> Seq<File> {
        self.files@
    }

    /// The files fit in the bytes.
    #[verifier::type_invariant]
    spec fn files_fit(&self) -> bool {
        files_length(self.files@) <= self.bytes@.len()
    }

    /// A download of `bytes` made up of `files`; `None` where the files' lengths add up
    /// to more than there are bytes.
    pub fn new(bytes: Vec<u8>, files: Vec<File>) -> (r: Option<Self>)
        ensures
            r is Some <==> files_length(files@) <= bytes@.len(),
            r matches Some(d) ==> d.spec_bytes() == bytes@ && d.spec_files() == files@,
    {
        let mut total: usize = 0;
        let mut i: usize = 0;
        while i < files.len()
            invariant
                i <= files@.len(),
                total == files_length(files@.take(i as int)),
                total <= bytes@.len(),
            decreases files@.len() - i,
        {
            assert(files@.take(i + 1).drop_last() =~= files@.take(i as int));
            if files[i].length > bytes.len() - total {
                proof { lemma_files_length_prefix(files@, i + 1); }
                return None;
            }
            total = total + files[i].length;
            i = i + 1;
        }
        assert(files@.take(i as int) =~= files@);
        Some(Downloaded { bytes, files })
    }
}

/// Walks the files of a download in order.
pub struct DownloadedIter<'d> {
    downloaded: &'d Downloaded,
    index: usize,
    offset: usize,
}

/// One file of a download and its bytes.
pub struct DownloadedFile<'d> {
    file: &'d File,
    bytes: &'d [u8],
}

impl Downloaded {
    /// Walks the files of the download in order, from the first.
    pub fn iter<'d>(&'d self) -> (r: DownloadedIter<'d>)
        ensures
            r.spec_downloaded() == *self,
            r.spec_index() == 0,
    {
        DownloadedIter::new(self)
    }
}

impl<'d> DownloadedIter<'d> {
    /// The download being walked.
    pub closed spec fn spec_downloaded(&self) -> Downloaded {
        *self.downloaded
    }

    /// How many files have been given out.
    pub closed spec fn spec_index(&self) -> nat {
        self.index as nat
    }

    #[verifier::type_invariant]
    spec fn position_fits(&self) -> bool {
        &&& self.index <= self.downloaded.files@.len()
        &&& self.offset == files_length(self.downloaded.files@.take(self.index as int))
    }

    /// Starts at the first file.
    pub fn new(d: &'d Downloaded) -> (r: Self)
        ensures
            r.spec_downloaded() == *d,
            r.spec_index() == 0,
    {
        assert(d.files@.take(0) =~= Seq::<File>::empty());
        Self { downloaded: d, index: 0, offset: 0 }
    }

    /// The next file and its bytes: file `i` has the bytes that follow those of the
    /// files before it, as many as its length.
    pub fn next(&mut self) -> (r: Option<DownloadedFile<'d>>)
        ensures
            final(self).spec_downloaded() == old(self).spec_downloaded(),
            ({
                let d = old(self).spec_downloaded();
                let i = old(self).spec_index() as int;
                &&& i == d.spec_files().len() ==> r is None && final(self).spec_index() == i
                &&& i < d.spec_files().len() ==> {
                    &&& final(self).spec_index() == i + 1
                    &&& r matches Some(f) && f.spec_file() == d.spec_files()[i]
                        && f.spec_bytes() == d.spec_bytes().subrange(
                            files_length(d.spec_files().take(i)) as int,
                            files_length(d.spec_files().take(i + 1)) as int,
                        )
                }
            }),
    {
        proof {
            use_type_invariant(&*self);
            use_type_invariant(self.downloaded);
        }
        let d = self.downloaded;
        if self.index == d.files.len() {
            return None;
        }
        let file = &d.files[self.index];
        let ghost i = self.index as int;
        proof {
            assert(d.files@.take(i + 1).drop_last() =~= d.files@.take(i));
            lemma_files_length_prefix(d.files@, i + 1);
        }
        let blen: usize = d.bytes.len();
        assert(files_length(d.files@.take(i + 1)) == self.offset + file.length);
        let end = self.offset + file.length;
        let bytes = &d.bytes.as_slice()[self.offset..end];
        *self = DownloadedIter { downloaded: d, index: self.index + 1, offset: end };
        Some(DownloadedFile { file, bytes })
    }
}

impl<'d> DownloadedFile<'d> {
    /// The file.
    pub closed spec fn spec_file(&self) -> File {
        *self.file
    }

    /// The file's bytes.
    pub closed spec fn spec_bytes(&self) -> Seq<u8> {
        self.bytes@
    }

    pub fn bytes(&'d self) -> (r: &'d [u8])
        ensures
            r@ == self.spec_bytes(),
    {
        self.bytes
    }

    pub fn path(&'d self) -> (r: &'d [String])
        ensures
            r@ == self.spec_file().path@,
    {
        self.file.path.as_slice()
    }
}

/// The bytes that walking `files` over `bytes` gives for the first `k` files, one after
/// another: file `i` gets the bytes from the total length of the files before it up
/// to that total plus its own length.
pub open spec fn walked_bytes(bytes: Seq<u8>, files: Seq<File>, k: int) -> Seq<u8>
    decreases k,
{
    if k <= 0 {
        Seq::empty()
    } else {
        walked_bytes(bytes, files, k - 1) + bytes.subrange(
            files_length(files.take(k - 1)) as int,
            files_length(files.take(k)) as int,
        )
    }
}

/// The files of a download tile a prefix of its bytes, in order, with no gap or
/// overlap: the bytes given out for all files, one after another, are the bytes up to
/// the files' total length.
pub proof fn lemma_files_tile_prefix(bytes: Seq<u8>, files: Seq<File>, k: int)
    requires
        files_length(files) <= bytes.len(),
        0 <= k <= files.len(),
    ensures
        walked_bytes(bytes, files, k) == bytes.take(files_length(files.take(k)) as int),
    decreases k,
{
    lemma_files_length_prefix(files, k);
    if k == 0 {
        assert(files.take(0) =~= Seq::<File>::empty());
        assert(bytes.take(0) =~= Seq::<u8>::empty());
    } else {
        lemma_files_tile_prefix(bytes, files, k - 1);
        lemma_files_length_prefix(files, k - 1);
        assert(files.take(k).drop_last() =~= files.take(k - 1));
        assert(bytes.take(files_length(files.take(k - 1)) as int) + bytes.subrange(
            files_length(files.take(k - 1)) as int,
            files_length(files.take(k)) as int,
        ) =~= bytes.take(files_length(files.take(k)) as int));
    }
}

/// Walking a download gives, over all its files, exactly the bytes that the files
/// cover.
pub proof fn lemma_files_tile(bytes: Seq<u8>, files: Seq<File>)
    requires
        files_length(files) <= bytes.len(),
    ensures
        walked_bytes(bytes, files, files.len() as int) == bytes.take(files_length(files) as int),
{
    lemma_files_tile_prefix(bytes, files, files.len() as int);
    assert(files.take(files.len() as int) =~= files);
}

} // verus!
