//! A minimal filesystem abstraction, just deep enough for a read-only
//! file server: open a file by path, read at an absolute offset.  An
//! in-memory implementation lives here so that transfers can be
//! exercised without touching a real filesystem; a real implementation
//! belongs to the surrounding program.

use crate::bytes::clone_bytes;
use vstd::prelude::*;

verus! {

/// The failure of a filesystem operation, with a diagnostic message.
#[derive(Debug, Clone, PartialEq, Eq)]
pub struct FsError {
    pub message: Vec<u8>,
}

/// The bytes a read at `offset` into a buffer of length `buflen` must
/// yield: the window of the contents starting at `offset`, cut to the
/// buffer; empty when the offset is at or past the end.
pub open spec fn read_window(contents: Seq<u8>, offset: int, buflen: int) -> Seq<u8> {
    if 0 <= offset <= contents.len() {
        let end = if offset + buflen <= contents.len() {
            offset + buflen
        } else {
            contents.len() as int
        };
        if offset <= end {
            contents.subrange(offset, end)
        } else {
            Seq::empty()
        }
    } else {
        Seq::empty()
    }
}

/// An open, read-only file handle.
pub trait File: Sized + Clone {
    /// The bytes of the file as this handle sees them.  Verified
    /// implementations override this; an implementation outside the
    /// verifier keeps the default, and nothing proved here can rest on
    /// what its reads return.
    open spec fn contents(&self) -> Seq<u8> {
        Seq::empty()
    }

    /// Reads as many bytes as possible into the front of `buf` from the
    /// absolute offset `offset`, without changing the buffer's length.
    /// Returns the number of bytes read; fewer bytes than the buffer
    /// holds means the file has ended.
    fn read(&self, offset: u64, buf: &mut Vec<u8>) -> (r: Result<usize, FsError>)
        ensures
            match r {
                Ok(n) => {
                    &&& final(buf)@.len() == old(buf)@.len()
                    &&& n as int == read_window(
                        self.contents(),
                        offset as int,
                        old(buf)@.len() as int,
                    ).len()
                    &&& final(buf)@.subrange(0, n as int) == read_window(
                        self.contents(),
                        offset as int,
                        old(buf)@.len() as int,
                    )
                },
                Err(_) => final(buf)@.len() == old(buf)@.len(),
            },
    ;
}

/// A filesystem that can open files for reading.
pub trait Filesystem: Sized {
    type File: File;

    /// The files this filesystem serves: contents by absolute path.
    /// Verified implementations override this; an implementation
    /// outside the verifier keeps the default, and nothing proved here
    /// can rest on what it opens.
    open spec fn files(&self) -> Map<Seq<u8>, Seq<u8>> {
        Map::empty()
    }

    /// Opens the file at `path` for reading.  An opened file is one of
    /// the served files, and it fits in memory.
    fn open(&self, path: &Vec<u8>) -> (r: Result<Self::File, FsError>)
        ensures
            match r {
                Ok(f) => {
                    &&& self.files().dom().contains(path@)
                    &&& f.contents() == self.files()[path@]
                    &&& f.contents().len() <= usize::MAX as int
                },
                Err(_) => !self.files().dom().contains(path@),
            },
    ;
}

impl File for Vec<u8> {
    /// An in-memory file is exactly its bytes.
    open spec fn contents(&self) -> Seq<u8> {
        self@
    }

    fn read(&self, offset: u64, buf: &mut Vec<u8>) -> (r: Result<usize, FsError>) {
        let len = self.len();
        if offset >= len as u64 {
            proof {
                assert(read_window(self@, offset as int, old(buf)@.len() as int).len() == 0);
            }
            return Ok(0);
        }
        let off = offset as usize;
        let avail = len - off;
        let n = if buf.len() < avail {
            buf.len()
        } else {
            avail
        };
        let ghost w = read_window(self@, offset as int, old(buf)@.len() as int);
        proof {
            assert(w.len() == n);
        }
        let mut i: usize = 0;
        while i < n
            invariant
                i <= n,
                n <= buf@.len(),
                off + n <= self@.len(),
                self@.len() <= usize::MAX,
                buf@.len() == old(buf)@.len(),
                w.len() == n,
                w == read_window(self@, off as int, old(buf)@.len() as int),
                forall|k: int| 0 <= k < i ==> buf@[k] == w[k],
            decreases n - i,
        {
            let b = self[off + i];
            buf[i] = b;
            proof {
                assert(w[i as int] == self@[off + i]);
            }
            i += 1;
        }
        proof {
            assert(buf@.subrange(0, n as int) =~= w);
        }
        Ok(n)
    }
}

/// An in-memory filesystem: a list of (path, contents) pairs.  The
/// earliest entry for a path wins, as a lookup scans in order.
#[derive(Debug, Clone)]
pub struct MapFilesystem {
    entries: Vec<(Vec<u8>, Vec<u8>)>,
}

/// The map an entry list denotes, earliest entry winning.
pub open spec fn files_of(entries: Seq<(Vec<u8>, Vec<u8>)>) -> Map<Seq<u8>, Seq<u8>>
    decreases entries.len(),
{
    if entries.len() == 0 {
        Map::empty()
    } else {
        files_of(entries.skip(1)).insert(entries[0].0@, entries[0].1@)
    }
}

/// Whether two byte vectors hold the same bytes.
fn bytes_eq(a: &Vec<u8>, b: &Vec<u8>) -> (r: bool)
    ensures
        r == (a@ == b@),
{
    if a.len() != b.len() {
        return false;
    }
    let mut i: usize = 0;
    while i < a.len()
        invariant
            i <= a@.len(),
            a@.len() == b@.len(),
            forall|k: int| 0 <= k < i ==> a@[k] == b@[k],
        decreases a@.len() - i,
    {
        if a[i] != b[i] {
            return false;
        }
        i += 1;
    }
    proof {
        assert(a@ =~= b@);
    }
    true
}

impl MapFilesystem {
    /// An empty in-memory filesystem.
    pub fn new() -> (r: Self)
        ensures
            r.files() == Map::<Seq<u8>, Seq<u8>>::empty(),
    {
        MapFilesystem { entries: Vec::new() }
    }

    /// Every served file fits in memory.
    pub proof fn files_len_bound(&self)
        ensures
            forall|p: Seq<u8>|
                self.files().dom().contains(p) ==> (#[trigger] self.files()[p]).len()
                    <= usize::MAX as int,
    {
        lemma_files_of_bounded(self.entries@);
    }

    /// Adds a file in front of the existing entries, so the new
    /// contents win over any earlier entry for the same path.
    pub fn insert(&mut self, path: Vec<u8>, contents: Vec<u8>)
        ensures
            final(self).files() == old(self).files().insert(path@, contents@),
    {
        let ghost old_entries = self.entries@;
        let ghost pv = path@;
        let ghost cv = contents@;
        self.entries.insert(0, (path, contents));
        proof {
            assert(self.entries@.skip(1) =~= old_entries);
            assert(self.entries@[0].0@ == pv && self.entries@[0].1@ == cv);
        }
    }
}

/// Every value of the map an entry list denotes is the view of some
/// vector, so it fits in memory.
proof fn lemma_files_of_bounded(entries: Seq<(Vec<u8>, Vec<u8>)>)
    ensures
        forall|p: Seq<u8>|
            files_of(entries).dom().contains(p) ==> (#[trigger] files_of(entries)[p]).len()
                <= usize::MAX as int,
    decreases entries.len(),
{
    broadcast use vstd::std_specs::vec::axiom_spec_len;

    if entries.len() > 0 {
        lemma_files_of_bounded(entries.skip(1));
        assert forall|p: Seq<u8>|
            files_of(entries).dom().contains(p) implies (#[trigger] files_of(entries)[p]).len()
            <= usize::MAX as int by {
            if p == entries[0].0@ {
                assert(vstd::std_specs::vec::spec_vec_len(&entries[0].1) == entries[0].1@.len());
                assert(files_of(entries)[p] == entries[0].1@);
            } else {
                assert(files_of(entries)[p] == files_of(entries.skip(1))[p]);
            }
        }
    }
}

impl Filesystem for MapFilesystem {
    type File = Vec<u8>;

    closed spec fn files(&self) -> Map<Seq<u8>, Seq<u8>> {
        files_of(self.entries@)
    }


    fn open(&self, path: &Vec<u8>) -> (r: Result<Vec<u8>, FsError>) {
        let n = self.entries.len();
        let mut i: usize = 0;
        proof {
            assert(self.entries@.skip(0) =~= self.entries@);
        }
        while i < n
            invariant
                i <= n,
                n == self.entries@.len(),
                files_of(self.entries@).contains_key(path@) == files_of(
                    self.entries@.skip(i as int),
                ).contains_key(path@),
                files_of(self.entries@).contains_key(path@) ==> files_of(self.entries@)[path@]
                    == files_of(self.entries@.skip(i as int))[path@],
            decreases n - i,
        {
            let ghost suffix = self.entries@.skip(i as int);
            proof {
                assert(suffix[0] == self.entries@[i as int]);
                assert(suffix.skip(1) =~= self.entries@.skip(i + 1));
            }
            if bytes_eq(&self.entries[i].0, path) {
                let contents = clone_bytes(&self.entries[i].1);
                proof {
                    broadcast use vstd::std_specs::vec::axiom_spec_len;

                    assert(vstd::std_specs::vec::spec_vec_len(&contents) == contents@.len());
                }
                return Ok(contents);
            }
            i += 1;
        }
        proof {
            assert(self.entries@.skip(n as int) =~= Seq::<(Vec<u8>, Vec<u8>)>::empty());
        }
        Err(FsError { message: Vec::new() })
    }
}

} // verus!
