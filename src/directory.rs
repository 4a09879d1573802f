//! The store facade: resolves paths against the origin's base URL and decides each
//! directory operation; only the reserved lock path may be written or deleted.
use crate::error::StoreError;
use crate::handle::HttpFileHandle;
use crate::lengths::LengthCache;
use vstd::prelude::*;
use vstd::string::{StrSliceExecFns, StringExecFns};

verus! {

/// The lock file that the indexing library opens, writes and deletes.
pub open spec fn reserved_path() -> Seq<char> {
    ".tantivy-meta.lock"@
}

/// Whether `path` names the reserved lock file.
pub fn is_reserved(path: &str) -> (r: bool)
    ensures
        r == (path@ == reserved_path()),
{
    let p = path.to_owned();
    let lock = ".tantivy-meta.lock".to_owned();
    p == lock
}

/// The URL of `path` under `base`, with exactly the separator that `base` lacks.
pub open spec fn url_for(base: Seq<char>, path: Seq<char>) -> Seq<char> {
    if base.len() > 0 && base.last() == '/' {
        base + path
    } else {
        base + "/"@ + path
    }
}

/// What is known of whether a file exists.
#[derive(Debug)]
pub enum Existence {
    /// Decided without asking the origin.
    Known(bool),
    /// The length of the file at this URL must be probed; it exists iff that length is positive.
    Probe(String),
}

/// A store whose files live under one origin URL.
#[derive(Clone, Debug)]
pub struct HttpDirectory {
    base_url: String,
}

impl View for HttpDirectory {
    /// The base URL.
    type V = Seq<char>;

    closed spec fn view(&self) -> Seq<char> {
        self.base_url@
    }
}

impl HttpDirectory {
    pub fn new(base_url: &str) -> (r: HttpDirectory)
        ensures
            r@ == base_url@,
    {
        HttpDirectory { base_url: base_url.to_owned() }
    }

    /// The URL that `path` resolves to.
    pub fn format_url(&self, path: &str) -> (r: String)
        ensures
            r@ == url_for(self@, path@),
    {
        let mut url = self.base_url.clone();
        let n = url.as_str().unicode_len();
        if n > 0 && url.as_str().get_char(n - 1) == '/' {
            url.append(path);
        } else {
            url.append("/");
            url.append(path);
            proof {
                reveal_strlit("/");
            }
        }
        url
    }

    /// A handle on the file at `path`; nothing is asked of the origin.
    pub fn get_file_handle(&self, path: &str) -> (r: HttpFileHandle)
        ensures
            r@ == url_for(self@, path@),
    {
        HttpFileHandle::new(self.format_url(path))
    }

    /// Whether the file at `path` exists: always for the reserved path; otherwise
    /// decided by a remembered length, or left to a probe of the origin.
    pub fn existence(&self, path: &str, lengths: &LengthCache) -> (r: Existence)
        requires
            lengths.wf(),
        ensures
            path@ == reserved_path() ==> r == Existence::Known(true),
            path@ != reserved_path() ==> {
                let url = url_for(self@, path@);
                if lengths@.contains_key(url) {
                    r == Existence::Known(lengths@[url] > 0)
                } else {
                    r matches Existence::Probe(u) && u@ == url
                }
            },
    {
        if is_reserved(path) {
            return Existence::Known(true);
        }
        let url = self.format_url(path);
        match lengths.lookup(&url) {
            Some(len) => Existence::Known(len > 0),
            None => Existence::Probe(url),
        }
    }

    /// Deletes the file at `path`: a no-op for the reserved path, refused for any other.
    pub fn delete(&self, path: &str) -> (r: Result<(), StoreError>)
        ensures
            r is Ok <==> path@ == reserved_path(),
            r is Err ==> r == Err::<(), StoreError>(StoreError::UnsupportedOperation),
    {
        if is_reserved(path) {
            Ok(())
        } else {
            Err(StoreError::UnsupportedOperation)
        }
    }

    /// Opens the file at `path` for writing: an empty in-memory sink for the reserved
    /// path, refused for any other.
    pub fn open_write(&self, path: &str) -> (r: Result<VecWriter, StoreError>)
        ensures
            r is Ok <==> path@ == reserved_path(),
            r matches Ok(w) ==> w.path() == path@ && w.data().len() == 0 && w.position() == 0 && w.is_flushed(),
            r matches Err(e) ==> e == StoreError::UnsupportedOperation,
    {
        if is_reserved(path) {
            Ok(VecWriter::new(path))
        } else {
            Err(StoreError::UnsupportedOperation)
        }
    }

    /// Writing a whole file at once is not supported.
    pub fn atomic_write(&self, path: &str, data: &[u8]) -> (r: Result<(), StoreError>)
        ensures
            r == Err::<(), StoreError>(StoreError::UnsupportedOperation),
    {
        Err(StoreError::UnsupportedOperation)
    }

    /// Nothing is buffered, so there is nothing to flush.
    pub fn sync_directory(&self) -> (r: Result<(), StoreError>)
        ensures
            r is Ok,
    {
        Ok(())
    }
}

/// The bytes `buf` written over `data` at `pos`, as a seekable in-memory file does it:
/// zeros fill any gap past the end, and the file grows as needed.
pub open spec fn written(data: Seq<u8>, pos: int, buf: Seq<u8>) -> Seq<u8> {
    let padded = if pos > data.len() {
        data + Seq::new((pos - data.len()) as nat, |i: int| 0u8)
    } else {
        data
    };
    let stop = pos + buf.len();
    padded.subrange(0, pos) + buf + if stop < padded.len() {
        padded.subrange(stop, padded.len() as int)
    } else {
        Seq::empty()
    }
}

/// An in-memory sink for the reserved path; its bytes are never sent anywhere.
pub struct VecWriter {
    path: String,
    data: Vec<u8>,
    position: usize,
    flushed: bool,
}

impl VecWriter {
    pub closed spec fn path(&self) -> Seq<char> {
        self.path@
    }

    pub closed spec fn data(&self) -> Seq<u8> {
        self.data@
    }

    pub closed spec fn position(&self) -> int {
        self.position as int
    }

    pub closed spec fn is_flushed(&self) -> bool {
        self.flushed
    }

    /// An empty sink, counted as flushed.
    pub fn new(path: &str) -> (r: VecWriter)
        ensures
            r.path() == path@,
            r.data().len() == 0,
            r.position() == 0,
            r.is_flushed(),
    {
        VecWriter { path: path.to_owned(), data: Vec::new(), position: 0, flushed: true }
    }

    /// Writes all of `buf` at the current position, moves past it and marks the sink
    /// unflushed. Returns the number of bytes written.
    pub fn write(&mut self, buf: &[u8]) -> (r: usize)
        requires
            old(self).position() + buf@.len() <= usize::MAX,
        ensures
            r == buf@.len(),
            final(self).data() == written(old(self).data(), old(self).position(), buf@),
            final(self).position() == old(self).position() + buf@.len(),
            final(self).path() == old(self).path(),
            !final(self).is_flushed(),
    {
        self.flushed = false;
        let pos = self.position;
        let ghost d0 = self.data@;
        while self.data.len() < pos
            invariant
                pos == self.position,
                self.path@ == old(self).path@,
                !self.flushed,
                self.data@.len() <= pos || self.data@ == d0,
                d0.len() <= self.data@.len(),
                self.data@.subrange(0, d0.len() as int) == d0,
                forall|i: int| d0.len() <= i < self.data@.len() ==> self.data@[i] == 0u8,
            decreases pos - self.data.len(),
        {
            self.data.push(0u8);
        }
        let ghost padded = self.data@;
        assert(padded == if pos > d0.len() {
            d0 + Seq::new((pos - d0.len()) as nat, |i: int| 0u8)
        } else {
            d0
        });
        let mut i: usize = 0;
        while i < buf.len()
            invariant
                pos == self.position,
                self.path@ == old(self).path@,
                !self.flushed,
                pos + buf@.len() <= usize::MAX,
                pos <= padded.len(),
                0 <= i <= buf@.len(),
                self.data@.len() == if pos + i < padded.len() { padded.len() as int } else { pos + i },
                forall|k: int| 0 <= k < pos ==> self.data@[k] == padded[k],
                forall|k: int| 0 <= k < i ==> self.data@[pos + k] == buf@[k],
                forall|k: int| pos + i <= k < padded.len() ==> self.data@[k] == padded[k],
            decreases buf.len() - i,
        {
            if pos + i < self.data.len() {
                self.data.set(pos + i, buf[i]);
            } else {
                self.data.push(buf[i]);
            }
            i = i + 1;
        }
        assert(self.data@ =~= written(d0, pos as int, buf@));
        self.position = pos + buf.len();
        buf.len()
    }

    /// Moves the position to `pos`.
    pub fn seek_to(&mut self, pos: usize)
        ensures
            final(self).position() == pos,
            final(self).data() == old(self).data(),
            final(self).path() == old(self).path(),
            final(self).is_flushed() == old(self).is_flushed(),
    {
        self.position = pos;
    }

    /// Marks the sink flushed.
    pub fn flush(&mut self)
        ensures
            final(self).is_flushed(),
            final(self).data() == old(self).data(),
            final(self).position() == old(self).position(),
            final(self).path() == old(self).path(),
    {
        self.flushed = true;
    }

    /// The path the sink was opened for.
    pub fn path_name(&self) -> (r: &String)
        ensures
            r@ == self.path(),
    {
        &self.path
    }

    /// Whether dropping the sink now should warn that it was never flushed.
    pub fn warns_on_drop(&self) -> (r: bool)
        ensures
            r == !self.is_flushed(),
    {
        !self.flushed
    }

    /// What was written so far.
    pub fn bytes(&self) -> (r: &Vec<u8>)
        ensures
            r@ == self.data(),
    {
        &self.data
    }

    /// Current length of what was written.
    pub fn len(&self) -> (r: usize)
        ensures
            r == self.data().len(),
    {
        self.data.len()
    }

    pub fn position_now(&self) -> (r: usize)
        ensures
            r == self.position(),
    {
        self.position
    }
}

} // verus!
