//! The verified model of the storage layer.
//!
//! [`Storage`] holds the whole observable state of the layer as plain data:
//! the directory (paths bound to files), the file contents, the open
//! descriptors (handles), and the cursor streams built over them. Each
//! operation mirrors one capability of the storage contract and carries a
//! contract that pins the state transition down exactly, stated over the
//! spec-level image [`StorageV`].

use vstd::prelude::*;

use crate::access::{FsError, Permission, SeekFrom};

verus! {

/// One live directory entry: a path bound to a file.
pub struct DirEntry {
    pub path: Vec<u8>,
    pub file: usize,
}

/// Spec-level image of a directory entry.
#[verifier::ext_equal]
pub struct DirEntryV {
    pub path: Seq<u8>,
    pub file: usize,
}

impl View for DirEntry {
    type V = DirEntryV;

    open spec fn view(&self) -> DirEntryV {
        DirEntryV { path: self.path@, file: self.file }
    }
}

/// One open descriptor: which file it addresses, whether it was opened with
/// write access, and the cursor position every stream sharing it observes.
#[derive(Clone, Copy)]
pub struct HandleRec {
    pub file: usize,
    pub writable: bool,
    pub pos: usize,
}

/// One cursor stream: the descriptor it shares with its siblings, plus the
/// stream's private truncate bookkeeping. The `offset` field records the
/// last truncate point requested through this stream; it is bookkeeping
/// only and is never consulted by read, write or seek, which all address
/// the shared descriptor.
#[derive(Clone, Copy)]
pub struct StreamRec {
    pub handle: usize,
    pub offset: usize,
}

/// Spec-level image of the whole storage state.
#[verifier::ext_equal]
pub struct StorageV {
    pub files: Seq<Seq<u8>>,
    pub dir: Seq<DirEntryV>,
    pub handles: Seq<HandleRec>,
    pub streams: Seq<StreamRec>,
}

/// The storage state: a directory of paths, the files they are bound to,
/// the open descriptors, and the cursor streams sharing them.
///
/// Every operation requires the well-formedness that [`Storage::new`]
/// establishes and each operation preserves (see [`StorageV::wf`]), and
/// takes descriptors and streams by the identifiers the constructing
/// operations returned.
pub struct Storage {
    pub files: Vec<Vec<u8>>,
    pub dir: Vec<DirEntry>,
    pub handles: Vec<HandleRec>,
    pub streams: Vec<StreamRec>,
}

impl View for Storage {
    type V = StorageV;

    open spec fn view(&self) -> StorageV {
        StorageV {
            files: self.files.deep_view(),
            dir: self.dir@.map_values(|e: DirEntry| e@),
            handles: self.handles@,
            streams: self.streams@,
        }
    }
}

impl StorageV {
    /// The state with no files, no bindings, no descriptors, no streams.
    pub open spec fn empty() -> StorageV {
        StorageV { files: Seq::empty(), dir: Seq::empty(), handles: Seq::empty(), streams: Seq::empty() }
    }

    /// Well-formedness: every index held anywhere is in range, no path is
    /// bound twice, and every component count fits the machine.
    pub open spec fn wf(self) -> bool {
        &&& forall|i: int| 0 <= i < self.dir.len() ==> (#[trigger] self.dir[i]).file < self.files.len()
        &&& forall|i: int| 0 <= i < self.handles.len() ==> (#[trigger] self.handles[i]).file < self.files.len()
        &&& forall|i: int| 0 <= i < self.streams.len() ==> (#[trigger] self.streams[i]).handle < self.handles.len()
        &&& forall|i: int, j: int|
            0 <= i < self.dir.len() && 0 <= j < self.dir.len() && i != j
                ==> (#[trigger] self.dir[i]).path != (#[trigger] self.dir[j]).path
        &&& self.files.len() <= usize::MAX
        &&& self.dir.len() <= usize::MAX
        &&& self.handles.len() <= usize::MAX
        &&& self.streams.len() <= usize::MAX
    }

    /// Whether some directory entry binds `p`.
    pub open spec fn has_path(self, p: Seq<u8>) -> bool {
        exists|i: int| 0 <= i < self.dir.len() && (#[trigger] self.dir[i]).path == p
    }

    /// The index of the directory entry binding `p` (unique under `wf`).
    pub open spec fn idx_of(self, p: Seq<u8>) -> int {
        choose|i: int| 0 <= i < self.dir.len() && (#[trigger] self.dir[i]).path == p
    }

    /// The file bound to `p`.
    pub open spec fn file_of(self, p: Seq<u8>) -> usize {
        self.dir[self.idx_of(p)].file
    }

    /// The content of the file bound to `p`.
    pub open spec fn content_at(self, p: Seq<u8>) -> Seq<u8> {
        self.files[self.file_of(p) as int]
    }

    /// The file a handle addresses.
    pub open spec fn file_of_handle(self, h: int) -> usize {
        self.handles[h].file
    }

    /// The size of the file a handle addresses.
    pub open spec fn size_of_handle(self, h: int) -> nat {
        self.files[self.file_of_handle(h) as int].len()
    }

    /// The content of the file a handle addresses.
    pub open spec fn content_of_handle(self, h: int) -> Seq<u8> {
        self.files[self.file_of_handle(h) as int]
    }

    /// The descriptor a stream shares.
    pub open spec fn handle_of_stream(self, st: int) -> int {
        self.streams[st].handle as int
    }
}

/// `data` resized to exactly `n` bytes: truncated when shrinking, padded
/// with zero bytes when extending.
pub open spec fn resize_content(data: Seq<u8>, n: nat) -> Seq<u8> {
    Seq::new(n, |i: int| if i < data.len() { data[i] } else { 0u8 })
}

/// `data` with `b` spliced in at `pos`: bytes before `pos` are kept, the
/// gap between the old end and `pos` (if any) is zero-filled, `b` overlays
/// the range starting at `pos`, and any old bytes past the write survive.
pub open spec fn write_content(data: Seq<u8>, pos: nat, b: Seq<u8>) -> Seq<u8> {
    let n = if data.len() >= pos + b.len() { data.len() } else { pos + b.len() };
    Seq::new(
        n,
        |i: int|
            if pos <= i < pos + b.len() {
                b[i - pos]
            } else if i < data.len() {
                data[i]
            } else {
                0u8
            },
    )
}

impl StorageV {
    /// Transition of `create`: bind `p` to a fresh empty file when absent
    /// (an existing binding and its content are kept), then open a fresh
    /// read-write descriptor on the bound file. The new handle is
    /// `self.handles.len()`.
    pub open spec fn create_t(self, p: Seq<u8>) -> StorageV {
        if self.has_path(p) {
            StorageV {
                handles: self.handles.push(HandleRec { file: self.file_of(p), writable: true, pos: 0 }),
                ..self
            }
        } else {
            StorageV {
                files: self.files.push(Seq::empty()),
                dir: self.dir.push(DirEntryV { path: p, file: self.files.len() as usize }),
                handles: self.handles.push(
                    HandleRec { file: self.files.len() as usize, writable: true, pos: 0 },
                ),
                ..self
            }
        }
    }

    /// Transition of `open`: when `p` is bound, open a fresh descriptor on
    /// its file (writable iff `perm` is `ReadWrite`, position zero); when it
    /// is not, the state is unchanged and the call reports `NotFound`. The
    /// new handle is `self.handles.len()`.
    pub open spec fn open_t(self, p: Seq<u8>, perm: Permission) -> StorageV {
        if self.has_path(p) {
            StorageV {
                handles: self.handles.push(
                    HandleRec {
                        file: self.file_of(p),
                        writable: perm == Permission::ReadWrite,
                        pos: 0,
                    },
                ),
                ..self
            }
        } else {
            self
        }
    }

    /// Transition of `delete`: unbind `p`. Files, descriptors and streams
    /// are untouched; a descriptor already open on the file keeps working.
    pub open spec fn delete_t(self, p: Seq<u8>) -> StorageV {
        if self.has_path(p) {
            StorageV { dir: self.dir.remove(self.idx_of(p)), ..self }
        } else {
            self
        }
    }

    /// Transition of `rename`: move the binding of `a` onto `b`. An
    /// existing binding of `b` is overwritten (its old file is dropped from
    /// the directory, as host renames do); renaming a path onto itself is a
    /// no-op.
    pub open spec fn rename_t(self, a: Seq<u8>, b: Seq<u8>) -> StorageV {
        if !self.has_path(a) || a == b {
            self
        } else {
            let fid = self.file_of(a);
            let ia = self.idx_of(a);
            if self.has_path(b) {
                StorageV {
                    dir: self.dir.update(self.idx_of(b), DirEntryV { path: b, file: fid }).remove(ia),
                    ..self
                }
            } else {
                StorageV { dir: self.dir.update(ia, DirEntryV { path: b, file: fid }), ..self }
            }
        }
    }

    /// Transition of `new_reader` / `new_writer`: a fresh stream sharing
    /// descriptor `h`, with its bookkeeping offset at zero. The new stream
    /// is `self.streams.len()`.
    pub open spec fn new_stream_t(self, h: int) -> StorageV {
        StorageV {
            streams: self.streams.push(StreamRec { handle: h as usize, offset: 0 }),
            ..self
        }
    }

    /// Transition of a handle-level `truncate`: resize the file behind
    /// descriptor `h` to exactly `n` bytes (zero-padded when extending).
    /// Refused — state unchanged, `PermissionDenied` — on a read-only
    /// descriptor.
    pub open spec fn truncate_t(self, h: int, n: usize) -> StorageV {
        if self.handles[h].writable {
            StorageV {
                files: self.files.update(
                    self.file_of_handle(h) as int,
                    resize_content(self.content_of_handle(h), n as nat),
                ),
                ..self
            }
        } else {
            self
        }
    }

    /// Transition of a stream-level `truncate`: the resize of
    /// [`StorageV::truncate_t`] through the stream's descriptor and, on
    /// success, the stream's bookkeeping offset recorded as `n`.
    pub open spec fn stream_truncate_t(self, st: int, n: usize) -> StorageV {
        let h = self.handle_of_stream(st);
        if self.handles[h].writable {
            StorageV {
                streams: self.streams.update(st, StreamRec { handle: h as usize, offset: n }),
                ..self.truncate_t(h, n)
            }
        } else {
            self
        }
    }

    /// How many bytes a read of at most `n` through stream `st` returns:
    /// everything between the shared position and the end of the file,
    /// capped at `n`; zero at or past the end.
    pub open spec fn read_avail(self, st: int, n: usize) -> nat {
        let h = self.handle_of_stream(st);
        let pos = self.handles[h].pos as nat;
        let len = self.size_of_handle(h);
        if pos < len {
            if n <= len - pos {
                n as nat
            } else {
                (len - pos) as nat
            }
        } else {
            0
        }
    }

    /// The bytes a read of at most `n` through stream `st` returns: the
    /// slice of the file starting at the shared position, empty at or past
    /// the end of file.
    pub open spec fn read_bytes(self, st: int, n: usize) -> Seq<u8> {
        let h = self.handle_of_stream(st);
        let pos = self.handles[h].pos as int;
        if pos < self.size_of_handle(h) {
            self.content_of_handle(h).subrange(pos, pos + self.read_avail(st, n))
        } else {
            Seq::empty()
        }
    }

    /// Transition of `read`: the shared position advances past the bytes
    /// returned; nothing else changes.
    pub open spec fn read_t(self, st: int, n: usize) -> StorageV {
        let h = self.handle_of_stream(st);
        let hr = self.handles[h];
        StorageV {
            handles: self.handles.update(
                h,
                HandleRec { pos: (hr.pos + self.read_avail(st, n)) as usize, ..hr },
            ),
            ..self
        }
    }

    /// Transition of `write`: splice `b` into the file at the shared
    /// position and advance that position past it. Refused — state
    /// unchanged, `PermissionDenied` — on a read-only descriptor.
    pub open spec fn write_t(self, st: int, b: Seq<u8>) -> StorageV {
        let h = self.handle_of_stream(st);
        let hr = self.handles[h];
        if hr.writable {
            StorageV {
                files: self.files.update(
                    hr.file as int,
                    write_content(self.content_of_handle(h), hr.pos as nat, b),
                ),
                handles: self.handles.update(
                    h,
                    HandleRec { pos: (hr.pos + b.len()) as usize, ..hr },
                ),
                ..self
            }
        } else {
            self
        }
    }

    /// The absolute position a seek through stream `st` asks for, before
    /// the negativity check.
    pub open spec fn seek_target(self, st: int, from: SeekFrom) -> int {
        let h = self.handle_of_stream(st);
        match from {
            SeekFrom::Start(n) => n as int,
            SeekFrom::Current(d) => self.handles[h].pos + d,
            SeekFrom::End(d) => self.size_of_handle(h) + d,
        }
    }

    /// Transition of `seek`: the shared position moves to the requested
    /// absolute position; a negative target is refused with the state
    /// unchanged.
    pub open spec fn seek_t(self, st: int, from: SeekFrom) -> StorageV {
        let h = self.handle_of_stream(st);
        let hr = self.handles[h];
        let t = self.seek_target(st, from);
        if t >= 0 {
            StorageV { handles: self.handles.update(h, HandleRec { pos: t as usize, ..hr }), ..self }
        } else {
            self
        }
    }
}

/// Uniqueness of directory bindings: under `wf`, any entry holding `p`
/// stands at `idx_of(p)`.
pub proof fn lemma_idx_of_unique(v: StorageV, p: Seq<u8>, i: int)
    requires
        v.wf(),
        0 <= i < v.dir.len(),
        v.dir[i].path == p,
    ensures
        v.has_path(p),
        v.idx_of(p) == i,
{
    assert(v.has_path(p));
    let j = v.idx_of(p);
    assert(0 <= j < v.dir.len() && v.dir[j].path == p);
    if i != j {
        assert(v.dir[i].path != v.dir[j].path);
    }
}

/// `create_t` preserves well-formedness, as long as the grown components
/// still fit the machine.
pub proof fn lemma_create_t_wf(s: StorageV, p: Seq<u8>)
    requires
        s.wf(),
        s.create_t(p).files.len() <= usize::MAX,
        s.create_t(p).dir.len() <= usize::MAX,
        s.create_t(p).handles.len() <= usize::MAX,
    ensures
        s.create_t(p).wf(),
{
    let s1 = s.create_t(p);
    if s.has_path(p) {
        assert(0 <= s.idx_of(p) < s.dir.len());
    } else {
        assert forall|i: int, j: int|
            0 <= i < s1.dir.len() && 0 <= j < s1.dir.len() && i != j implies (#[trigger] s1.dir[i]).path
            != (#[trigger] s1.dir[j]).path by {
            if i < s.dir.len() && j < s.dir.len() {
                assert(s.dir[i].path != s.dir[j].path);
            } else if i < s.dir.len() {
                assert(!s.has_path(s1.dir[j].path));
            } else {
                assert(!s.has_path(s1.dir[i].path));
            }
        }
    }
}

/// `open_t` preserves well-formedness, as long as the grown handle table
/// still fits the machine.
pub proof fn lemma_open_t_wf(s: StorageV, p: Seq<u8>, perm: Permission)
    requires
        s.wf(),
        s.open_t(p, perm).handles.len() <= usize::MAX,
    ensures
        s.open_t(p, perm).wf(),
{
    if s.has_path(p) {
        assert(0 <= s.idx_of(p) < s.dir.len());
    }
}

/// `delete_t` preserves well-formedness.
pub proof fn lemma_delete_t_wf(s: StorageV, p: Seq<u8>)
    requires
        s.wf(),
    ensures
        s.delete_t(p).wf(),
{
    let s1 = s.delete_t(p);
    if s.has_path(p) {
        let ia = s.idx_of(p);
        assert(0 <= ia < s.dir.len());
        assert forall|k1: int, k2: int|
            0 <= k1 < s1.dir.len() && 0 <= k2 < s1.dir.len() && k1 != k2 implies (
        #[trigger] s1.dir[k1]).path != (#[trigger] s1.dir[k2]).path by {
            let m1 = if k1 < ia { k1 } else { k1 + 1 };
            let m2 = if k2 < ia { k2 } else { k2 + 1 };
            assert(s1.dir[k1] == s.dir[m1]);
            assert(s1.dir[k2] == s.dir[m2]);
            assert(s.dir[m1].path != s.dir[m2].path);
        }
    }
}

/// `rename_t` preserves well-formedness.
pub proof fn lemma_rename_t_wf(s: StorageV, a: Seq<u8>, b: Seq<u8>)
    requires
        s.wf(),
    ensures
        s.rename_t(a, b).wf(),
{
    let s1 = s.rename_t(a, b);
    if s.has_path(a) && a != b {
        let fid = s.file_of(a);
        let ia = s.idx_of(a);
        assert(0 <= ia < s.dir.len());
        assert(s.dir[ia].file == fid && fid < s.files.len());
        if s.has_path(b) {
            let ib = s.idx_of(b);
            assert(0 <= ib < s.dir.len());
            assert(ia != ib);
            let d = s.dir.update(ib, DirEntryV { path: b, file: fid });
            assert forall|m: int| 0 <= m < d.len() implies (#[trigger] d[m]).path == s.dir[m].path
                && d[m].file < s.files.len() by {
                if m != ib {
                    assert(d[m] == s.dir[m]);
                }
            }
            assert forall|k1: int, k2: int|
                0 <= k1 < s1.dir.len() && 0 <= k2 < s1.dir.len() && k1 != k2 implies (
            #[trigger] s1.dir[k1]).path != (#[trigger] s1.dir[k2]).path by {
                let m1 = if k1 < ia { k1 } else { k1 + 1 };
                let m2 = if k2 < ia { k2 } else { k2 + 1 };
                assert(s1.dir[k1] == d[m1]);
                assert(s1.dir[k2] == d[m2]);
                assert(s.dir[m1].path != s.dir[m2].path);
            }
        } else {
            assert forall|k1: int, k2: int|
                0 <= k1 < s1.dir.len() && 0 <= k2 < s1.dir.len() && k1 != k2 implies (
            #[trigger] s1.dir[k1]).path != (#[trigger] s1.dir[k2]).path by {
                if k1 != ia && k2 != ia {
                    assert(s1.dir[k1] == s.dir[k1]);
                    assert(s1.dir[k2] == s.dir[k2]);
                } else if k1 == ia {
                    assert(s1.dir[k1].path == b);
                    assert(s1.dir[k2] == s.dir[k2]);
                    assert(!s.has_path(b));
                } else {
                    assert(s1.dir[k2].path == b);
                    assert(s1.dir[k1] == s.dir[k1]);
                    assert(!s.has_path(b));
                }
            }
        }
    }
}

/// `new_stream_t` preserves well-formedness, as long as the grown stream
/// table still fits the machine.
pub proof fn lemma_new_stream_t_wf(s: StorageV, h: int)
    requires
        s.wf(),
        0 <= h < s.handles.len(),
        s.new_stream_t(h).streams.len() <= usize::MAX,
    ensures
        s.new_stream_t(h).wf(),
{
}

/// `truncate_t` preserves well-formedness: only one file's content changes.
pub proof fn lemma_truncate_t_wf(s: StorageV, h: int, n: usize)
    requires
        s.wf(),
        0 <= h < s.handles.len(),
    ensures
        s.truncate_t(h, n).wf(),
{
}

/// `write_t` preserves well-formedness: only one file's content and one
/// descriptor's position change.
pub proof fn lemma_write_t_wf(s: StorageV, st: int, b: Seq<u8>)
    requires
        s.wf(),
        0 <= st < s.streams.len(),
    ensures
        s.write_t(st, b).wf(),
{
}

/// `read_t` preserves well-formedness: only one descriptor's position
/// changes.
pub proof fn lemma_read_t_wf(s: StorageV, st: int, n: usize)
    requires
        s.wf(),
        0 <= st < s.streams.len(),
    ensures
        s.read_t(st, n).wf(),
{
}

/// `seek_t` preserves well-formedness: only one descriptor's position
/// changes.
pub proof fn lemma_seek_t_wf(s: StorageV, st: int, from: SeekFrom)
    requires
        s.wf(),
        0 <= st < s.streams.len(),
    ensures
        s.seek_t(st, from).wf(),
{
}

/// `stream_truncate_t` preserves well-formedness: a resize plus one
/// stream's bookkeeping offset.
pub proof fn lemma_stream_truncate_t_wf(s: StorageV, st: int, n: usize)
    requires
        s.wf(),
        0 <= st < s.streams.len(),
    ensures
        s.stream_truncate_t(st, n).wf(),
{
}

impl Storage {
    /// A storage layer with nothing in it.
    pub fn new() -> (s: Storage)
        ensures
            s@ == StorageV::empty(),
            s@.wf(),
    {
        let s = Storage { files: Vec::new(), dir: Vec::new(), handles: Vec::new(), streams: Vec::new() };
        proof {
            assert(s@ =~~= StorageV::empty());
        }
        s
    }

    /// Whether the byte strings `a` and `b` are equal.
    fn bytes_eq(a: &[u8], b: &[u8]) -> (r: bool)
        ensures
            r == (a@ == b@),
    {
        if a.len() != b.len() {
            return false;
        }
        let mut k: usize = 0;
        while k < a.len()
            invariant
                a@.len() == b@.len(),
                k <= a@.len(),
                forall|i: int| 0 <= i < k ==> a@[i] == b@[i],
            decreases a@.len() - k,
        {
            if a[k] != b[k] {
                return false;
            }
            k += 1;
        }
        proof {
            assert(a@ =~= b@);
        }
        true
    }

    /// The index of the directory entry binding `path`, if any.
    fn lookup(&self, path: &[u8]) -> (r: Option<usize>)
        ensures
            match r {
                Some(i) => i < self.dir.len() && self.dir@[i as int]@.path == path@,
                None => !self@.has_path(path@),
            },
    {
        let mut k: usize = 0;
        while k < self.dir.len()
            invariant
                k <= self.dir@.len(),
                forall|i: int| 0 <= i < k ==> (#[trigger] self.dir@[i])@.path != path@,
            decreases self.dir@.len() - k,
        {
            if Self::bytes_eq(self.dir[k].path.as_slice(), path) {
                return Some(k);
            }
            k += 1;
        }
        proof {
            assert forall|i: int| 0 <= i < self@.dir.len() implies (#[trigger] self@.dir[i]).path != path@ by {
                assert(self@.dir[i] == self.dir@[i]@);
            }
        }
        None
    }

    /// Opens `path` for reading and writing, binding it to a fresh empty
    /// file first when it is absent (an existing binding keeps its
    /// content). Yields a fresh read-write descriptor at position zero.
    pub fn create(&mut self, path: &[u8]) -> (r: Result<usize, FsError>)
        requires
            old(self)@.wf(),
        ensures
            final(self)@ == old(self)@.create_t(path@),
            final(self)@.wf(),
            final(self)@.has_path(path@),
            r == Ok::<usize, FsError>(old(self).handles.len()),
    {
        let h = self.handles.len();
        let fid: usize = match self.lookup(path) {
            Some(i) => {
                proof {
                    lemma_idx_of_unique(self@, path@, i as int);
                }
                self.dir[i].file
            },
            None => {
                let fid = self.files.len();
                self.files.push(Vec::new());
                self.dir.push(DirEntry { path: Self::to_owned_path(path), file: fid });
                fid
            },
        };
        self.handles.push(HandleRec { file: fid, writable: true, pos: 0 });
        proof {
            assert(self.files.len() <= usize::MAX);
            assert(self.dir.len() <= usize::MAX);
            assert(self.handles.len() <= usize::MAX);
            assert(self@ =~~= old(self)@.create_t(path@));
            lemma_create_t_wf(old(self)@, path@);
            crate::laws::lemma_create_binds(old(self)@, path@);
        }
        Ok(h)
    }

    /// Opens the file bound to `path`, with write access exactly when
    /// `perm` is `ReadWrite`. Yields a fresh descriptor at position zero,
    /// or `NotFound` when the path is not bound.
    pub fn open(&mut self, path: &[u8], perm: Permission) -> (r: Result<usize, FsError>)
        requires
            old(self)@.wf(),
        ensures
            final(self)@ == old(self)@.open_t(path@, perm),
            final(self)@.wf(),
            old(self)@.has_path(path@) ==> r == Ok::<usize, FsError>(old(self).handles.len()),
            !old(self)@.has_path(path@) ==> r == Err::<usize, FsError>(FsError::NotFound),
    {
        match self.lookup(path) {
            Some(i) => {
                proof {
                    lemma_idx_of_unique(self@, path@, i as int);
                }
                let h = self.handles.len();
                let fid = self.dir[i].file;
                self.handles.push(
                    HandleRec { file: fid, writable: perm.grants_write(), pos: 0 },
                );
                proof {
                    assert(self.handles.len() <= usize::MAX);
                    assert(self@ =~~= old(self)@.open_t(path@, perm));
                    lemma_open_t_wf(old(self)@, path@, perm);
                }
                Ok(h)
            },
            None => {
                proof {
                    assert(self@ =~~= old(self)@.open_t(path@, perm));
                }
                Err(FsError::NotFound)
            },
        }
    }

    /// Unbinds `path` from the directory, or reports `NotFound` when it is
    /// not bound. Files, descriptors and streams are untouched: a
    /// descriptor already open on the file keeps working.
    pub fn delete(&mut self, path: &[u8]) -> (r: Result<(), FsError>)
        requires
            old(self)@.wf(),
        ensures
            final(self)@ == old(self)@.delete_t(path@),
            final(self)@.wf(),
            !final(self)@.has_path(path@),
            old(self)@.has_path(path@) ==> r == Ok::<(), FsError>(()),
            !old(self)@.has_path(path@) ==> r == Err::<(), FsError>(FsError::NotFound),
    {
        match self.lookup(path) {
            Some(i) => {
                proof {
                    lemma_idx_of_unique(self@, path@, i as int);
                }
                self.dir.remove(i);
                proof {
                    assert(self@ =~~= old(self)@.delete_t(path@));
                    lemma_delete_t_wf(old(self)@, path@);
                    crate::laws::lemma_delete_unbinds(old(self)@, path@);
                }
                Ok(())
            },
            None => {
                proof {
                    assert(self@ =~~= old(self)@.delete_t(path@));
                }
                Err(FsError::NotFound)
            },
        }
    }

    /// Moves the binding of `src` onto `dst`, or reports `NotFound` when
    /// `src` is not bound. An existing binding of `dst` is overwritten, as
    /// the host rename does; renaming a path onto itself succeeds and
    /// changes nothing.
    pub fn rename(&mut self, src: &[u8], dst: &[u8]) -> (r: Result<(), FsError>)
        requires
            old(self)@.wf(),
        ensures
            final(self)@ == old(self)@.rename_t(src@, dst@),
            final(self)@.wf(),
            old(self)@.has_path(src@) ==> r == Ok::<(), FsError>(()),
            !old(self)@.has_path(src@) ==> r == Err::<(), FsError>(FsError::NotFound),
            old(self)@.has_path(src@) ==> final(self)@.has_path(dst@),
            old(self)@.has_path(src@) && src@ != dst@ ==> !final(self)@.has_path(src@),
    {
        let i = match self.lookup(src) {
            Some(i) => i,
            None => {
                return Err(FsError::NotFound);
            },
        };
        proof {
            lemma_idx_of_unique(self@, src@, i as int);
        }
        if Self::bytes_eq(src, dst) {
            return Ok(());
        }
        let fid = self.dir[i].file;
        match self.lookup(dst) {
            Some(j) => {
                proof {
                    lemma_idx_of_unique(self@, dst@, j as int);
                }
                self.dir[j] = DirEntry { path: Self::to_owned_path(dst), file: fid };
                self.dir.remove(i);
                proof {
                    assert(self@ =~~= old(self)@.rename_t(src@, dst@));
                    lemma_rename_t_wf(old(self)@, src@, dst@);
                    crate::laws::lemma_rename_redirects(old(self)@, src@, dst@);
                }
            },
            None => {
                self.dir[i] = DirEntry { path: Self::to_owned_path(dst), file: fid };
                proof {
                    assert(self@ =~~= old(self)@.rename_t(src@, dst@));
                    lemma_rename_t_wf(old(self)@, src@, dst@);
                    crate::laws::lemma_rename_redirects(old(self)@, src@, dst@);
                }
            },
        }
        Ok(())
    }

    /// Builds a fresh reader stream over descriptor `h`. Streams built over
    /// one descriptor share its position. Construction cannot fail here;
    /// the result stays fallible because alternate backings may need a
    /// resource to build a stream.
    pub fn new_reader(&mut self, h: usize) -> (r: Result<usize, FsError>)
        requires
            old(self)@.wf(),
            h < old(self).handles.len(),
        ensures
            final(self)@ == old(self)@.new_stream_t(h as int),
            final(self)@.wf(),
            r == Ok::<usize, FsError>(old(self).streams.len()),
    {
        let st = self.streams.len();
        self.streams.push(StreamRec { handle: h, offset: 0 });
        proof {
            assert(self.streams.len() <= usize::MAX);
            assert(self@ =~~= old(self)@.new_stream_t(h as int));
            lemma_new_stream_t_wf(old(self)@, h as int);
        }
        Ok(st)
    }

    /// Builds a fresh writer stream over descriptor `h`; the model state of
    /// a writer is the same as a reader's, write capability being the
    /// descriptor's.
    pub fn new_writer(&mut self, h: usize) -> (r: Result<usize, FsError>)
        requires
            old(self)@.wf(),
            h < old(self).handles.len(),
        ensures
            final(self)@ == old(self)@.new_stream_t(h as int),
            final(self)@.wf(),
            r == Ok::<usize, FsError>(old(self).streams.len()),
    {
        let st = self.streams.len();
        self.streams.push(StreamRec { handle: h, offset: 0 });
        proof {
            assert(self.streams.len() <= usize::MAX);
            assert(self@ =~~= old(self)@.new_stream_t(h as int));
            lemma_new_stream_t_wf(old(self)@, h as int);
        }
        Ok(st)
    }

    /// Resizes the file behind descriptor `h` to exactly `offset` bytes:
    /// data past `offset` is dropped, an extension is padded with zero
    /// bytes. Refused with `PermissionDenied` on a read-only descriptor.
    pub fn truncate(&mut self, h: usize, offset: usize) -> (r: Result<(), FsError>)
        requires
            old(self)@.wf(),
            h < old(self).handles.len(),
        ensures
            final(self)@ == old(self)@.truncate_t(h as int, offset),
            final(self)@.wf(),
            old(self).handles@[h as int].writable ==> r == Ok::<(), FsError>(()),
            !old(self).handles@[h as int].writable ==> r == Err::<(), FsError>(
                FsError::PermissionDenied,
            ),
    {
        let hr = self.handles[h];
        if !hr.writable {
            return Err(FsError::PermissionDenied);
        }
        let fid = hr.file;
        let ghost content = self@.files[fid as int];
        let data_len = self.files[fid].len();
        let n_copy = if offset <= data_len {
            offset
        } else {
            data_len
        };
        let mut out: Vec<u8> = Vec::new();
        let mut k: usize = 0;
        while k < n_copy
            invariant
                fid < self.files@.len(),
                n_copy <= self.files@[fid as int]@.len(),
                content == self@.files[fid as int],
                k <= n_copy,
                out@ == resize_content(content, k as nat),
            decreases n_copy - k,
        {
            out.push(self.files[fid][k]);
            proof {
                assert(out@ =~= resize_content(content, (k + 1) as nat));
            }
            k += 1;
        }
        while out.len() < offset
            invariant
                out@ == resize_content(content, out@.len()),
                out@.len() <= offset,
                out@.len() >= content.len() || out@.len() >= offset,
            decreases offset - out@.len(),
        {
            out.push(0u8);
            proof {
                assert(out@ =~= resize_content(content, out@.len()));
            }
        }
        self.files[fid] = out;
        proof {
            assert(self@.files[fid as int] =~= resize_content(content, offset as nat));
            assert(self@ =~~= old(self)@.truncate_t(h as int, offset));
            lemma_truncate_t_wf(old(self)@, h as int, offset);
        }
        Ok(())
    }

    /// The current size in bytes of the file behind descriptor `h`.
    pub fn file_size(&self, h: usize) -> (r: Result<usize, FsError>)
        requires
            self@.wf(),
            h < self.handles.len(),
        ensures
            r matches Ok(sz) && sz == self@.size_of_handle(h as int),
    {
        let hr = self.handles[h];
        Ok(self.files[hr.file].len())
    }

    /// A durability barrier on the file behind descriptor `h`: previously
    /// written data is forced to durable storage. Durability is a promise
    /// to the host, not an observable of the model, so the state is
    /// untouched; a failed barrier on a real backing must be treated as
    /// potential durability loss, not retried blindly.
    pub fn sync(&self, h: usize) -> (r: Result<(), FsError>)
        requires
            self@.wf(),
            h < self.handles.len(),
        ensures
            r == Ok::<(), FsError>(()),
    {
        Ok(())
    }

    /// A hint to reserve `size` bytes of storage at `offset` for the file
    /// behind descriptor `h`. Strictly advisory: the state — size and
    /// readable content included — is exactly what it was, and callers must
    /// never rely on any observable effect.
    pub fn allocate(&mut self, h: usize, _offset: usize, _size: usize) -> (r: Result<(), FsError>)
        requires
            old(self)@.wf(),
            h < old(self).handles.len(),
        ensures
            *final(self) == *old(self),
            r == Ok::<(), FsError>(()),
    {
        Ok(())
    }

    /// Reads at most `n` bytes through stream `st`, starting at the
    /// position shared by every stream over the same descriptor, and
    /// advances that position past the bytes returned. An empty result
    /// signals end of file.
    pub fn read(&mut self, st: usize, n: usize) -> (r: Result<Vec<u8>, FsError>)
        requires
            old(self)@.wf(),
            st < old(self).streams.len(),
        ensures
            final(self)@ == old(self)@.read_t(st as int, n),
            final(self)@.wf(),
            r matches Ok(v) && v@ == old(self)@.read_bytes(st as int, n),
    {
        let hi = self.streams[st].handle;
        let hr = self.handles[hi];
        let ghost content = self@.content_of_handle(hi as int);
        let data_len = self.files[hr.file].len();
        let avail = if hr.pos < data_len {
            let rem = data_len - hr.pos;
            if n <= rem {
                n
            } else {
                rem
            }
        } else {
            0
        };
        let mut out: Vec<u8> = Vec::new();
        let mut k: usize = 0;
        while k < avail
            invariant
                hr.file < self.files@.len(),
                content == self@.files[hr.file as int],
                data_len == content.len(),
                avail == 0 || hr.pos + avail <= content.len(),
                k <= avail,
                avail == 0 || out@ == content.subrange(hr.pos as int, hr.pos + k),
                avail == 0 ==> out@ == Seq::<u8>::empty(),
            decreases avail - k,
        {
            out.push(self.files[hr.file][hr.pos + k]);
            proof {
                assert(out@ =~= content.subrange(hr.pos as int, hr.pos + k + 1));
            }
            k += 1;
        }
        self.handles[hi] = HandleRec { pos: hr.pos + avail, ..hr };
        proof {
            assert(self@ =~~= old(self)@.read_t(st as int, n));
            assert(out@ =~= old(self)@.read_bytes(st as int, n));
            lemma_read_t_wf(old(self)@, st as int, n);
        }
        Ok(out)
    }

    /// Writes `buf` through stream `st` at the position shared by every
    /// stream over the same descriptor, zero-filling any gap between the
    /// old end of file and that position, and advances the position past
    /// the written bytes. Refused with `PermissionDenied` on a read-only
    /// descriptor.
    pub fn write(&mut self, st: usize, buf: &[u8]) -> (r: Result<usize, FsError>)
        requires
            old(self)@.wf(),
            st < old(self).streams.len(),
            old(self)@.handles[old(self)@.handle_of_stream(st as int)].writable ==> old(self)@.handles[old(
                self,
            )@.handle_of_stream(st as int)].pos + buf@.len() <= usize::MAX,
        ensures
            final(self)@ == old(self)@.write_t(st as int, buf@),
            final(self)@.wf(),
            old(self)@.handles[old(self)@.handle_of_stream(st as int)].writable ==> r == Ok::<
                usize,
                FsError,
            >(buf.len()),
            !old(self)@.handles[old(self)@.handle_of_stream(st as int)].writable ==> r == Err::<
                usize,
                FsError,
            >(FsError::PermissionDenied),
    {
        let hi = self.streams[st].handle;
        let hr = self.handles[hi];
        if !hr.writable {
            return Err(FsError::PermissionDenied);
        }
        let ghost content = self@.content_of_handle(hi as int);
        let ghost target = write_content(content, hr.pos as nat, buf@);
        let data_len = self.files[hr.file].len();
        let end = hr.pos + buf.len();
        let n = if data_len >= end {
            data_len
        } else {
            end
        };
        let mut out: Vec<u8> = Vec::new();
        let mut k: usize = 0;
        while k < n
            invariant
                hr.file < self.files@.len(),
                content == self@.files[hr.file as int],
                data_len == content.len(),
                end == hr.pos + buf@.len(),
                target == write_content(content, hr.pos as nat, buf@),
                n == target.len(),
                n == if data_len >= end {
                    data_len as int
                } else {
                    end as int
                },
                k <= n,
                out@ == target.take(k as int),
            decreases n - k,
        {
            let next: u8 = if hr.pos <= k && k < end {
                buf[k - hr.pos]
            } else if k < data_len {
                self.files[hr.file][k]
            } else {
                0u8
            };
            proof {
                assert(next == target[k as int]);
            }
            out.push(next);
            proof {
                assert(out@ =~= target.take(k + 1 as int));
            }
            k += 1;
        }
        self.files[hr.file] = out;
        self.handles[hi] = HandleRec { pos: end, ..hr };
        proof {
            assert(self@.files[hr.file as int] =~= target);
            assert(target.take(n as int) =~= target);
            assert(self@ =~~= old(self)@.write_t(st as int, buf@));
            lemma_write_t_wf(old(self)@, st as int, buf@);
        }
        Ok(buf.len())
    }

    /// Repositions the cursor shared by every stream over `st`'s
    /// descriptor: to an absolute position, or relative to the current
    /// position or to the end of the file. Returns the new absolute
    /// position; a negative target is refused with `InvalidArgument` and
    /// leaves the position where it was.
    pub fn seek(&mut self, st: usize, from: SeekFrom) -> (r: Result<usize, FsError>)
        requires
            old(self)@.wf(),
            st < old(self).streams.len(),
            old(self)@.seek_target(st as int, from) <= usize::MAX,
        ensures
            final(self)@ == old(self)@.seek_t(st as int, from),
            final(self)@.wf(),
            old(self)@.seek_target(st as int, from) >= 0 ==> r == Ok::<usize, FsError>(
                old(self)@.seek_target(st as int, from) as usize,
            ),
            old(self)@.seek_target(st as int, from) < 0 ==> r == Err::<usize, FsError>(
                FsError::InvalidArgument,
            ),
    {
        let hi = self.streams[st].handle;
        let hr = self.handles[hi];
        let target: i128 = match from {
            SeekFrom::Start(p) => p as i128,
            SeekFrom::Current(d) => hr.pos as i128 + d as i128,
            SeekFrom::End(d) => self.files[hr.file].len() as i128 + d as i128,
        };
        if target < 0 {
            return Err(FsError::InvalidArgument);
        }
        let new_pos = target as usize;
        self.handles[hi] = HandleRec { pos: new_pos, ..hr };
        proof {
            assert(self@ =~~= old(self)@.seek_t(st as int, from));
            lemma_seek_t_wf(old(self)@, st as int, from);
        }
        Ok(new_pos)
    }

    /// A pass-through of the stream's flush: the model keeps no user-space
    /// buffer, so there is nothing to push down and the state is exactly
    /// what it was.
    pub fn flush(&mut self, st: usize) -> (r: Result<(), FsError>)
        requires
            old(self)@.wf(),
            st < old(self).streams.len(),
        ensures
            *final(self) == *old(self),
            r == Ok::<(), FsError>(()),
    {
        Ok(())
    }

    /// The resize of [`Storage::truncate`], requested through stream `st`
    /// against its shared descriptor; on success the stream also records
    /// `offset` as its private bookkeeping, which no later read, write or
    /// seek consults.
    pub fn stream_truncate(&mut self, st: usize, offset: usize) -> (r: Result<(), FsError>)
        requires
            old(self)@.wf(),
            st < old(self).streams.len(),
        ensures
            final(self)@ == old(self)@.stream_truncate_t(st as int, offset),
            final(self)@.wf(),
            old(self)@.handles[old(self)@.handle_of_stream(st as int)].writable ==> r == Ok::<
                (),
                FsError,
            >(()),
            !old(self)@.handles[old(self)@.handle_of_stream(st as int)].writable ==> r == Err::<
                (),
                FsError,
            >(FsError::PermissionDenied),
    {
        let hi = self.streams[st].handle;
        match self.truncate(hi, offset) {
            Ok(()) => {
                self.streams[st] = StreamRec { handle: hi, offset };
                proof {
                    assert(self@ =~~= old(self)@.stream_truncate_t(st as int, offset));
                    lemma_stream_truncate_t_wf(old(self)@, st as int, offset);
                }
                Ok(())
            },
            Err(e) => {
                Err(e)
            },
        }
    }

    /// The advisory reservation of [`Storage::allocate`], requested through
    /// stream `st`: no observable effect whatsoever.
    pub fn stream_allocate(&mut self, st: usize, _offset: usize, _size: usize) -> (r: Result<
        (),
        FsError,
    >)
        requires
            old(self)@.wf(),
            st < old(self).streams.len(),
        ensures
            *final(self) == *old(self),
            r == Ok::<(), FsError>(()),
    {
        Ok(())
    }

    /// A copy of `path` as an owned byte string.
    fn to_owned_path(path: &[u8]) -> (r: Vec<u8>)
        ensures
            r@ == path@,
    {
        let mut out: Vec<u8> = Vec::new();
        let mut k: usize = 0;
        while k < path.len()
            invariant
                k <= path@.len(),
                out@ == path@.take(k as int),
            decreases path@.len() - k,
        {
            out.push(path[k]);
            proof {
                assert(out@ =~= path@.take(k + 1 as int));
            }
            k += 1;
        }
        proof {
            assert(path@.take(path@.len() as int) =~= path@);
        }
        out
    }
}

} // verus!
