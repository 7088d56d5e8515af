//! Laws relating the storage operations to one another, proved over the
//! spec-level transitions of [`crate::storage::StorageV`].

use vstd::prelude::*;

use crate::access::Permission;
use crate::storage::StorageV;

verus! {

/// Creating a path makes it present.
pub proof fn lemma_create_binds(s: StorageV, p: Seq<u8>)
    requires
        s.wf(),
    ensures
        s.create_t(p).has_path(p),
{
    let s1 = s.create_t(p);
    if s.has_path(p) {
        let i = s.idx_of(p);
        assert(s1.dir[i].path == p);
    } else {
        let i = s.dir.len() as int;
        assert(s1.dir[i].path == p);
    }
}

/// Creating a path keeps the content it was already bound to, and binds a
/// fresh path to an empty file: create is "open or create", never "create
/// or replace".
pub proof fn lemma_create_preserves_content(s: StorageV, p: Seq<u8>)
    requires
        s.wf(),
    ensures
        s.has_path(p) ==> s.create_t(p).content_at(p) == s.content_at(p),
        !s.has_path(p) ==> s.create_t(p).content_at(p) == Seq::<u8>::empty(),
{
    let s1 = s.create_t(p);
    if s.has_path(p) {
        assert(s1.dir == s.dir);
        assert(s1.idx_of(p) == s.idx_of(p));
        assert(s.dir[s.idx_of(p)].file < s.files.len());
    } else {
        let iy = s.dir.len() as int;
        assert(s1.dir[iy].path == p);
        assert(s1.has_path(p));
        let i = s1.idx_of(p);
        assert(0 <= i < s1.dir.len() && s1.dir[i].path == p);
        if i < s.dir.len() {
            assert(s.dir[i].path == p);
            assert(s.has_path(p));
        }
        assert(i == iy);
        assert(s1.file_of(p) == s.files.len() as usize);
        assert(s1.content_at(p) == s1.files[s.files.len() as int]);
    }
}

/// Creating a path and then opening it read-only succeeds, and the opened
/// handle reports exactly the size of the bytes the file held when it was
/// opened.
pub proof fn lemma_create_then_open(s: StorageV, p: Seq<u8>)
    requires
        s.wf(),
    ensures
        ({
            let s1 = s.create_t(p);
            let s2 = s1.open_t(p, Permission::ReadOnly);
            let h = s1.handles.len() as int;
            &&& s1.has_path(p)
            &&& s2.handles.len() == s1.handles.len() + 1
            &&& !s2.handles[h].writable
            &&& s2.handles[h].pos == 0
            &&& s2.size_of_handle(h) == s1.content_at(p).len()
        }),
{
    lemma_create_binds(s, p);
    let s1 = s.create_t(p);
    let s2 = s1.open_t(p, Permission::ReadOnly);
    let h = s1.handles.len() as int;
    assert(s2.handles[h].file == s1.file_of(p));
    assert(s2.files == s1.files);
}

/// Truncating to `n` and then asking for the size returns exactly `n`,
/// whether `n` shrinks, keeps or extends the file; the kept prefix is
/// unchanged and an extension reads back as zero bytes.
pub proof fn lemma_truncate_then_file_size(s: StorageV, h: int, n: usize)
    requires
        s.wf(),
        0 <= h < s.handles.len(),
        s.handles[h].writable,
    ensures
        ({
            let s1 = s.truncate_t(h, n);
            &&& s1.size_of_handle(h) == n
            &&& forall|i: int|
                0 <= i < n && i < s.size_of_handle(h) ==> s1.content_of_handle(h)[i]
                    == s.content_of_handle(h)[i]
            &&& forall|i: int|
                s.size_of_handle(h) <= i < n ==> s1.content_of_handle(h)[i] == 0u8
        }),
{
    assert(s.handles[h].file < s.files.len());
}

/// Streams over one descriptor observe a single shared position: after a
/// write through stream `sa`, the position `sb` would read from is exactly
/// the end of what `sa` wrote, and both streams would read the same bytes.
pub proof fn lemma_streams_share_position(s: StorageV, sa: int, sb: int, b: Seq<u8>, n: usize)
    requires
        s.wf(),
        0 <= sa < s.streams.len(),
        0 <= sb < s.streams.len(),
        s.streams[sa].handle == s.streams[sb].handle,
        s.handles[s.handle_of_stream(sa)].writable,
        s.handles[s.handle_of_stream(sa)].pos + b.len() <= usize::MAX,
    ensures
        ({
            let s1 = s.write_t(sa, b);
            let h = s.handle_of_stream(sa);
            &&& s1.handles[s1.handle_of_stream(sb)].pos == s.handles[h].pos + b.len()
            &&& s1.read_bytes(sb, n) == s1.read_bytes(sa, n)
        }),
{
    let h = s.handle_of_stream(sa);
    assert(0 <= h < s.handles.len());
}

/// Deleting a path unbinds it, whether or not it was bound.
pub proof fn lemma_delete_unbinds(s: StorageV, p: Seq<u8>)
    requires
        s.wf(),
    ensures
        !s.delete_t(p).has_path(p),
{
    let s1 = s.delete_t(p);
    if s.has_path(p) {
        let ia = s.idx_of(p);
        assert(0 <= ia < s.dir.len() && s.dir[ia].path == p);
        assert forall|k: int| 0 <= k < s1.dir.len() implies (#[trigger] s1.dir[k]).path != p by {
            let m = if k < ia {
                k
            } else {
                k + 1
            };
            assert(s1.dir[k] == s.dir[m]);
            assert(s.dir[m].path != s.dir[ia].path);
        }
    }
}

/// Deleting a path and then opening it fails with `NotFound` and leaves the
/// state exactly as the delete left it.
pub proof fn lemma_delete_then_open(s: StorageV, p: Seq<u8>, perm: Permission)
    requires
        s.wf(),
    ensures
        !s.delete_t(p).has_path(p),
        s.delete_t(p).open_t(p, perm) == s.delete_t(p),
{
    lemma_delete_unbinds(s, p);
}

/// Renaming `a` to `b` redirects the binding: afterwards `b` is bound to
/// what `a` held — so an open of `b` succeeds — and `a` is absent — so an
/// open of `a` reports `NotFound`. (Renaming a path onto itself keeps the
/// path present, so it is left out here.)
pub proof fn lemma_rename_redirects(s: StorageV, a: Seq<u8>, b: Seq<u8>)
    requires
        s.wf(),
        s.has_path(a),
        a != b,
    ensures
        ({
            let s1 = s.rename_t(a, b);
            &&& s1.has_path(b)
            &&& !s1.has_path(a)
            &&& s1.content_at(b) == s.content_at(a)
        }),
{
    let s1 = s.rename_t(a, b);
    let fid = s.file_of(a);
    let ia = s.idx_of(a);
    assert(0 <= ia < s.dir.len() && s.dir[ia].path == a);
    assert(fid < s.files.len());
    if s.has_path(b) {
        let ib = s.idx_of(b);
        assert(0 <= ib < s.dir.len() && s.dir[ib].path == b);
        assert(ia != ib);
        let d = s.dir.update(ib, crate::storage::DirEntryV { path: b, file: fid });
        let ibr = if ib < ia {
            ib
        } else {
            ib - 1
        };
        assert(s1.dir[ibr] == d[ib]);
        assert(s1.has_path(b));
        assert forall|k: int| 0 <= k < s1.dir.len() implies (#[trigger] s1.dir[k]).path != a by {
            let m = if k < ia {
                k
            } else {
                k + 1
            };
            assert(s1.dir[k] == d[m]);
            if m != ib {
                assert(d[m] == s.dir[m]);
                assert(s.dir[m].path != s.dir[ia].path);
            }
        }
        let j = s1.idx_of(b);
        assert(0 <= j < s1.dir.len() && s1.dir[j].path == b);
        let mj = if j < ia {
            j
        } else {
            j + 1
        };
        assert(s1.dir[j] == d[mj]);
        if mj != ib {
            assert(d[mj] == s.dir[mj]);
            assert(s.dir[mj].path != s.dir[ib].path);
        }
        assert(s1.dir[j].file == fid);
    } else {
        assert(s1.dir[ia].path == b);
        assert(s1.has_path(b));
        assert forall|k: int| 0 <= k < s1.dir.len() implies (#[trigger] s1.dir[k]).path != a by {
            if k != ia {
                assert(s1.dir[k] == s.dir[k]);
                assert(s.dir[k].path != s.dir[ia].path);
            }
        }
        let j = s1.idx_of(b);
        assert(0 <= j < s1.dir.len() && s1.dir[j].path == b);
        if j != ia {
            assert(s1.dir[j] == s.dir[j]);
            assert(s.has_path(b));
        }
        assert(s1.dir[j].file == fid);
    }
}

} // verus!
